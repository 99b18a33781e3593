//! The redeploy service's data model and decision logic: job and status
//! records (timestamps as unix seconds), response classification for the
//! rstate backend, status derivation for the score-server backend, and a
//! fake backend for running without either.

use vstd::prelude::*;

use crate::models::Problem;

verus! {

/// A redeploy job the service accepted.
#[derive(Debug, PartialEq, Eq)]
pub struct RedeployJob {
    pub id: String,
    pub team_id: String,
    pub problem_code: String,
}

/// What to redeploy: one team's one problem environment.
#[derive(Debug, PartialEq, Eq)]
pub struct RedeployTarget {
    pub team_id: String,
    pub problem_id: String,
}

/// One problem's redeploy state for one team.  Times are unix seconds.
#[derive(Debug, PartialEq, Eq)]
pub struct RedeployStatus {
    pub team_id: String,
    pub problem_code: String,
    pub is_redeploying: bool,
    pub last_redeploy_started_at: Option<i64>,
    pub last_redeploy_completed_at: Option<i64>,
}

/// Failures of the redeploy service; transport and decoding failures
/// carry their message.
#[derive(Debug, PartialEq, Eq)]
pub enum RedeployError {
    InvalidParameters,
    AnotherJobInQueue(String),
    Json(String),
    Reqwest(String),
    Unexpected(String),
}

/// Where the rstate redeploy service lives, how to authenticate, and
/// which problems it serves.
pub struct RStateConfig {
    pub baseurl: String,
    pub username: String,
    pub password: String,
    pub problems: Vec<Problem>,
}

/// Where the score server lives and the token to present.
pub struct RegaliaConfig {
    pub baseurl: String,
    pub token: String,
}

/// Classifies a failed rstate redeploy answer: a bad request whose body
/// is the service's fixed marker means the parameters were invalid, any
/// other bad request names the job already queued, and anything else is
/// unexpected.
pub fn classify_rstate_redeploy_failure(status: u16, body: &String) -> (r: RedeployError)
    requires
        status != 200,
    ensures
        (status == 400 && body@ == "BadRequest!"@) ==> r == RedeployError::InvalidParameters,
        (status == 400 && body@ != "BadRequest!"@) ==> (r matches RedeployError::AnotherJobInQueue(m)
            && m@ == body@),
        status != 400 ==> r matches RedeployError::Unexpected(_),
{
    if status == 400 {
        let marker: String = "BadRequest!".to_owned();
        if *body == marker {
            RedeployError::InvalidParameters
        } else {
            RedeployError::AnotherJobInQueue(body.clone())
        }
    } else {
        RedeployError::Unexpected("unexpected status code".to_owned())
    }
}

/// Whether a redeploy of the given problem is still running: it started
/// but never completed.
pub open spec fn spec_redeploy_job_exists(statuses: Seq<RedeployStatus>, problem_code: Seq<char>) -> bool {
    exists|i: int| {
        &&& 0 <= i < statuses.len()
        &&& (#[trigger] statuses[i]).problem_code@ == problem_code
        &&& statuses[i].last_redeploy_started_at is Some
        &&& statuses[i].last_redeploy_completed_at is None
    }
}

/// Checks whether the requested problem is already being redeployed, in
/// which case a new request must be refused.
pub fn redeploy_job_exists(statuses: &Vec<RedeployStatus>, problem_code: &String) -> (r: bool)
    ensures
        r == spec_redeploy_job_exists(statuses@, problem_code@),
{
    let mut i: usize = 0;
    while i < statuses.len()
        invariant
            0 <= i <= statuses@.len(),
            forall|j: int| 0 <= j < i ==> !((#[trigger] statuses@[j]).problem_code@
                == problem_code@ && statuses@[j].last_redeploy_started_at is Some
                && statuses@[j].last_redeploy_completed_at is None),
        decreases statuses@.len() - i,
    {
        let started = matches!(statuses[i].last_redeploy_started_at, Some(_));
        let completed = matches!(statuses[i].last_redeploy_completed_at, Some(_));
        if statuses[i].problem_code == *problem_code && started && !completed {
            return true;
        }
        i = i + 1;
    }
    false
}

/// One event of a score-server deployment.
#[derive(Debug, Clone, Copy, PartialEq, Eq, Structural)]
pub enum DeploymentEventKind {
    Unspecified,
    Queued,
    Creating,
    Finished,
    Error,
}

/// A deployment event: when it happened (unix seconds) and what it was.
#[derive(Debug, Clone, Copy, PartialEq, Eq, Structural)]
pub struct DeploymentEvent {
    pub occurred_at: i64,
    pub kind: DeploymentEventKind,
}

/// The latest time an event of the given kind happened, if any.
pub open spec fn spec_latest_event_time(events: Seq<DeploymentEvent>, kind: DeploymentEventKind) -> Option<i64>
    decreases events.len(),
{
    if events.len() == 0 {
        None
    } else {
        let rest = spec_latest_event_time(events.drop_last(), kind);
        if events.last().kind == kind {
            match rest {
                Option::Some(t) => if events.last().occurred_at >= t {
                    Some(events.last().occurred_at)
                } else {
                    Some(t)
                },
                Option::None => Some(events.last().occurred_at),
            }
        } else {
            rest
        }
    }
}

/// The time of the latest event of the given kind.
pub fn latest_event_time(events: &Vec<DeploymentEvent>, kind: DeploymentEventKind) -> (r: Option<i64>)
    ensures
        r == spec_latest_event_time(events@, kind),
{
    let mut best: Option<i64> = None;
    let mut i: usize = 0;
    while i < events.len()
        invariant
            0 <= i <= events@.len(),
            best == spec_latest_event_time(events@.subrange(0, i as int), kind),
        decreases events@.len() - i,
    {
        if events[i].kind == kind {
            best = match best {
                Some(t) => {
                    if events[i].occurred_at >= t {
                        Some(events[i].occurred_at)
                    } else {
                        Some(t)
                    }
                },
                None => Some(events[i].occurred_at),
            };
        }
        i = i + 1;
        proof {
            assert(events@.subrange(0, i as int).drop_last() =~= events@.subrange(0, i - 1 as int));
        }
    }
    proof {
        assert(events@.subrange(0, events@.len() as int) =~= events@);
    }
    best
}

/// Derives one problem's redeploy status from a score-server deployment:
/// redeploying while the latest event is a creation, started at the
/// latest creation event, completed at the latest finish event.
pub fn status_from_deployment(
    team_code: String,
    problem_code: String,
    latest_event: DeploymentEventKind,
    events: &Vec<DeploymentEvent>,
) -> (r: RedeployStatus)
    ensures
        r.team_id == team_code,
        r.problem_code == problem_code,
        r.is_redeploying == (latest_event is Creating),
        r.last_redeploy_started_at == spec_latest_event_time(events@, DeploymentEventKind::Creating),
        r.last_redeploy_completed_at == spec_latest_event_time(events@, DeploymentEventKind::Finished),
{
    RedeployStatus {
        team_id: team_code,
        problem_code,
        is_redeploying: latest_event == DeploymentEventKind::Creating,
        last_redeploy_started_at: latest_event_time(events, DeploymentEventKind::Creating),
        last_redeploy_completed_at: latest_event_time(events, DeploymentEventKind::Finished),
    }
}

/// A redeploy service that accepts everything and reports a fixed status
/// list; used when no real backend is configured.
pub struct FakeRedeployService;

impl FakeRedeployService {
    /// Accepts any target and answers with the zero job id.
    pub fn redeploy(&self, target: &RedeployTarget) -> (r: Result<RedeployJob, RedeployError>)
        ensures
            r matches Ok(job) && job.id@ == "00000000-0000-0000-0000-000000000000"@
                && job.team_id@ == target.team_id@ && job.problem_code@ == target.problem_id@,
    {
        Ok(RedeployJob {
            id: "00000000-0000-0000-0000-000000000000".to_owned(),
            team_id: target.team_id.clone(),
            problem_code: target.problem_id.clone(),
        })
    }

    /// A fixed three-problem status list: one untouched, one redeploying
    /// since `now`, one completed at `now`.  The caller supplies the
    /// current time, which only decorates the fixed shape.
    pub fn get_status(&self, team_id: &str, now: i64) -> (r: Result<Vec<RedeployStatus>, RedeployError>)
        ensures
            r matches Ok(v) && {
                &&& v@.len() == 3
                &&& v@[0].team_id@ == team_id@ && v@[0].problem_code@ == "ABC"@
                    && !v@[0].is_redeploying && v@[0].last_redeploy_started_at is None
                    && v@[0].last_redeploy_completed_at is None
                &&& v@[1].team_id@ == team_id@ && v@[1].problem_code@ == "DEF"@
                    && v@[1].is_redeploying && v@[1].last_redeploy_started_at == Some(now)
                    && v@[1].last_redeploy_completed_at is None
                &&& v@[2].team_id@ == team_id@ && v@[2].problem_code@ == "GHI"@
                    && !v@[2].is_redeploying && v@[2].last_redeploy_started_at == Some(now)
                    && v@[2].last_redeploy_completed_at == Some(now)
            },
    {
        let mut statuses: Vec<RedeployStatus> = Vec::new();
        statuses.push(RedeployStatus {
            team_id: team_id.to_owned(),
            problem_code: "ABC".to_owned(),
            is_redeploying: false,
            last_redeploy_started_at: None,
            last_redeploy_completed_at: None,
        });
        statuses.push(RedeployStatus {
            team_id: team_id.to_owned(),
            problem_code: "DEF".to_owned(),
            is_redeploying: true,
            last_redeploy_started_at: Some(now),
            last_redeploy_completed_at: None,
        });
        statuses.push(RedeployStatus {
            team_id: team_id.to_owned(),
            problem_code: "GHI".to_owned(),
            is_redeploying: false,
            last_redeploy_started_at: Some(now),
            last_redeploy_completed_at: Some(now),
        });
        Ok(statuses)
    }
}

} // verus!
