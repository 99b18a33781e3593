//! Team lookup: the list of participating teams and lookup by team id.

use vstd::prelude::*;

use crate::models::{clone_teams, Team};

verus! {

/// Failures of a team lookup; an unexpected one carries its message.
#[derive(Debug, PartialEq, Eq)]
pub enum TeamError {
    NotFound,
    Unexpected(String),
}

/// A source of the team list.  Implementations back it with static
/// configuration or with the score server.
pub trait TeamService {
    fn get_teams(&self) -> Result<Vec<Team>, TeamError>;

    fn get_team(&self, team_id: &str) -> Result<Team, TeamError>;
}

/// The first team with the given id, if any.
pub open spec fn spec_first_team_with_id(teams: Seq<Team>, team_id: Seq<char>) -> Option<Team>
    decreases teams.len(),
{
    if teams.len() == 0 {
        None
    } else if teams.first().id@ == team_id {
        Some(teams.first())
    } else {
        spec_first_team_with_id(teams.drop_first(), team_id)
    }
}

/// Selects the team with the given id; a missing team is `NotFound`.
pub fn find_team(teams: &Vec<Team>, team_id: &str) -> (r: Result<Team, TeamError>)
    ensures
        match (r, spec_first_team_with_id(teams@, team_id@)) {
            (Ok(t), Some(u)) => t == u,
            (Err(e), None) => e == TeamError::NotFound,
            _ => false,
        },
{
    let wanted: String = team_id.to_owned();
    let mut i: usize = 0;
    proof {
        assert(teams@.skip(0) =~= teams@);
    }
    while i < teams.len()
        invariant
            0 <= i <= teams@.len(),
            wanted@ == team_id@,
            spec_first_team_with_id(teams@, team_id@) == spec_first_team_with_id(
                teams@.skip(i as int),
                team_id@,
            ),
        decreases teams@.len() - i,
    {
        proof {
            assert(teams@.skip(i as int).first() == teams@[i as int]);
            assert(teams@.skip(i as int).drop_first() =~= teams@.skip(i as int + 1));
        }
        if teams[i].id == wanted {
            return Ok(teams[i].clone());
        }
        i = i + 1;
    }
    proof {
        assert(teams@.skip(teams@.len() as int) =~= Seq::<Team>::empty());
    }
    Err(TeamError::NotFound)
}

/// A team service backed by the static team list of the configuration.
pub struct StaticTeamService {
    teams: Vec<Team>,
}

impl StaticTeamService {
    /// The list the service will serve.
    pub closed spec fn teams(&self) -> Seq<Team> {
        self.teams@
    }

    pub fn new(teams: Vec<Team>) -> (r: Self)
        ensures
            r.teams() == teams@,
    {
        StaticTeamService { teams }
    }
}

impl TeamService for StaticTeamService {
    fn get_teams(&self) -> Result<Vec<Team>, TeamError> {
        Ok(clone_teams(&self.teams))
    }

    fn get_team(&self, team_id: &str) -> Result<Team, TeamError> {
        find_team(&self.teams, team_id)
    }
}

} // verus!
