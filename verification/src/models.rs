//! Event configuration entities: teams, problems, contestants.

use vstd::prelude::*;
use vstd::string::StrSliceExecFns;

verus! {

/// One participating team, as declared in the event configuration.
///
/// `id` doubles as the team's category/channel name prefix on the remote
/// platform, so it is restricted to lowercase ASCII letters and digits.
#[derive(Debug, PartialEq, Eq)]
pub struct Team {
    pub id: String,
    pub role_name: String,
    pub invitation_code: String,
}

impl Clone for Team {
    fn clone(&self) -> (r: Self)
        ensures
            r == *self,
    {
        Team {
            id: self.id.clone(),
            role_name: self.role_name.clone(),
            invitation_code: self.invitation_code.clone(),
        }
    }
}

/// One competition problem.
#[derive(Debug, PartialEq, Eq)]
pub struct Problem {
    pub code: String,
    pub name: String,
}

impl Clone for Problem {
    fn clone(&self) -> (r: Self)
        ensures
            r == *self,
    {
        Problem { code: self.code.clone(), name: self.name.clone() }
    }
}

/// One registered contestant, as known to the score server.
#[derive(Debug, PartialEq, Eq)]
pub struct Contestant {
    pub name: String,
    pub display_name: String,
    pub team_id: String,
    pub discord_id: String,
}

impl Clone for Contestant {
    fn clone(&self) -> (r: Self)
        ensures
            r == *self,
    {
        Contestant {
            name: self.name.clone(),
            display_name: self.display_name.clone(),
            team_id: self.team_id.clone(),
            discord_id: self.discord_id.clone(),
        }
    }
}

/// Copies a team list.
pub fn clone_teams(v: &Vec<Team>) -> (out: Vec<Team>)
    ensures
        out@ == v@,
{
    let mut out: Vec<Team> = Vec::new();
    let mut i: usize = 0;
    while i < v.len()
        invariant
            0 <= i <= v@.len(),
            out@ == v@.subrange(0, i as int),
        decreases v@.len() - i,
    {
        out.push(v[i].clone());
        i = i + 1;
        proof {
            assert(out@ =~= v@.subrange(0, i as int));
        }
    }
    proof {
        assert(v@.subrange(0, v@.len() as int) =~= v@);
    }
    out
}

/// Copies a problem list.
pub fn clone_problems(v: &Vec<Problem>) -> (out: Vec<Problem>)
    ensures
        out@ == v@,
{
    let mut out: Vec<Problem> = Vec::new();
    let mut i: usize = 0;
    while i < v.len()
        invariant
            0 <= i <= v@.len(),
            out@ == v@.subrange(0, i as int),
        decreases v@.len() - i,
    {
        out.push(v[i].clone());
        i = i + 1;
        proof {
            assert(out@ =~= v@.subrange(0, i as int));
        }
    }
    proof {
        assert(v@.subrange(0, v@.len() as int) =~= v@);
    }
    out
}

/// A character the remote platform is trusted to accept in a team id:
/// lowercase ASCII letters and digits.
pub open spec fn spec_valid_team_id_char(c: char) -> bool {
    ('a' <= c && c <= 'z') || ('0' <= c && c <= '9')
}

/// A team id usable as a channel-name prefix: every character lowercase
/// alphanumeric.
pub open spec fn spec_valid_team_id(id: Seq<char>) -> bool {
    forall|i: int| 0 <= i < id.len() ==> spec_valid_team_id_char(#[trigger] id[i])
}

/// Checks that a team id consists of lowercase alphanumeric characters
/// only; the remote platform accepts a wider range, but this keeps the
/// derived channel names predictable.
pub fn validate_team_id(id: &String) -> (r: bool)
    ensures
        r == spec_valid_team_id(id@),
{
    let len = id.as_str().unicode_len();
    let mut i: usize = 0;
    while i < len
        invariant
            0 <= i <= len,
            len == id@.len(),
            forall|j: int| 0 <= j < i ==> spec_valid_team_id_char(#[trigger] id@[j]),
        decreases len - i,
    {
        let c = id.as_str().get_char(i);
        if !(('a' <= c && c <= 'z') || ('0' <= c && c <= '9')) {
            return false;
        }
        i = i + 1;
    }
    true
}

} // verus!
