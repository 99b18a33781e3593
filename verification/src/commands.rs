//! The decision logic behind the slash commands: which role an invitation
//! code grants, which role ids to grant and revoke, input validation, and
//! problem-code resolution.  The surrounding process performs the remote
//! calls and hands the results back in.

use vstd::prelude::*;
use vstd::string::StrSliceExecFns;

use crate::error::UserError;
use crate::models::{Problem, Team};
use crate::services::problem::spec_first_problem_coded;
use crate::roles::{spec_first_role_with_id, spec_staff_role_name, staff_role_name, RemoteRole};

verus! {

/// The role name a team's invitation code grants, if any: the first team
/// with that code wins.
pub open spec fn spec_team_role_for_code(teams: Seq<Team>, code: Seq<char>) -> Option<Seq<char>>
    decreases teams.len(),
{
    if teams.len() == 0 {
        None
    } else if teams.first().invitation_code@ == code {
        Some(teams.first().role_name@)
    } else {
        spec_team_role_for_code(teams.drop_first(), code)
    }
}

/// The role name an invitation code grants: the staff role for the infra
/// password, else the role of the first team with that code.
pub open spec fn spec_role_name_for_invitation_code(
    infra_password: Seq<char>,
    teams: Seq<Team>,
    code: Seq<char>,
) -> Option<Seq<char>> {
    if code == infra_password {
        Some(spec_staff_role_name())
    } else {
        spec_team_role_for_code(teams, code)
    }
}

/// Resolves an invitation code to the role it grants, or nothing for an
/// unknown code.
pub fn find_role_name_by_invitation_code(
    infra_password: &String,
    teams: &Vec<Team>,
    invitation_code: &String,
) -> (r: Option<String>)
    ensures
        match spec_role_name_for_invitation_code(infra_password@, teams@, invitation_code@) {
            Some(n) => r matches Some(s) && s@ == n,
            None => r is None,
        },
{
    if *invitation_code == *infra_password {
        return Some(staff_role_name().to_owned());
    }
    let mut i: usize = 0;
    proof {
        assert(teams@.skip(0) =~= teams@);
    }
    while i < teams.len()
        invariant
            0 <= i <= teams@.len(),
            invitation_code@ != infra_password@,
            spec_team_role_for_code(teams@, invitation_code@) == spec_team_role_for_code(
                teams@.skip(i as int),
                invitation_code@,
            ),
        decreases teams@.len() - i,
    {
        proof {
            assert(teams@.skip(i as int).first() == teams@[i as int]);
            assert(teams@.skip(i as int).drop_first() =~= teams@.skip(i as int + 1));
        }
        if teams[i].invitation_code == *invitation_code {
            return Some(teams[i].role_name.clone());
        }
        i = i + 1;
    }
    proof {
        assert(teams@.skip(teams@.len() as int) =~= Seq::<Team>::empty());
    }
    None
}

/// The role name granted to a contestant of the given team, if the team
/// exists: the first team with that id wins.
pub open spec fn spec_team_role_for_team_id(teams: Seq<Team>, team_id: Seq<char>) -> Option<Seq<char>>
    decreases teams.len(),
{
    if teams.len() == 0 {
        None
    } else if teams.first().id@ == team_id {
        Some(teams.first().role_name@)
    } else {
        spec_team_role_for_team_id(teams.drop_first(), team_id)
    }
}

/// Resolves a team id (as the score server reports it) to the team's role
/// name.
pub fn find_team_role_by_team_id(teams: &Vec<Team>, team_id: &String) -> (r: Option<String>)
    ensures
        match spec_team_role_for_team_id(teams@, team_id@) {
            Some(n) => r matches Some(s) && s@ == n,
            None => r is None,
        },
{
    let mut i: usize = 0;
    proof {
        assert(teams@.skip(0) =~= teams@);
    }
    while i < teams.len()
        invariant
            0 <= i <= teams@.len(),
            spec_team_role_for_team_id(teams@, team_id@) == spec_team_role_for_team_id(
                teams@.skip(i as int),
                team_id@,
            ),
        decreases teams@.len() - i,
    {
        proof {
            assert(teams@.skip(i as int).first() == teams@[i as int]);
            assert(teams@.skip(i as int).drop_first() =~= teams@.skip(i as int + 1));
        }
        if teams[i].id == *team_id {
            return Some(teams[i].role_name.clone());
        }
        i = i + 1;
    }
    proof {
        assert(teams@.skip(teams@.len() as int) =~= Seq::<Team>::empty());
    }
    None
}

/// The ids of `a` that do not occur in `b`, in order.
pub open spec fn spec_ids_minus(a: Seq<u64>, b: Seq<u64>) -> Seq<u64>
    decreases a.len(),
{
    if a.len() == 0 {
        Seq::empty()
    } else {
        let rest = spec_ids_minus(a.drop_last(), b);
        if b.contains(a.last()) {
            rest
        } else {
            rest.push(a.last())
        }
    }
}

fn ids_contain(v: &Vec<u64>, x: u64) -> (r: bool)
    ensures
        r == v@.contains(x),
{
    let mut i: usize = 0;
    while i < v.len()
        invariant
            0 <= i <= v@.len(),
            forall|j: int| 0 <= j < i ==> v@[j] != x,
        decreases v@.len() - i,
    {
        if v[i] == x {
            return true;
        }
        i = i + 1;
    }
    false
}

fn ids_minus(a: &Vec<u64>, b: &Vec<u64>) -> (out: Vec<u64>)
    ensures
        out@ == spec_ids_minus(a@, b@),
{
    let mut out: Vec<u64> = Vec::new();
    let mut i: usize = 0;
    while i < a.len()
        invariant
            0 <= i <= a@.len(),
            out@ == spec_ids_minus(a@.subrange(0, i as int), b@),
        decreases a@.len() - i,
    {
        if !ids_contain(b, a[i]) {
            out.push(a[i]);
        }
        i = i + 1;
        proof {
            assert(a@.subrange(0, i as int).drop_last() =~= a@.subrange(0, i - 1 as int));
        }
    }
    proof {
        assert(a@.subrange(0, a@.len() as int) =~= a@);
    }
    out
}

/// The role ids a member must be granted to end up exactly in the target
/// roles: the target ids the member lacks.
pub fn roles_to_grant(target_role_ids: &Vec<u64>, member_role_ids: &Vec<u64>) -> (out: Vec<u64>)
    ensures
        out@ == spec_ids_minus(target_role_ids@, member_role_ids@),
{
    ids_minus(target_role_ids, member_role_ids)
}

/// The role ids a member must lose to end up exactly in the target roles:
/// the member's ids outside the target.
pub fn roles_to_revoke(target_role_ids: &Vec<u64>, member_role_ids: &Vec<u64>) -> (out: Vec<u64>)
    ensures
        out@ == spec_ids_minus(member_role_ids@, target_role_ids@),
{
    ids_minus(member_role_ids, target_role_ids)
}

/// A question title is readable and identifiable only when short; longer
/// titles are rejected.
pub fn validate_ask_title(title: &String) -> (r: bool)
    ensures
        r == (title@.len() <= 50),
{
    title.as_str().unicode_len() <= 50
}

/// What `str::to_uppercase` makes of a string: a function of its
/// characters alone.
pub uninterp spec fn upper_of(s: Seq<char>) -> Seq<char>;

/// Relies on str::to_uppercase: the uppercase form of the string, a
/// function of its characters alone.
#[verifier::external_body]
fn to_uppercase(s: &str) -> (r: String)
    ensures
        r@ == upper_of(s@),
{
    s.to_uppercase()
}

/// Finds the problem with the given code.
pub fn find_problem_by_code(problems: &Vec<Problem>, code: &String) -> (r: Option<Problem>)
    ensures
        r == spec_first_problem_coded(problems@, code@),
{
    let mut i: usize = 0;
    proof {
        assert(problems@.skip(0) =~= problems@);
    }
    while i < problems.len()
        invariant
            0 <= i <= problems@.len(),
            spec_first_problem_coded(problems@, code@) == spec_first_problem_coded(
                problems@.skip(i as int),
                code@,
            ),
        decreases problems@.len() - i,
    {
        proof {
            assert(problems@.skip(i as int).first() == problems@[i as int]);
            assert(problems@.skip(i as int).drop_first() =~= problems@.skip(i as int + 1));
        }
        if problems[i].code == *code {
            return Some(problems[i].clone());
        }
        i = i + 1;
    }
    proof {
        assert(problems@.skip(problems@.len() as int) =~= Seq::<Problem>::empty());
    }
    None
}

/// Resolves the problem a redeploy was requested for.  Problem codes are
/// normalized to uppercase first, for compatibility with the score
/// server; an unknown code is the user's mistake and names the code as
/// typed.
pub fn validate_redeploy_problem_code(problems: &Vec<Problem>, problem_code: &String) -> (r: Result<Problem, UserError>)
    ensures
        match (r, spec_first_problem_coded(problems@, upper_of(problem_code@))) {
            (Ok(p), Some(q)) => p == q,
            (Err(e), None) => e matches UserError::NoSuchProblem(m) && m@ == problem_code@,
            _ => false,
        },
{
    let normalized = to_uppercase(problem_code.as_str());
    match find_problem_by_code(problems, &normalized) {
        Some(p) => Ok(p),
        None => Err(UserError::NoSuchProblem(problem_code.clone())),
    }
}

/// The first team owning one of the member's roles: role ids are walked
/// in the member's order, each resolved against the cached roles, and the
/// first team whose role name matches wins.
pub open spec fn spec_team_for_roles(teams: Seq<Team>, rs: Seq<RemoteRole>, role_ids: Seq<u64>) -> Option<Team>
    decreases role_ids.len(),
{
    if role_ids.len() == 0 {
        None
    } else {
        let found = match spec_first_role_with_id(rs, role_ids.first()) {
            Option::Some(role) => spec_first_team_with_role_name(teams, role.name@),
            Option::None => None,
        };
        if found is Some {
            found
        } else {
            spec_team_for_roles(teams, rs, role_ids.drop_first())
        }
    }
}

/// The first team whose role name equals `name`, if any.
pub open spec fn spec_first_team_with_role_name(teams: Seq<Team>, name: Seq<char>) -> Option<Team>
    decreases teams.len(),
{
    if teams.len() == 0 {
        None
    } else if teams.first().role_name@ == name {
        Some(teams.first())
    } else {
        spec_first_team_with_role_name(teams.drop_first(), name)
    }
}

/// Finds the first team whose role name equals `name`.
pub fn first_team_with_role_name(teams: &Vec<Team>, name: &String) -> (r: Option<Team>)
    ensures
        r == spec_first_team_with_role_name(teams@, name@),
{
    let mut i: usize = 0;
    proof {
        assert(teams@.skip(0) =~= teams@);
    }
    while i < teams.len()
        invariant
            0 <= i <= teams@.len(),
            spec_first_team_with_role_name(teams@, name@) == spec_first_team_with_role_name(
                teams@.skip(i as int),
                name@,
            ),
        decreases teams@.len() - i,
    {
        proof {
            assert(teams@.skip(i as int).first() == teams@[i as int]);
            assert(teams@.skip(i as int).drop_first() =~= teams@.skip(i as int + 1));
        }
        if teams[i].role_name == *name {
            return Some(teams[i].clone());
        }
        i = i + 1;
    }
    proof {
        assert(teams@.skip(teams@.len() as int) =~= Seq::<Team>::empty());
    }
    None
}

/// Resolves which team a member belongs to from the member's role ids and
/// the cached roles; a member in no team is the sender's mistake.
pub fn get_team_for(teams: &Vec<Team>, roles: &Vec<RemoteRole>, member_role_ids: &Vec<u64>) -> (r: Result<Team, UserError>)
    ensures
        match (r, spec_team_for_roles(teams@, roles@, member_role_ids@)) {
            (Ok(t), Some(u)) => t == u,
            (Err(e), None) => e == UserError::UserNotInTeam,
            _ => false,
        },
{
    let ghost ids = member_role_ids@;
    let mut i: usize = 0;
    proof {
        assert(ids.skip(0) =~= ids);
    }
    while i < member_role_ids.len()
        invariant
            0 <= i <= ids.len(),
            ids == member_role_ids@,
            spec_team_for_roles(teams@, roles@, ids) == spec_team_for_roles(
                teams@,
                roles@,
                ids.skip(i as int),
            ),
        decreases ids.len() - i,
    {
        proof {
            assert(ids.skip(i as int).first() == ids[i as int]);
            assert(ids.skip(i as int).drop_first() =~= ids.skip(i as int + 1));
        }
        match crate::roles::first_role_with_id(roles, member_role_ids[i]) {
            Some(role) => {
                match first_team_with_role_name(teams, &role.name) {
                    Some(team) => {
                        return Ok(team);
                    },
                    None => {},
                }
            },
            None => {},
        }
        i = i + 1;
    }
    proof {
        assert(ids.skip(ids.len() as int) =~= Seq::<u64>::empty());
    }
    Err(UserError::UserNotInTeam)
}

} // verus!
