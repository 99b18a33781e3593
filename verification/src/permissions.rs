//! Capability sets and per-channel permission overwrites.
//!
//! A capability set is a plain `u64` bitset whose bit layout is the remote
//! platform's own, so values convert to and from the platform client
//! without translation.

use vstd::prelude::*;

use crate::error::{Error, SystemError};
use crate::models::Team;
use crate::roles::{spec_first_role_named, spec_roles_named, first_role_named, roles_named,
    spec_everyone_role_name, spec_staff_role_name, everyone_role_name, staff_role_name,
    RemoteRole};

verus! {

pub const CHANGE_NICKNAME: u64 = 1u64 << 26;
pub const ADMINISTRATOR: u64 = 1u64 << 3;
pub const ADD_REACTIONS: u64 = 1u64 << 6;
pub const STREAM: u64 = 1u64 << 9;
pub const VIEW_CHANNEL: u64 = 1u64 << 10;
pub const SEND_MESSAGES: u64 = 1u64 << 11;
pub const EMBED_LINKS: u64 = 1u64 << 14;
pub const ATTACH_FILES: u64 = 1u64 << 15;
pub const READ_MESSAGE_HISTORY: u64 = 1u64 << 16;
pub const USE_EXTERNAL_EMOJIS: u64 = 1u64 << 18;
pub const CONNECT: u64 = 1u64 << 20;
pub const SPEAK: u64 = 1u64 << 21;
pub const MUTE_MEMBERS: u64 = 1u64 << 22;
pub const DEAFEN_MEMBERS: u64 = 1u64 << 23;
pub const USE_VAD: u64 = 1u64 << 25;
pub const USE_APPLICATION_COMMANDS: u64 = 1u64 << 31;
pub const USE_EXTERNAL_STICKERS: u64 = 1u64 << 37;
pub const SEND_MESSAGES_IN_THREADS: u64 = 1u64 << 38;

/// Every capability the remote platform defines (bits 0 through 46 and 48
/// through 50; bit 47 is unassigned).
pub const ALL_CAPABILITIES: u64 = 0x0007_7FFF_FFFF_FFFF;

/// Capabilities safe for every user: changing one's own nickname only.
pub open spec fn spec_permissions_for_everyone() -> u64 {
    CHANGE_NICKNAME
}

pub fn get_permissions_for_everyone() -> (r: u64)
    ensures
        r == spec_permissions_for_everyone(),
{
    CHANGE_NICKNAME
}

/// Capabilities for staff: everything except the administrator capability,
/// which would bypass every channel overwrite.
pub open spec fn spec_permissions_for_staff() -> u64 {
    ALL_CAPABILITIES & !ADMINISTRATOR
}

pub fn get_permissions_for_staff() -> (r: u64)
    ensures
        r == spec_permissions_for_staff(),
{
    ALL_CAPABILITIES & !ADMINISTRATOR
}

/// Team members get nothing at the role level; their capabilities are
/// granted per channel instead.
pub open spec fn spec_permissions_for_team() -> u64 {
    0
}

pub fn get_permissions_for_team() -> (r: u64)
    ensures
        r == spec_permissions_for_team(),
{
    0
}

/// Capabilities granted on a read-only public channel.
pub open spec fn spec_permissions_for_readonly_channel_member() -> u64 {
    VIEW_CHANNEL | READ_MESSAGE_HISTORY | ADD_REACTIONS
}

pub fn get_permissions_for_readonly_channel_member() -> (r: u64)
    ensures
        r == spec_permissions_for_readonly_channel_member(),
{
    VIEW_CHANNEL | READ_MESSAGE_HISTORY | ADD_REACTIONS
}

/// Capabilities granted on a read-write public channel.
pub open spec fn spec_permissions_for_channel_member() -> u64 {
    spec_permissions_for_readonly_channel_member() | SEND_MESSAGES | EMBED_LINKS
        | USE_EXTERNAL_EMOJIS | USE_EXTERNAL_STICKERS | ADD_REACTIONS
}

pub fn get_permissions_for_channel_member() -> (r: u64)
    ensures
        r == spec_permissions_for_channel_member(),
{
    get_permissions_for_readonly_channel_member() | SEND_MESSAGES | EMBED_LINKS
        | USE_EXTERNAL_EMOJIS | USE_EXTERNAL_STICKERS | ADD_REACTIONS
}

/// Capabilities granted to a team inside its own private channels,
/// including the voice-specific ones.
pub open spec fn spec_permissions_for_team_channel_member() -> u64 {
    spec_permissions_for_channel_member() | STREAM | ATTACH_FILES | CONNECT | SPEAK
        | MUTE_MEMBERS | DEAFEN_MEMBERS | USE_VAD | USE_APPLICATION_COMMANDS
        | SEND_MESSAGES_IN_THREADS
}

pub fn get_permissions_for_team_channel_member() -> (r: u64)
    ensures
        r == spec_permissions_for_team_channel_member(),
{
    get_permissions_for_channel_member() | STREAM | ATTACH_FILES | CONNECT | SPEAK
        | MUTE_MEMBERS | DEAFEN_MEMBERS | USE_VAD | USE_APPLICATION_COMMANDS
        | SEND_MESSAGES_IN_THREADS
}

/// Capabilities denied to staff inside a team's private channels, so staff
/// cannot accidentally post or join voice there while still seeing it.
pub open spec fn spec_deny_permissions_for_staff_in_team_channel() -> u64 {
    SEND_MESSAGES | CONNECT
}

pub fn get_deny_permissions_for_staff_in_team_channel() -> (r: u64)
    ensures
        r == spec_deny_permissions_for_staff_in_team_channel(),
{
    SEND_MESSAGES | CONNECT
}

/// A per-channel, per-role capability override: `allow` and `deny` are
/// capability sets, `role_id` names the subject role.
#[derive(Debug, Clone, Copy, PartialEq, Eq, Hash, Structural)]
pub struct PermissionOverwrite {
    pub allow: u64,
    pub deny: u64,
    pub role_id: u64,
}

/// Every overwrite in `a` also occurs in `b`.
pub open spec fn spec_overwrites_covered(a: Seq<PermissionOverwrite>, b: Seq<PermissionOverwrite>) -> bool {
    forall|i: int| 0 <= i < a.len() ==> b.contains(#[trigger] a[i])
}

/// Overwrite lists are compared as sets: each a subset of the other, since
/// the remote platform returns them in no particular order.
pub open spec fn spec_overwrite_sets_equal(a: Seq<PermissionOverwrite>, b: Seq<PermissionOverwrite>) -> bool {
    spec_overwrites_covered(a, b) && spec_overwrites_covered(b, a)
}

/// Whether `o` occurs in `v`.
pub fn overwrites_contain(v: &Vec<PermissionOverwrite>, o: PermissionOverwrite) -> (r: bool)
    ensures
        r == v@.contains(o),
{
    let mut i: usize = 0;
    while i < v.len()
        invariant
            0 <= i <= v@.len(),
            forall|j: int| 0 <= j < i ==> v@[j] != o,
        decreases v@.len() - i,
    {
        if v[i] == o {
            return true;
        }
        i = i + 1;
    }
    false
}

/// Order- and duplicate-insensitive equality of two overwrite lists.
pub fn check_overwrite_sets_equal(a: &Vec<PermissionOverwrite>, b: &Vec<PermissionOverwrite>) -> (r: bool)
    ensures
        r == spec_overwrite_sets_equal(a@, b@),
{
    let mut i: usize = 0;
    while i < a.len()
        invariant
            0 <= i <= a@.len(),
            forall|j: int| 0 <= j < i ==> b@.contains(#[trigger] a@[j]),
        decreases a@.len() - i,
    {
        if !overwrites_contain(b, a[i]) {
            return false;
        }
        i = i + 1;
    }
    let mut k: usize = 0;
    while k < b.len()
        invariant
            0 <= k <= b@.len(),
            spec_overwrites_covered(a@, b@),
            forall|j: int| 0 <= j < k ==> a@.contains(#[trigger] b@[j]),
        decreases b@.len() - k,
    {
        if !overwrites_contain(a, b[k]) {
            return false;
        }
        k = k + 1;
    }
    true
}

/// One read-only or read-write overwrite per team role, in team order;
/// the first team whose role is missing from the cached role list is the
/// error.
pub open spec fn spec_role_overwrites_for_teams(rs: Seq<RemoteRole>, teams: Seq<Team>, allow: u64) -> Result<Seq<PermissionOverwrite>, Seq<char>>
    decreases teams.len(),
{
    if teams.len() == 0 {
        Ok(Seq::empty())
    } else {
        match spec_first_role_named(rs, teams.first().role_name@) {
            Option::None => Err(teams.first().role_name@),
            Option::Some(role) => match spec_role_overwrites_for_teams(rs, teams.drop_first(), allow) {
                Ok(rest) => Ok(
                    seq![PermissionOverwrite { allow, deny: 0, role_id: role.id }] + rest,
                ),
                Err(n) => Err(n),
            },
        }
    }
}

/// Builds one overwrite per team, each granting `allow` to that team's
/// role; fails with the first team whose role does not exist.
fn role_overwrites_for_teams(roles: &Vec<RemoteRole>, teams: &Vec<Team>, allow: u64) -> (r: Result<Vec<PermissionOverwrite>, Error>)
    ensures
        match (r, spec_role_overwrites_for_teams(roles@, teams@, allow)) {
            (Ok(v), Ok(ovs)) => v@ == ovs,
            (Err(e), Err(n)) => e matches Error::SystemError(SystemError::NoSuchRole(m)) && m@ == n,
            _ => false,
        },
{
    let ghost rs = roles@;
    let ghost ts = teams@;
    let mut out: Vec<PermissionOverwrite> = Vec::new();
    let mut i: usize = 0;
    proof {
        assert(ts.skip(0) =~= ts);
    }
    while i < teams.len()
        invariant
            0 <= i <= ts.len(),
            rs == roles@,
            ts == teams@,
            spec_role_overwrites_for_teams(rs, ts, allow) == match spec_role_overwrites_for_teams(
                rs,
                ts.skip(i as int),
                allow,
            ) {
                Ok(rest) => Ok::<Seq<PermissionOverwrite>, Seq<char>>(out@ + rest),
                Err(n) => Err(n),
            },
        decreases ts.len() - i,
    {
        proof {
            assert(ts.skip(i as int).first() == ts[i as int]);
            assert(ts.skip(i as int).drop_first() =~= ts.skip(i as int + 1));
        }
        match first_role_named(roles, &teams[i].role_name) {
            Some(role) => {
                let ghost prev = out@;
                out.push(PermissionOverwrite { allow, deny: 0, role_id: role.id });
                proof {
                    let cur = spec_role_overwrites_for_teams(rs, ts.skip(i as int), allow);
                    let next = spec_role_overwrites_for_teams(rs, ts.skip(i as int + 1), allow);
                    let po = PermissionOverwrite { allow, deny: 0, role_id: role.id };
                    assert(spec_first_role_named(rs, ts.skip(i as int).first().role_name@)
                        == Some(role));
                    if next is Ok {
                        assert(cur == Ok::<Seq<PermissionOverwrite>, Seq<char>>(
                            seq![po] + next->Ok_0,
                        ));
                        assert(out@ + next->Ok_0 =~= prev + (seq![po] + next->Ok_0));
                    } else {
                        assert(cur == next);
                    }
                }
            },
            None => {
                return Err(Error::SystemError(SystemError::NoSuchRole(teams[i].role_name.clone())));
            },
        }
        i = i + 1;
    }
    proof {
        assert(ts.skip(ts.len() as int) =~= Seq::<Team>::empty());
        assert(out@ + Seq::<PermissionOverwrite>::empty() =~= out@);
    }
    Ok(out)
}

/// The overwrites of the read-only help channel: everybody may read, so
/// the one overwrite grants the read-only capabilities to the implicit
/// default role.  Relies on the role cache holding that role.
pub fn get_permission_overwrites_for_help_channel(roles: &Vec<RemoteRole>) -> (r: Result<Vec<PermissionOverwrite>, Error>)
    ensures
        match (r, spec_first_role_named(roles@, spec_everyone_role_name())) {
            (Ok(v), Some(role)) => v@ == seq![
                PermissionOverwrite {
                    allow: spec_permissions_for_readonly_channel_member(),
                    deny: 0,
                    role_id: role.id,
                },
            ],
            (Err(e), None) => e matches Error::SystemError(SystemError::NoSuchRole(m))
                && m@ == spec_everyone_role_name(),
            _ => false,
        },
{
    let everyone: String = everyone_role_name().to_owned();
    match first_role_named(roles, &everyone) {
        Some(role) => {
            let mut out: Vec<PermissionOverwrite> = Vec::new();
            out.push(PermissionOverwrite {
                allow: get_permissions_for_readonly_channel_member(),
                deny: 0,
                role_id: role.id,
            });
            Ok(out)
        },
        None => Err(Error::SystemError(SystemError::NoSuchRole(everyone))),
    }
}

/// The overwrites of the read-only announce channel: each team's role may
/// read; fails with the first team whose role is missing.
pub fn get_permission_overwrites_for_announce_channel(roles: &Vec<RemoteRole>, teams: &Vec<Team>) -> (r: Result<Vec<PermissionOverwrite>, Error>)
    ensures
        match (r, spec_role_overwrites_for_teams(roles@, teams@, spec_permissions_for_readonly_channel_member())) {
            (Ok(v), Ok(ovs)) => v@ == ovs,
            (Err(e), Err(n)) => e matches Error::SystemError(SystemError::NoSuchRole(m)) && m@ == n,
            _ => false,
        },
{
    role_overwrites_for_teams(roles, teams, get_permissions_for_readonly_channel_member())
}

/// The overwrites of the read-write random channel: each team's role may
/// post; fails with the first team whose role is missing.
pub fn get_permission_overwrites_for_random_channel(roles: &Vec<RemoteRole>, teams: &Vec<Team>) -> (r: Result<Vec<PermissionOverwrite>, Error>)
    ensures
        match (r, spec_role_overwrites_for_teams(roles@, teams@, spec_permissions_for_channel_member())) {
            (Ok(v), Ok(ovs)) => v@ == ovs,
            (Err(e), Err(n)) => e matches Error::SystemError(SystemError::NoSuchRole(m)) && m@ == n,
            _ => false,
        },
{
    role_overwrites_for_teams(roles, teams, get_permissions_for_channel_member())
}

/// The overwrites a team's private channel carries: a deny overwrite for
/// every staff-named role (staff can look but not post or join voice),
/// then a full-capability allow overwrite for every role named after the
/// team.
pub open spec fn spec_team_channel_overwrites(rs: Seq<RemoteRole>, team: Team) -> Seq<PermissionOverwrite> {
    spec_roles_named(rs, spec_staff_role_name()).map_values(
        |r: RemoteRole| PermissionOverwrite {
            allow: 0,
            deny: spec_deny_permissions_for_staff_in_team_channel(),
            role_id: r.id,
        },
    ) + spec_roles_named(rs, team.role_name@).map_values(
        |r: RemoteRole| PermissionOverwrite {
            allow: spec_permissions_for_team_channel_member(),
            deny: 0,
            role_id: r.id,
        },
    )
}

/// Builds a team channel's overwrite list from the cached roles.  Missing
/// roles simply contribute nothing: the list may be empty.
pub fn get_permission_overwrites_for_team_channel(roles: &Vec<RemoteRole>, team: &Team) -> (r: Vec<PermissionOverwrite>)
    ensures
        r@ == spec_team_channel_overwrites(roles@, *team),
{
    let staff_name: String = staff_role_name().to_owned();
    let staff_roles = roles_named(roles, &staff_name);
    let team_roles = roles_named(roles, &team.role_name);
    let ghost staff_part = spec_roles_named(roles@, spec_staff_role_name()).map_values(
        |r: RemoteRole| PermissionOverwrite {
            allow: 0,
            deny: spec_deny_permissions_for_staff_in_team_channel(),
            role_id: r.id,
        },
    );
    let ghost team_part = spec_roles_named(roles@, team.role_name@).map_values(
        |r: RemoteRole| PermissionOverwrite {
            allow: spec_permissions_for_team_channel_member(),
            deny: 0,
            role_id: r.id,
        },
    );
    let mut out: Vec<PermissionOverwrite> = Vec::new();
    let mut i: usize = 0;
    while i < staff_roles.len()
        invariant
            0 <= i <= staff_roles@.len(),
            staff_roles@ == spec_roles_named(roles@, spec_staff_role_name()),
            out@ == staff_part.subrange(0, i as int),
            staff_part == spec_roles_named(roles@, spec_staff_role_name()).map_values(
                |r: RemoteRole| PermissionOverwrite {
                    allow: 0,
                    deny: spec_deny_permissions_for_staff_in_team_channel(),
                    role_id: r.id,
                },
            ),
        decreases staff_roles@.len() - i,
    {
        out.push(PermissionOverwrite {
            allow: 0,
            deny: get_deny_permissions_for_staff_in_team_channel(),
            role_id: staff_roles[i].id,
        });
        i = i + 1;
        proof {
            assert(out@ =~= staff_part.subrange(0, i as int));
        }
    }
    proof {
        assert(staff_part.subrange(0, staff_roles@.len() as int) =~= staff_part);
    }
    let mut j: usize = 0;
    while j < team_roles.len()
        invariant
            0 <= j <= team_roles@.len(),
            team_roles@ == spec_roles_named(roles@, team.role_name@),
            out@ == staff_part + team_part.subrange(0, j as int),
            staff_part == spec_roles_named(roles@, spec_staff_role_name()).map_values(
                |r: RemoteRole| PermissionOverwrite {
                    allow: 0,
                    deny: spec_deny_permissions_for_staff_in_team_channel(),
                    role_id: r.id,
                },
            ),
            team_part == spec_roles_named(roles@, team.role_name@).map_values(
                |r: RemoteRole| PermissionOverwrite {
                    allow: spec_permissions_for_team_channel_member(),
                    deny: 0,
                    role_id: r.id,
                },
            ),
        decreases team_roles@.len() - j,
    {
        out.push(PermissionOverwrite {
            allow: get_permissions_for_team_channel_member(),
            deny: 0,
            role_id: team_roles[j].id,
        });
        j = j + 1;
        proof {
            assert(out@ =~= staff_part + team_part.subrange(0, j as int));
        }
    }
    proof {
        assert(team_part.subrange(0, team_roles@.len() as int) =~= team_part);
        assert(staff_part + team_part =~= spec_team_channel_overwrites(roles@, *team));
    }
    out
}

/// A permutation of an overwrite list is treated as the same overwrite
/// set: reordering what the remote platform returns never makes a channel
/// look out of sync.
pub proof fn lemma_overwrite_sets_equal_permutation(a: Seq<PermissionOverwrite>, b: Seq<PermissionOverwrite>)
    requires
        a.to_multiset() == b.to_multiset(),
    ensures
        spec_overwrite_sets_equal(a, b),
{
    broadcast use vstd::seq_lib::group_to_multiset_ensures;

    assert forall|i: int| 0 <= i < a.len() implies b.contains(#[trigger] a[i]) by {
        assert(a.contains(a[i]));
        assert(a.to_multiset().count(a[i]) > 0);
    }
    assert forall|i: int| 0 <= i < b.len() implies a.contains(#[trigger] b[i]) by {
        assert(b.contains(b[i]));
        assert(b.to_multiset().count(b[i]) > 0);
    }
}

} // verus!
