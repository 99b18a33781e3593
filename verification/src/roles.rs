//! The role reconciler: diffs desired role definitions against the
//! observed remote roles and plans the exact create / edit / delete
//! sequence that converges them.
//!
//! Matching is by role name.  A definition with exactly one remote
//! namesake is skipped or edited in place; zero or several namesakes are
//! normalized by deleting them all and creating one fresh role.  A final
//! cleanup pass deletes every remote role whose name is not desired,
//! sparing the platform's implicit default role and roles managed by an
//! external integration.

use vstd::prelude::*;

use crate::models::Team;
use crate::permissions::{
    get_permissions_for_everyone, get_permissions_for_staff, get_permissions_for_team,
    spec_permissions_for_everyone, spec_permissions_for_staff, spec_permissions_for_team,
};

verus! {

/// The implicit default role every guild has; it cannot be deleted.
pub open spec fn spec_everyone_role_name() -> Seq<char> {
    "@everyone"@
}

pub fn everyone_role_name() -> (r: &'static str)
    ensures
        r@ == spec_everyone_role_name(),
{
    "@everyone"
}

/// The staff role's name.
pub open spec fn spec_staff_role_name() -> Seq<char> {
    "ICTSC2023 Staff"@
}

pub fn staff_role_name() -> (r: &'static str)
    ensures
        r@ == spec_staff_role_name(),
{
    "ICTSC2023 Staff"
}

/// The staff role's colour.
pub const STAFF_ROLE_COLOUR: u32 = 14942278;

/// Desired state for one role; `name` is the matching key and must be
/// unique across a desired list.
#[derive(Debug, PartialEq, Eq)]
pub struct RoleDefinition {
    pub name: String,
    pub permissions: u64,
    pub colour: u32,
    pub hoist: bool,
    pub mentionable: bool,
}

impl Clone for RoleDefinition {
    fn clone(&self) -> (r: Self)
        ensures
            r == *self,
    {
        RoleDefinition {
            name: self.name.clone(),
            permissions: self.permissions,
            colour: self.colour,
            hoist: self.hoist,
            mentionable: self.mentionable,
        }
    }
}

impl RoleDefinition {
    /// A definition with the given name and permissions and the default
    /// colour (none), hoist (no) and mentionable (no) settings.
    pub fn new(name: String, permissions: u64) -> (r: Self)
        ensures
            r.name == name,
            r.permissions == permissions,
            r.colour == 0,
            !r.hoist,
            !r.mentionable,
    {
        RoleDefinition { name, permissions, colour: 0, hoist: false, mentionable: false }
    }
}

/// Observed state of one remote role.  `id` is platform-assigned and
/// stable across edits; `managed` roles belong to an integration and
/// cannot be deleted.
#[derive(Debug, PartialEq, Eq)]
pub struct RemoteRole {
    pub id: u64,
    pub name: String,
    pub permissions: u64,
    pub colour: u32,
    pub hoist: bool,
    pub mentionable: bool,
    pub managed: bool,
}

impl Clone for RemoteRole {
    fn clone(&self) -> (r: Self)
        ensures
            r == *self,
    {
        RemoteRole {
            id: self.id,
            name: self.name.clone(),
            permissions: self.permissions,
            colour: self.colour,
            hoist: self.hoist,
            mentionable: self.mentionable,
            managed: self.managed,
        }
    }
}

/// One mutating call against the remote platform.
#[derive(Debug, PartialEq, Eq)]
pub enum RoleAction {
    /// Create a fresh role from the definition.
    Create(RoleDefinition),
    /// Edit the remote role with this id to match the definition.
    Edit(u64, RoleDefinition),
    /// Delete the remote role with this id.
    Delete(u64),
}

impl Clone for RoleAction {
    fn clone(&self) -> (r: Self)
        ensures
            r == *self,
    {
        match self {
            RoleAction::Create(d) => RoleAction::Create(d.clone()),
            RoleAction::Edit(id, d) => RoleAction::Edit(*id, d.clone()),
            RoleAction::Delete(id) => RoleAction::Delete(*id),
        }
    }
}

/// The remote roles named `name`, in their original order.
pub open spec fn spec_roles_named(rs: Seq<RemoteRole>, name: Seq<char>) -> Seq<RemoteRole>
    decreases rs.len(),
{
    if rs.len() == 0 {
        Seq::empty()
    } else {
        let rest = spec_roles_named(rs.drop_last(), name);
        if rs.last().name@ == name {
            rest.push(rs.last())
        } else {
            rest
        }
    }
}

/// Collects the remote roles whose name equals `name`.
pub fn roles_named(remote: &Vec<RemoteRole>, name: &String) -> (out: Vec<RemoteRole>)
    ensures
        out@ == spec_roles_named(remote@, name@),
{
    let mut out: Vec<RemoteRole> = Vec::new();
    let mut i: usize = 0;
    while i < remote.len()
        invariant
            0 <= i <= remote@.len(),
            out@ == spec_roles_named(remote@.subrange(0, i as int), name@),
        decreases remote@.len() - i,
    {
        if remote[i].name == *name {
            out.push(remote[i].clone());
        }
        i = i + 1;
        proof {
            assert(remote@.subrange(0, i as int).drop_last() =~= remote@.subrange(0, i - 1 as int));
        }
    }
    proof {
        assert(remote@.subrange(0, remote@.len() as int) =~= remote@);
    }
    out
}

/// The first remote role named `name`, if any.
pub open spec fn spec_first_role_named(rs: Seq<RemoteRole>, name: Seq<char>) -> Option<RemoteRole>
    decreases rs.len(),
{
    if rs.len() == 0 {
        None
    } else if rs.first().name@ == name {
        Some(rs.first())
    } else {
        spec_first_role_named(rs.drop_first(), name)
    }
}

/// Finds the first remote role with the given name.
pub fn first_role_named(remote: &Vec<RemoteRole>, name: &String) -> (out: Option<RemoteRole>)
    ensures
        out == spec_first_role_named(remote@, name@),
{
    let mut i: usize = 0;
    proof {
        assert(remote@.skip(0) =~= remote@);
    }
    while i < remote.len()
        invariant
            0 <= i <= remote@.len(),
            spec_first_role_named(remote@, name@) == spec_first_role_named(remote@.skip(i as int), name@),
        decreases remote@.len() - i,
    {
        proof {
            assert(remote@.skip(i as int).first() == remote@[i as int]);
            assert(remote@.skip(i as int).drop_first() =~= remote@.skip(i as int + 1));
        }
        if remote[i].name == *name {
            return Some(remote[i].clone());
        }
        i = i + 1;
    }
    proof {
        assert(remote@.skip(remote@.len() as int) =~= Seq::<RemoteRole>::empty());
    }
    None
}

/// The first remote role with the given id, if any.
pub open spec fn spec_first_role_with_id(rs: Seq<RemoteRole>, id: u64) -> Option<RemoteRole>
    decreases rs.len(),
{
    if rs.len() == 0 {
        None
    } else if rs.first().id == id {
        Some(rs.first())
    } else {
        spec_first_role_with_id(rs.drop_first(), id)
    }
}

/// Finds the first remote role with the given id.
pub fn first_role_with_id(remote: &Vec<RemoteRole>, id: u64) -> (out: Option<RemoteRole>)
    ensures
        out == spec_first_role_with_id(remote@, id),
{
    let mut i: usize = 0;
    proof {
        assert(remote@.skip(0) =~= remote@);
    }
    while i < remote.len()
        invariant
            0 <= i <= remote@.len(),
            spec_first_role_with_id(remote@, id) == spec_first_role_with_id(remote@.skip(i as int), id),
        decreases remote@.len() - i,
    {
        proof {
            assert(remote@.skip(i as int).first() == remote@[i as int]);
            assert(remote@.skip(i as int).drop_first() =~= remote@.skip(i as int + 1));
        }
        if remote[i].id == id {
            return Some(remote[i].clone());
        }
        i = i + 1;
    }
    proof {
        assert(remote@.skip(remote@.len() as int) =~= Seq::<RemoteRole>::empty());
    }
    None
}

/// A remote role already matches its definition in every compared field.
pub open spec fn spec_role_synced(r: RemoteRole, d: RoleDefinition) -> bool {
    &&& r.name@ == d.name@
    &&& r.permissions == d.permissions
    &&& r.colour == d.colour
    &&& r.hoist == d.hoist
    &&& r.mentionable == d.mentionable
}

/// Field-by-field comparison of a remote role against a definition.
pub fn check_role_synced(role: &RemoteRole, definition: &RoleDefinition) -> (r: bool)
    ensures
        r == spec_role_synced(*role, *definition),
{
    role.name == definition.name && role.permissions == definition.permissions
        && role.colour == definition.colour && role.hoist == definition.hoist
        && role.mentionable == definition.mentionable
}

/// The actions one definition contributes: skip or edit a unique
/// namesake, otherwise delete every namesake and create afresh.
pub open spec fn spec_role_actions_for(rs: Seq<RemoteRole>, d: RoleDefinition) -> Seq<RoleAction> {
    let m = spec_roles_named(rs, d.name@);
    if m.len() == 1 {
        if spec_role_synced(m[0], d) {
            Seq::empty()
        } else {
            seq![RoleAction::Edit(m[0].id, d)]
        }
    } else {
        Seq::new(m.len(), |k: int| RoleAction::Delete(m[k].id)).push(RoleAction::Create(d))
    }
}

/// The actions of the per-definition pass, in definition-list order, each
/// planned against the same remote snapshot.
pub open spec fn spec_role_sync_actions(defs: Seq<RoleDefinition>, rs: Seq<RemoteRole>) -> Seq<RoleAction>
    decreases defs.len(),
{
    if defs.len() == 0 {
        Seq::empty()
    } else {
        spec_role_sync_actions(defs.drop_last(), rs) + spec_role_actions_for(rs, defs.last())
    }
}

/// Some definition claims this name.
pub open spec fn spec_role_name_defined(defs: Seq<RoleDefinition>, name: Seq<char>) -> bool {
    exists|i: int| 0 <= i < defs.len() && #[trigger] defs[i].name@ == name
}

/// Whether some definition has the given name.
pub fn role_name_defined(defs: &Vec<RoleDefinition>, name: &String) -> (r: bool)
    ensures
        r == spec_role_name_defined(defs@, name@),
{
    let mut i: usize = 0;
    while i < defs.len()
        invariant
            0 <= i <= defs@.len(),
            forall|j: int| 0 <= j < i ==> #[trigger] defs@[j].name@ != name@,
        decreases defs@.len() - i,
    {
        if defs[i].name == *name {
            return true;
        }
        i = i + 1;
    }
    false
}

/// A role the cleanup pass must never delete: the implicit default role,
/// or one owned by an external integration.
pub open spec fn spec_role_protected(r: RemoteRole) -> bool {
    r.name@ == spec_everyone_role_name() || r.managed
}

/// Whether the cleanup pass must spare this role.
pub fn role_protected(role: &RemoteRole) -> (r: bool)
    ensures
        r == spec_role_protected(*role),
{
    let everyone: String = everyone_role_name().to_owned();
    role.name == everyone || role.managed
}

/// The cleanup pass: delete every unprotected remote role whose name is
/// not desired, in remote-list order.
pub open spec fn spec_role_cleanup_actions(defs: Seq<RoleDefinition>, rs: Seq<RemoteRole>) -> Seq<RoleAction>
    decreases rs.len(),
{
    if rs.len() == 0 {
        Seq::empty()
    } else {
        let rest = spec_role_cleanup_actions(defs, rs.drop_last());
        let r = rs.last();
        if !spec_role_name_defined(defs, r.name@) && !spec_role_protected(r) {
            rest.push(RoleAction::Delete(r.id))
        } else {
            rest
        }
    }
}

/// The full plan: the per-definition pass followed by cleanup.
pub open spec fn spec_role_plan(defs: Seq<RoleDefinition>, rs: Seq<RemoteRole>) -> Seq<RoleAction> {
    spec_role_sync_actions(defs, rs) + spec_role_cleanup_actions(defs, rs)
}

/// Plans the calls that converge the remote roles to the definitions:
/// the per-definition pass in list order, then the protected-aware
/// cleanup.  Executing the plan in order against the same remote state
/// reconciles it; the planner itself mutates nothing.
pub fn plan_roles(definitions: &Vec<RoleDefinition>, remote: &Vec<RemoteRole>) -> (plan: Vec<RoleAction>)
    ensures
        plan@ == spec_role_plan(definitions@, remote@),
{
    let mut plan: Vec<RoleAction> = Vec::new();
    let mut i: usize = 0;
    while i < definitions.len()
        invariant
            0 <= i <= definitions@.len(),
            plan@ == spec_role_sync_actions(definitions@.subrange(0, i as int), remote@),
        decreases definitions@.len() - i,
    {
        let definition = &definitions[i];
        let matched = roles_named(remote, &definition.name);
        if matched.len() == 1 {
            if !check_role_synced(&matched[0], definition) {
                plan.push(RoleAction::Edit(matched[0].id, definition.clone()));
            }
        } else {
            let ghost base = plan@;
            let mut j: usize = 0;
            while j < matched.len()
                invariant
                    0 <= j <= matched@.len(),
                    matched@ == spec_roles_named(remote@, definitions@[i as int].name@),
                    plan@ == base + Seq::new(j as nat, |k: int| RoleAction::Delete(matched@[k].id)),
                decreases matched@.len() - j,
            {
                plan.push(RoleAction::Delete(matched[j].id));
                j = j + 1;
                proof {
                    assert(plan@ =~= base + Seq::new(j as nat, |k: int| RoleAction::Delete(matched@[k].id)));
                }
            }
            plan.push(RoleAction::Create(definition.clone()));
            proof {
                assert(plan@ =~= base + spec_role_actions_for(remote@, definitions@[i as int]));
            }
        }
        i = i + 1;
        proof {
            assert(definitions@.subrange(0, i as int).drop_last() =~= definitions@.subrange(0, i - 1 as int));
        }
    }
    proof {
        assert(definitions@.subrange(0, definitions@.len() as int) =~= definitions@);
    }
    let ghost sync_done = plan@;
    let mut r: usize = 0;
    while r < remote.len()
        invariant
            0 <= r <= remote@.len(),
            sync_done == spec_role_sync_actions(definitions@, remote@),
            plan@ == sync_done + spec_role_cleanup_actions(definitions@, remote@.subrange(0, r as int)),
        decreases remote@.len() - r,
    {
        let role = &remote[r];
        if !role_name_defined(definitions, &role.name) && !role_protected(role) {
            plan.push(RoleAction::Delete(role.id));
        }
        r = r + 1;
        proof {
            assert(remote@.subrange(0, r as int).drop_last() =~= remote@.subrange(0, r - 1 as int));
        }
    }
    proof {
        assert(remote@.subrange(0, remote@.len() as int) =~= remote@);
    }
    plan
}

/// The plan that removes every removable role: reconciliation against an
/// empty desired list, which is pure cleanup.
pub fn plan_role_deletion(remote: &Vec<RemoteRole>) -> (plan: Vec<RoleAction>)
    ensures
        plan@ == spec_role_plan(Seq::empty(), remote@),
        plan@ == spec_role_cleanup_actions(Seq::empty(), remote@),
{
    let definitions: Vec<RoleDefinition> = Vec::new();
    let plan = plan_roles(&definitions, remote);
    proof {
        assert(spec_role_plan(Seq::empty(), remote@)
            =~= spec_role_cleanup_actions(Seq::empty(), remote@));
    }
    plan
}

/// The desired role list for an event: the tweaked default role, the
/// staff role, then one role per team in team order.
pub fn build_role_definitions(teams: &Vec<Team>) -> (defs: Vec<RoleDefinition>)
    ensures
        defs@.len() == 2 + teams@.len(),
        defs@[0].name@ == spec_everyone_role_name(),
        defs@[0].permissions == spec_permissions_for_everyone(),
        defs@[0].colour == 0 && !defs@[0].hoist && defs@[0].mentionable,
        defs@[1].name@ == spec_staff_role_name(),
        defs@[1].permissions == spec_permissions_for_staff(),
        defs@[1].colour == STAFF_ROLE_COLOUR && defs@[1].hoist && defs@[1].mentionable,
        forall|k: int| 0 <= k < teams@.len() ==> {
            &&& (#[trigger] defs@[2 + k]).name@ == teams@[k].role_name@
            &&& defs@[2 + k].permissions == spec_permissions_for_team()
            &&& defs@[2 + k].colour == 0
            &&& defs@[2 + k].hoist
            &&& defs@[2 + k].mentionable
        },
{
    let mut defs: Vec<RoleDefinition> = Vec::new();

    defs.push(RoleDefinition {
        name: everyone_role_name().to_owned(),
        permissions: get_permissions_for_everyone(),
        colour: 0,
        hoist: false,
        mentionable: true,
    });

    defs.push(RoleDefinition {
        name: staff_role_name().to_owned(),
        permissions: get_permissions_for_staff(),
        colour: STAFF_ROLE_COLOUR,
        hoist: true,
        mentionable: true,
    });

    let mut k: usize = 0;
    while k < teams.len()
        invariant
            0 <= k <= teams@.len(),
            defs@.len() == 2 + k,
            defs@[0].name@ == spec_everyone_role_name(),
            defs@[0].permissions == spec_permissions_for_everyone(),
            defs@[0].colour == 0 && !defs@[0].hoist && defs@[0].mentionable,
            defs@[1].name@ == spec_staff_role_name(),
            defs@[1].permissions == spec_permissions_for_staff(),
            defs@[1].colour == STAFF_ROLE_COLOUR && defs@[1].hoist && defs@[1].mentionable,
            forall|j: int| 0 <= j < k ==> {
                &&& (#[trigger] defs@[2 + j]).name@ == teams@[j].role_name@
                &&& defs@[2 + j].permissions == spec_permissions_for_team()
                &&& defs@[2 + j].colour == 0
                &&& defs@[2 + j].hoist
                &&& defs@[2 + j].mentionable
            },
        decreases teams@.len() - k,
    {
        defs.push(RoleDefinition {
            name: teams[k].role_name.clone(),
            permissions: get_permissions_for_team(),
            colour: 0,
            hoist: true,
            mentionable: true,
        });
        k = k + 1;
    }
    defs
}

/// The role a `Create` produces: the definition's fields under a fresh
/// platform-assigned id, not managed.
pub open spec fn spec_created_role(d: RoleDefinition, id: u64) -> RemoteRole {
    RemoteRole {
        id,
        name: d.name,
        permissions: d.permissions,
        colour: d.colour,
        hoist: d.hoist,
        mentionable: d.mentionable,
        managed: false,
    }
}

/// The role an `Edit` produces: the definition's fields, with the id and
/// the managed flag kept.
pub open spec fn spec_edited_role(r: RemoteRole, d: RoleDefinition) -> RemoteRole {
    RemoteRole {
        id: r.id,
        name: d.name,
        permissions: d.permissions,
        colour: d.colour,
        hoist: d.hoist,
        mentionable: d.mentionable,
        managed: r.managed,
    }
}

/// The role list after editing the role with the given id.
pub open spec fn spec_edit_role_list(rs: Seq<RemoteRole>, id: u64, d: RoleDefinition) -> Seq<RemoteRole> {
    rs.map_values(|r: RemoteRole| if r.id == id { spec_edited_role(r, d) } else { r })
}

/// The role list after deleting the role with the given id.
pub open spec fn spec_roles_without(rs: Seq<RemoteRole>, id: u64) -> Seq<RemoteRole>
    decreases rs.len(),
{
    if rs.len() == 0 {
        Seq::empty()
    } else {
        let rest = spec_roles_without(rs.drop_last(), id);
        if rs.last().id == id {
            rest
        } else {
            rest.push(rs.last())
        }
    }
}

/// How many `Create` actions a plan holds; each consumes one fresh id
/// when the plan is applied.
pub open spec fn spec_role_creates(acts: Seq<RoleAction>) -> nat
    decreases acts.len(),
{
    if acts.len() == 0 {
        0
    } else {
        (if acts.first() is Create {
            1nat
        } else {
            0nat
        }) + spec_role_creates(acts.drop_first())
    }
}

/// The remote state a plan leaves behind, action by action; `fresh` holds
/// the ids the platform assigns to created roles, in creation order.
pub open spec fn spec_apply_role_actions(rs: Seq<RemoteRole>, acts: Seq<RoleAction>, fresh: Seq<u64>) -> Seq<RemoteRole>
    decreases acts.len(),
{
    if acts.len() == 0 {
        rs
    } else {
        match acts.first() {
            RoleAction::Create(d) => spec_apply_role_actions(
                rs.push(spec_created_role(d, fresh.first())),
                acts.drop_first(),
                fresh.drop_first(),
            ),
            RoleAction::Edit(id, d) => spec_apply_role_actions(
                spec_edit_role_list(rs, id, d),
                acts.drop_first(),
                fresh,
            ),
            RoleAction::Delete(id) => spec_apply_role_actions(
                spec_roles_without(rs, id),
                acts.drop_first(),
                fresh,
            ),
        }
    }
}

/// Copies a role list.
pub fn clone_roles(v: &Vec<RemoteRole>) -> (out: Vec<RemoteRole>)
    ensures
        out@ == v@,
{
    let mut out: Vec<RemoteRole> = Vec::new();
    let mut i: usize = 0;
    while i < v.len()
        invariant
            0 <= i <= v@.len(),
            out@ == v@.subrange(0, i as int),
        decreases v@.len() - i,
    {
        out.push(v[i].clone());
        i = i + 1;
        proof {
            assert(out@ =~= v@.subrange(0, i as int));
        }
    }
    proof {
        assert(v@.subrange(0, v@.len() as int) =~= v@);
    }
    out
}

/// Edits, in place of the platform, the role with the given id.
fn edit_roles_in(v: &Vec<RemoteRole>, id: u64, d: &RoleDefinition) -> (out: Vec<RemoteRole>)
    ensures
        out@ == spec_edit_role_list(v@, id, *d),
{
    let mut out: Vec<RemoteRole> = Vec::new();
    let mut i: usize = 0;
    while i < v.len()
        invariant
            0 <= i <= v@.len(),
            out@ == spec_edit_role_list(v@, id, *d).subrange(0, i as int),
        decreases v@.len() - i,
    {
        if v[i].id == id {
            out.push(RemoteRole {
                id: v[i].id,
                name: d.name.clone(),
                permissions: d.permissions,
                colour: d.colour,
                hoist: d.hoist,
                mentionable: d.mentionable,
                managed: v[i].managed,
            });
        } else {
            out.push(v[i].clone());
        }
        i = i + 1;
        proof {
            assert(out@ =~= spec_edit_role_list(v@, id, *d).subrange(0, i as int));
        }
    }
    proof {
        assert(spec_edit_role_list(v@, id, *d).subrange(0, v@.len() as int)
            =~= spec_edit_role_list(v@, id, *d));
    }
    out
}

/// Removes, in place of the platform, the role with the given id.
fn roles_without(v: &Vec<RemoteRole>, id: u64) -> (out: Vec<RemoteRole>)
    ensures
        out@ == spec_roles_without(v@, id),
{
    let mut out: Vec<RemoteRole> = Vec::new();
    let mut i: usize = 0;
    while i < v.len()
        invariant
            0 <= i <= v@.len(),
            out@ == spec_roles_without(v@.subrange(0, i as int), id),
        decreases v@.len() - i,
    {
        if v[i].id != id {
            out.push(v[i].clone());
        }
        i = i + 1;
        proof {
            assert(v@.subrange(0, i as int).drop_last() =~= v@.subrange(0, i - 1 as int));
        }
    }
    proof {
        assert(v@.subrange(0, v@.len() as int) =~= v@);
    }
    out
}

/// A model of the remote platform executing a plan in order: creates
/// append a role under the next fresh id, edits rewrite in place, deletes
/// remove.  Lets callers and tests replay a reconciliation without the
/// platform.
pub fn apply_role_actions(remote: &Vec<RemoteRole>, actions: &Vec<RoleAction>, fresh_ids: &Vec<u64>) -> (out: Vec<RemoteRole>)
    requires
        spec_role_creates(actions@) <= fresh_ids@.len(),
    ensures
        out@ == spec_apply_role_actions(remote@, actions@, fresh_ids@),
{
    let mut state = clone_roles(remote);
    let mut consumed: usize = 0;
    let mut k: usize = 0;
    let fresh_count: usize = fresh_ids.len();
    proof {
        assert(fresh_count == fresh_ids@.len());
        assert(actions@.skip(0) =~= actions@);
        assert(fresh_ids@.skip(0) =~= fresh_ids@);
    }
    while k < actions.len()
        invariant
            0 <= k <= actions@.len(),
            0 <= consumed <= fresh_ids@.len(),
            fresh_ids@.len() <= usize::MAX,
            spec_role_creates(actions@.skip(k as int)) <= fresh_ids@.len() - consumed,
            spec_apply_role_actions(remote@, actions@, fresh_ids@)
                == spec_apply_role_actions(state@, actions@.skip(k as int), fresh_ids@.skip(consumed as int)),
        decreases actions@.len() - k,
    {
        let ghost pending = actions@.skip(k as int);
        proof {
            assert(pending.first() == actions@[k as int]);
            assert(pending.drop_first() =~= actions@.skip(k as int + 1));
        }
        match &actions[k] {
            RoleAction::Create(d) => {
                proof {
                    assert(pending.first() is Create);
                    assert(spec_role_creates(pending) >= 1);
                    assert(consumed < fresh_ids@.len());
                    assert(fresh_ids@.skip(consumed as int).first() == fresh_ids@[consumed as int]);
                    assert(fresh_ids@.skip(consumed as int).drop_first()
                        =~= fresh_ids@.skip(consumed as int + 1));
                }
                state.push(RemoteRole {
                    id: fresh_ids[consumed],
                    name: d.name.clone(),
                    permissions: d.permissions,
                    colour: d.colour,
                    hoist: d.hoist,
                    mentionable: d.mentionable,
                    managed: false,
                });
                consumed = consumed + 1;
            },
            RoleAction::Edit(id, d) => {
                state = edit_roles_in(&state, *id, d);
            },
            RoleAction::Delete(id) => {
                state = roles_without(&state, *id);
            },
        }
        k = k + 1;
    }
    proof {
        assert(actions@.skip(actions@.len() as int) =~= Seq::<RoleAction>::empty());
    }
    state
}

/// The remote roles fully agree with the definitions: every definition
/// has exactly one synced namesake, and every remote role is either
/// desired or protected.
pub open spec fn spec_roles_converged(defs: Seq<RoleDefinition>, rs: Seq<RemoteRole>) -> bool {
    &&& forall|i: int| 0 <= i < defs.len()
        ==> (#[trigger] spec_roles_named(rs, defs[i].name@)).len() == 1
    &&& forall|i: int| 0 <= i < defs.len()
        ==> spec_role_synced((#[trigger] spec_roles_named(rs, defs[i].name@))[0], defs[i])
    &&& forall|j: int| 0 <= j < rs.len()
        ==> spec_role_name_defined(defs, (#[trigger] rs[j]).name@) || spec_role_protected(rs[j])
}

proof fn lemma_role_sync_actions_empty(defs: Seq<RoleDefinition>, rs: Seq<RemoteRole>)
    requires
        forall|i: int| 0 <= i < defs.len()
            ==> (#[trigger] spec_roles_named(rs, defs[i].name@)).len() == 1,
        forall|i: int| 0 <= i < defs.len()
            ==> spec_role_synced((#[trigger] spec_roles_named(rs, defs[i].name@))[0], defs[i]),
    ensures
        spec_role_sync_actions(defs, rs) == Seq::<RoleAction>::empty(),
    decreases defs.len(),
{
    if defs.len() == 0 {
    } else {
        lemma_role_sync_actions_empty(defs.drop_last(), rs);
        assert(spec_role_actions_for(rs, defs.last()) == Seq::<RoleAction>::empty());
        assert(spec_role_sync_actions(defs, rs) =~= Seq::<RoleAction>::empty());
    }
}

proof fn lemma_role_cleanup_actions_empty(defs: Seq<RoleDefinition>, rs: Seq<RemoteRole>)
    requires
        forall|j: int| 0 <= j < rs.len()
            ==> spec_role_name_defined(defs, (#[trigger] rs[j]).name@) || spec_role_protected(rs[j]),
    ensures
        spec_role_cleanup_actions(defs, rs) == Seq::<RoleAction>::empty(),
    decreases rs.len(),
{
    if rs.len() == 0 {
    } else {
        lemma_role_cleanup_actions_empty(defs, rs.drop_last());
    }
}

/// Idempotence of the role reconciler: planned against a remote state
/// that already agrees with the definitions, the plan is empty, so a
/// second run right after a successful one issues no mutating call.
pub proof fn lemma_converged_role_plan_empty(defs: Seq<RoleDefinition>, rs: Seq<RemoteRole>)
    requires
        spec_roles_converged(defs, rs),
    ensures
        spec_role_plan(defs, rs) == Seq::<RoleAction>::empty(),
{
    lemma_role_sync_actions_empty(defs, rs);
    lemma_role_cleanup_actions_empty(defs, rs);
    assert(spec_role_plan(defs, rs) =~= Seq::<RoleAction>::empty());
}

/// Convergence from nothing: against an empty remote state the plan is
/// one create per definition, in order, and no edit or delete at all.
pub proof fn lemma_role_plan_from_empty_remote(defs: Seq<RoleDefinition>)
    ensures
        spec_role_plan(defs, Seq::empty()) == Seq::new(defs.len(), |i: int| RoleAction::Create(defs[i])),
    decreases defs.len(),
{
    if defs.len() == 0 {
        assert(spec_role_plan(defs, Seq::empty()) =~= Seq::new(defs.len(), |i: int| RoleAction::Create(defs[i])));
    } else {
        lemma_role_plan_from_empty_remote(defs.drop_last());
        assert(spec_roles_named(Seq::empty(), defs.last().name@) == Seq::<RemoteRole>::empty());
        assert(spec_role_actions_for(Seq::empty(), defs.last())
            =~= seq![RoleAction::Create(defs.last())]);
        assert(spec_role_cleanup_actions(defs, Seq::empty()) == Seq::<RoleAction>::empty());
        assert(spec_role_cleanup_actions(defs.drop_last(), Seq::empty()) == Seq::<RoleAction>::empty());
        assert(spec_role_plan(defs, Seq::empty())
            =~= Seq::new(defs.len(), |i: int| RoleAction::Create(defs[i])));
    }
}

/// Protected-entity exclusion: every delete the cleanup pass issues
/// targets a remote role that is neither the implicit default role nor
/// managed, and whose name is not desired.
pub proof fn lemma_role_cleanup_spares_protected(defs: Seq<RoleDefinition>, rs: Seq<RemoteRole>)
    ensures
        forall|k: int| 0 <= k < spec_role_cleanup_actions(defs, rs).len()
            ==> exists|j: int| {
                &&& 0 <= j < rs.len()
                &&& !spec_role_protected(rs[j])
                &&& !spec_role_name_defined(defs, rs[j].name@)
                &&& #[trigger] spec_role_cleanup_actions(defs, rs)[k] == RoleAction::Delete(rs[j].id)
            },
    decreases rs.len(),
{
    if rs.len() == 0 {
    } else {
        lemma_role_cleanup_spares_protected(defs, rs.drop_last());
        let rest = spec_role_cleanup_actions(defs, rs.drop_last());
        let whole = spec_role_cleanup_actions(defs, rs);
        assert forall|k: int| 0 <= k < whole.len() implies exists|j: int| {
            &&& 0 <= j < rs.len()
            &&& !spec_role_protected(rs[j])
            &&& !spec_role_name_defined(defs, rs[j].name@)
            &&& #[trigger] whole[k] == RoleAction::Delete(rs[j].id)
        } by {
            if k < rest.len() {
                let j = choose|j: int| {
                    &&& 0 <= j < rs.drop_last().len()
                    &&& !spec_role_protected(rs.drop_last()[j])
                    &&& !spec_role_name_defined(defs, rs.drop_last()[j].name@)
                    &&& rest[k] == RoleAction::Delete(rs.drop_last()[j].id)
                };
                assert(rs.drop_last()[j] == rs[j]);
                assert(whole[k] == RoleAction::Delete(rs[j].id));
            } else {
                let j = rs.len() - 1;
                assert(whole[k] == RoleAction::Delete(rs[j].id));
            }
        }
    }
}

/// Desired role names are unique, as the reconciler's matching assumes.
pub open spec fn spec_role_names_unique(defs: Seq<RoleDefinition>) -> bool {
    forall|i: int, j: int| 0 <= i < j < defs.len()
        ==> (#[trigger] defs[i].name)@ != (#[trigger] defs[j].name)@
}

/// The roles that creating every definition in order produces, with the
/// fresh ids handed out in order.
pub open spec fn spec_created_roles(defs: Seq<RoleDefinition>, fresh: Seq<u64>) -> Seq<RemoteRole> {
    Seq::new(defs.len(), |i: int| spec_created_role(defs[i], fresh[i]))
}

proof fn lemma_apply_role_creates(s: Seq<RemoteRole>, defs: Seq<RoleDefinition>, fresh: Seq<u64>)
    requires
        fresh.len() >= defs.len(),
    ensures
        spec_apply_role_actions(s, Seq::new(defs.len(), |i: int| RoleAction::Create(defs[i])), fresh)
            == s + spec_created_roles(defs, fresh),
    decreases defs.len(),
{
    let acts = Seq::new(defs.len(), |i: int| RoleAction::Create(defs[i]));
    if defs.len() == 0 {
        assert(s + spec_created_roles(defs, fresh) =~= s);
    } else {
        assert(acts.first() == RoleAction::Create(defs[0]));
        assert(acts.drop_first() =~= Seq::new(
            defs.drop_first().len(),
            |i: int| RoleAction::Create(defs.drop_first()[i]),
        ));
        lemma_apply_role_creates(s.push(spec_created_role(defs[0], fresh[0])), defs.drop_first(), fresh.drop_first());
        assert(s.push(spec_created_role(defs[0], fresh[0])) + spec_created_roles(
            defs.drop_first(),
            fresh.drop_first(),
        ) =~= s + spec_created_roles(defs, fresh));
    }
}

proof fn lemma_created_roles_group_empty(defs: Seq<RoleDefinition>, fresh: Seq<u64>, name: Seq<char>)
    requires
        forall|j: int| 0 <= j < defs.len() ==> (#[trigger] defs[j].name)@ != name,
    ensures
        spec_roles_named(spec_created_roles(defs, fresh), name) == Seq::<RemoteRole>::empty(),
    decreases defs.len(),
{
    if defs.len() == 0 {
    } else {
        lemma_created_roles_group_empty(defs.drop_last(), fresh, name);
        let list = spec_created_roles(defs, fresh);
        assert(list.drop_last() =~= spec_created_roles(defs.drop_last(), fresh));
        assert(list.last().name@ == defs[defs.len() - 1].name@);
    }
}

proof fn lemma_created_roles_group_singleton(defs: Seq<RoleDefinition>, fresh: Seq<u64>, i: int)
    requires
        spec_role_names_unique(defs),
        0 <= i < defs.len(),
    ensures
        spec_roles_named(spec_created_roles(defs, fresh), defs[i].name@)
            == seq![spec_created_role(defs[i], fresh[i])],
    decreases defs.len(),
{
    let list = spec_created_roles(defs, fresh);
    assert(list.drop_last() =~= spec_created_roles(defs.drop_last(), fresh));
    if i == defs.len() - 1 {
        lemma_created_roles_group_empty(defs.drop_last(), fresh, defs[i].name@);
        assert(list.last() == spec_created_role(defs[i], fresh[i]));
        assert(spec_roles_named(list, defs[i].name@)
            =~= seq![spec_created_role(defs[i], fresh[i])]);
    } else {
        lemma_created_roles_group_singleton(defs.drop_last(), fresh, i);
        assert(defs.drop_last()[i] == defs[i]);
        assert(list.last().name@ == defs[defs.len() - 1].name@);
        assert(list.last().name@ != defs[i].name@);
    }
}

/// Convergence from empty: creating every definition in order (which is
/// exactly the plan against an empty remote state) leaves a remote state
/// that agrees with the definitions, provided the desired names are
/// unique.
pub proof fn lemma_role_provisioning_converges(defs: Seq<RoleDefinition>, fresh: Seq<u64>)
    requires
        spec_role_names_unique(defs),
        fresh.len() >= defs.len(),
    ensures
        spec_apply_role_actions(Seq::empty(), spec_role_plan(defs, Seq::empty()), fresh)
            == spec_created_roles(defs, fresh),
        spec_roles_converged(defs, spec_created_roles(defs, fresh)),
{
    lemma_role_plan_from_empty_remote(defs);
    lemma_apply_role_creates(Seq::empty(), defs, fresh);
    assert(Seq::<RemoteRole>::empty() + spec_created_roles(defs, fresh)
        =~= spec_created_roles(defs, fresh));
    let list = spec_created_roles(defs, fresh);
    assert forall|i: int| 0 <= i < defs.len() implies (#[trigger] spec_roles_named(
        list,
        defs[i].name@,
    )).len() == 1 && spec_role_synced(spec_roles_named(list, defs[i].name@)[0], defs[i]) by {
        lemma_created_roles_group_singleton(defs, fresh, i);
    }
    assert forall|j: int| 0 <= j < list.len() implies spec_role_name_defined(
        defs,
        (#[trigger] list[j]).name@,
    ) || spec_role_protected(list[j]) by {
        assert(list[j].name@ == defs[j].name@);
    }
}

/// Idempotence from empty, end to end: provisioning an empty remote state
/// issues one create per definition; a second run against the resulting
/// state plans nothing at all.
pub proof fn lemma_role_reconciliation_idempotent_from_empty(defs: Seq<RoleDefinition>, fresh: Seq<u64>)
    requires
        spec_role_names_unique(defs),
        fresh.len() >= defs.len(),
    ensures
        spec_role_plan(
            defs,
            spec_apply_role_actions(Seq::empty(), spec_role_plan(defs, Seq::empty()), fresh),
        ) == Seq::<RoleAction>::empty(),
{
    lemma_role_provisioning_converges(defs, fresh);
    lemma_converged_role_plan_empty(defs, spec_created_roles(defs, fresh));
}

/// Remote role ids are pairwise distinct, as the platform guarantees.
pub open spec fn spec_role_ids_distinct(rs: Seq<RemoteRole>) -> bool {
    forall|i: int, j: int| 0 <= i < j < rs.len() ==> (#[trigger] rs[i]).id != (#[trigger] rs[j]).id
}

/// Some role of the list bears this id.
pub open spec fn spec_role_id_present(rs: Seq<RemoteRole>, id: u64) -> bool {
    exists|j: int| 0 <= j < rs.len() && (#[trigger] rs[j]).id == id
}

proof fn lemma_role_creates_concat(a: Seq<RoleAction>, b: Seq<RoleAction>)
    ensures
        spec_role_creates(a + b) == spec_role_creates(a) + spec_role_creates(b),
    decreases a.len(),
{
    if a.len() == 0 {
        assert(a + b =~= b);
    } else {
        assert((a + b).first() == a.first());
        assert((a + b).drop_first() =~= a.drop_first() + b);
        lemma_role_creates_concat(a.drop_first(), b);
    }
}

proof fn lemma_apply_role_actions_concat(s: Seq<RemoteRole>, a: Seq<RoleAction>, b: Seq<RoleAction>, f: Seq<u64>)
    requires
        spec_role_creates(a) <= f.len(),
    ensures
        spec_apply_role_actions(s, a + b, f) == spec_apply_role_actions(
            spec_apply_role_actions(s, a, f),
            b,
            f.skip(spec_role_creates(a) as int),
        ),
    decreases a.len(),
{
    if a.len() == 0 {
        assert(a + b =~= b);
        assert(f.skip(0) =~= f);
    } else {
        assert((a + b).first() == a.first());
        assert((a + b).drop_first() =~= a.drop_first() + b);
        match a.first() {
            RoleAction::Create(d) => {
                assert(spec_role_creates(a) == 1 + spec_role_creates(a.drop_first()));
                lemma_apply_role_actions_concat(
                    s.push(spec_created_role(d, f.first())),
                    a.drop_first(),
                    b,
                    f.drop_first(),
                );
                assert(f.drop_first().skip(spec_role_creates(a.drop_first()) as int)
                    =~= f.skip(spec_role_creates(a) as int));
            },
            RoleAction::Edit(id, d) => {
                lemma_apply_role_actions_concat(spec_edit_role_list(s, id, d), a.drop_first(), b, f);
            },
            RoleAction::Delete(id) => {
                lemma_apply_role_actions_concat(spec_roles_without(s, id), a.drop_first(), b, f);
            },
        }
    }
}

proof fn lemma_roles_named_membership(rs: Seq<RemoteRole>, name: Seq<char>)
    ensures
        forall|x: RemoteRole| #[trigger] spec_roles_named(rs, name).contains(x)
            <==> (rs.contains(x) && x.name@ == name),
    decreases rs.len(),
{
    if rs.len() == 0 {
    } else {
        lemma_roles_named_membership(rs.drop_last(), name);
        let group = spec_roles_named(rs, name);
        let prev = spec_roles_named(rs.drop_last(), name);
        assert forall|x: RemoteRole| #[trigger] group.contains(x) implies (rs.contains(x)
            && x.name@ == name) by {
            if rs.last().name@ == name {
                if x == rs.last() {
                    assert(rs.contains(x));
                } else {
                    assert(prev.contains(x));
                    assert(rs.drop_last().contains(x));
                    let k = choose|k: int| 0 <= k < rs.drop_last().len() && rs.drop_last()[k] == x;
                    assert(rs[k] == x);
                }
            } else {
                assert(prev.contains(x));
                assert(rs.drop_last().contains(x));
                let k = choose|k: int| 0 <= k < rs.drop_last().len() && rs.drop_last()[k] == x;
                assert(rs[k] == x);
            }
        }
        assert forall|x: RemoteRole| rs.contains(x) && x.name@ == name implies #[trigger] group.contains(
            x,
        ) by {
            let k = choose|k: int| 0 <= k < rs.len() && rs[k] == x;
            if k < rs.len() - 1 {
                assert(rs.drop_last()[k] == x);
                assert(rs.drop_last().contains(x));
                assert(prev.contains(x));
                if rs.last().name@ == name {
                    let p = choose|p: int| 0 <= p < prev.len() && prev[p] == x;
                    assert(group[p] == x);
                } else {
                }
            } else {
                assert(x == rs.last());
                assert(group.last() == x);
            }
        }
    }
}

proof fn lemma_roles_without_membership(rs: Seq<RemoteRole>, id: u64)
    ensures
        forall|x: RemoteRole| #[trigger] spec_roles_without(rs, id).contains(x)
            <==> (rs.contains(x) && x.id != id),
    decreases rs.len(),
{
    if rs.len() == 0 {
    } else {
        lemma_roles_without_membership(rs.drop_last(), id);
        let out = spec_roles_without(rs, id);
        let prev = spec_roles_without(rs.drop_last(), id);
        assert forall|x: RemoteRole| #[trigger] out.contains(x) implies (rs.contains(x) && x.id
            != id) by {
            if rs.last().id != id && x == rs.last() {
                assert(rs.contains(x));
            } else {
                assert(prev.contains(x));
                assert(rs.drop_last().contains(x));
                let k = choose|k: int| 0 <= k < rs.drop_last().len() && rs.drop_last()[k] == x;
                assert(rs[k] == x);
            }
        }
        assert forall|x: RemoteRole| rs.contains(x) && x.id != id implies #[trigger] out.contains(
            x,
        ) by {
            let k = choose|k: int| 0 <= k < rs.len() && rs[k] == x;
            if k < rs.len() - 1 {
                assert(rs.drop_last()[k] == x);
                assert(rs.drop_last().contains(x));
                assert(prev.contains(x));
                if rs.last().id != id {
                    let p = choose|p: int| 0 <= p < prev.len() && prev[p] == x;
                    assert(out[p] == x);
                }
            } else {
                assert(x == rs.last());
                assert(out.last() == x);
            }
        }
    }
}

proof fn lemma_roles_named_without_commute(rs: Seq<RemoteRole>, id: u64, name: Seq<char>)
    ensures
        spec_roles_named(spec_roles_without(rs, id), name) == spec_roles_without(
            spec_roles_named(rs, name),
            id,
        ),
    decreases rs.len(),
{
    if rs.len() == 0 {
    } else {
        lemma_roles_named_without_commute(rs.drop_last(), id, name);
        let dl = rs.drop_last();
        let last = rs.last();
        if last.id == id {
            if last.name@ == name {
                assert(spec_roles_named(dl, name).push(last).drop_last()
                    =~= spec_roles_named(dl, name));
                assert(spec_roles_without(spec_roles_named(rs, name), id)
                    == spec_roles_without(spec_roles_named(dl, name), id));
            }
        } else {
            assert(spec_roles_without(rs, id) == spec_roles_without(dl, id).push(last));
            assert(spec_roles_without(dl, id).push(last).drop_last()
                =~= spec_roles_without(dl, id));
            if last.name@ == name {
                assert(spec_roles_named(dl, name).push(last).drop_last()
                    =~= spec_roles_named(dl, name));
                assert(spec_roles_named(spec_roles_without(rs, id), name)
                    == spec_roles_named(spec_roles_without(dl, id), name).push(last));
                assert(spec_roles_without(spec_roles_named(rs, name), id)
                    == spec_roles_without(spec_roles_named(dl, name), id).push(last));
            } else {
                assert(spec_roles_named(spec_roles_without(rs, id), name)
                    == spec_roles_named(spec_roles_without(dl, id), name));
            }
        }
    }
}

proof fn lemma_roles_without_absent(rs: Seq<RemoteRole>, id: u64)
    requires
        forall|j: int| 0 <= j < rs.len() ==> (#[trigger] rs[j]).id != id,
    ensures
        spec_roles_without(rs, id) == rs,
    decreases rs.len(),
{
    if rs.len() == 0 {
        assert(spec_roles_without(rs, id) =~= rs);
    } else {
        lemma_roles_without_absent(rs.drop_last(), id);
        assert(spec_roles_without(rs, id) =~= rs);
    }
}

proof fn lemma_roles_without_distinct(rs: Seq<RemoteRole>, id: u64)
    requires
        spec_role_ids_distinct(rs),
    ensures
        spec_role_ids_distinct(spec_roles_without(rs, id)),
        forall|x: u64| spec_role_id_present(spec_roles_without(rs, id), x)
            ==> spec_role_id_present(rs, x),
    decreases rs.len(),
{
    lemma_roles_without_membership(rs, id);
    let out = spec_roles_without(rs, id);
    assert forall|i: int, j: int| 0 <= i < j < out.len() implies (#[trigger] out[i]).id
        != (#[trigger] out[j]).id by {
        assert(out.contains(out[i]));
        assert(out.contains(out[j]));
        let ki = choose|k: int| 0 <= k < rs.len() && rs[k] == out[i];
        let kj = choose|k: int| 0 <= k < rs.len() && rs[k] == out[j];
        if out[i].id == out[j].id {
            if ki == kj {
                assert(out[i] == out[j]);
                lemma_roles_without_no_duplicate_positions(rs, id, i, j);
            }
        }
    }
    assert forall|x: u64| spec_role_id_present(out, x) implies spec_role_id_present(rs, x) by {
        let j = choose|j: int| 0 <= j < out.len() && out[j].id == x;
        assert(out.contains(out[j]));
        let k = choose|k: int| 0 <= k < rs.len() && rs[k] == out[j];
        assert(rs[k].id == x);
    }
}

proof fn lemma_roles_without_no_duplicate_positions(rs: Seq<RemoteRole>, id: u64, i: int, j: int)
    requires
        spec_role_ids_distinct(rs),
        0 <= i < j < spec_roles_without(rs, id).len(),
    ensures
        spec_roles_without(rs, id)[i] != spec_roles_without(rs, id)[j]
            || spec_roles_without(rs, id)[i].id != spec_roles_without(rs, id)[j].id,
    decreases rs.len(),
{
    if rs.len() == 0 {
    } else {
        let out = spec_roles_without(rs, id);
        let prev = spec_roles_without(rs.drop_last(), id);
        if rs.last().id == id {
            lemma_roles_without_no_duplicate_positions(rs.drop_last(), id, i, j);
        } else {
            if j < prev.len() {
                lemma_roles_without_no_duplicate_positions(rs.drop_last(), id, i, j);
            } else {
                // out[j] is rs.last(); out[i] comes from the front
                lemma_roles_without_membership(rs.drop_last(), id);
                assert(prev.contains(out[i]));
                assert(rs.drop_last().contains(out[i]));
                let k = choose|k: int| 0 <= k < rs.drop_last().len() && rs.drop_last()[k] == out[i];
                assert(rs[k] == out[i]);
                assert(rs[k].id != rs.last().id);
            }
        }
    }
}

/// With pairwise-distinct ids, two list members with the same id are the
/// same role.
proof fn lemma_role_unique_id(rs: Seq<RemoteRole>, x: RemoteRole, j: int)
    requires
        spec_role_ids_distinct(rs),
        rs.contains(x),
        0 <= j < rs.len(),
        rs[j].id == x.id,
    ensures
        rs[j] == x,
{
    let k = choose|k: int| 0 <= k < rs.len() && rs[k] == x;
    if j != k {
        assert(rs[j].id != rs[k].id);
    }
}

spec fn spec_role_edit_fn(id: u64, d: RoleDefinition) -> spec_fn(RemoteRole) -> RemoteRole {
    |r: RemoteRole| if r.id == id {
        spec_edited_role(r, d)
    } else {
        r
    }
}

proof fn lemma_edit_role_list_groups(rs: Seq<RemoteRole>, id: u64, d: RoleDefinition, name: Seq<char>)
    requires
        forall|j: int| 0 <= j < rs.len() && (#[trigger] rs[j]).id == id ==> rs[j].name@ == d.name@,
    ensures
        name == d.name@ ==> spec_roles_named(spec_edit_role_list(rs, id, d), name)
            == spec_roles_named(rs, name).map_values(spec_role_edit_fn(id, d)),
        name != d.name@ ==> spec_roles_named(spec_edit_role_list(rs, id, d), name)
            == spec_roles_named(rs, name),
    decreases rs.len(),
{
    let f = spec_role_edit_fn(id, d);
    if rs.len() == 0 {
        assert(spec_edit_role_list(rs, id, d) =~= Seq::<RemoteRole>::empty());
        assert(spec_roles_named(rs, name).map_values(f) =~= spec_roles_named(rs, name));
    } else {
        let dl = rs.drop_last();
        let last = rs.last();
        lemma_edit_role_list_groups(dl, id, d, name);
        assert(spec_edit_role_list(rs, id, d) =~= spec_edit_role_list(dl, id, d).push(f(last)));
        assert(spec_edit_role_list(dl, id, d).push(f(last)).drop_last()
            =~= spec_edit_role_list(dl, id, d));
        if last.name@ == name {
            assert(spec_roles_named(dl, name).push(last).drop_last() =~= spec_roles_named(dl, name));
            assert(spec_roles_named(rs, name) == spec_roles_named(dl, name).push(last));
            if name == d.name@ {
                assert(f(last).name@ == name);
                assert(spec_roles_named(spec_edit_role_list(rs, id, d), name)
                    == spec_roles_named(spec_edit_role_list(dl, id, d), name).push(f(last)));
                assert(spec_roles_named(dl, name).push(last).map_values(f)
                    =~= spec_roles_named(dl, name).map_values(f).push(f(last)));
            } else {
                assert(f(last) == last);
                assert(spec_roles_named(spec_edit_role_list(rs, id, d), name)
                    == spec_roles_named(spec_edit_role_list(dl, id, d), name).push(last));
            }
        } else {
            if last.id == id {
                assert(f(last).name@ == d.name@);
                if name == d.name@ {
                    assert(last.name@ == d.name@);
                }
                assert(f(last).name@ != name);
            } else {
                assert(f(last) == last);
            }
            assert(spec_roles_named(spec_edit_role_list(rs, id, d), name)
                == spec_roles_named(spec_edit_role_list(dl, id, d), name));
            assert(spec_roles_named(rs, name) == spec_roles_named(dl, name));
        }
    }
}

/// The deletions of a whole id list, applied front to back.
spec fn spec_roles_without_ids(s: Seq<RemoteRole>, ids: Seq<u64>) -> Seq<RemoteRole>
    decreases ids.len(),
{
    if ids.len() == 0 {
        s
    } else {
        spec_roles_without_ids(spec_roles_without(s, ids.first()), ids.drop_first())
    }
}

proof fn lemma_role_creates_all_deletes(a: Seq<RoleAction>)
    requires
        forall|k: int| 0 <= k < a.len() ==> (#[trigger] a[k]) is Delete,
    ensures
        spec_role_creates(a) == 0,
    decreases a.len(),
{
    if a.len() == 0 {
    } else {
        assert(a.first() == a[0]);
        assert(forall|k: int| 0 <= k < a.drop_first().len() ==> (#[trigger] a.drop_first()[k]) is Delete);
        lemma_role_creates_all_deletes(a.drop_first());
    }
}

proof fn lemma_apply_role_delete_ids(s: Seq<RemoteRole>, ids: Seq<u64>, f: Seq<u64>)
    ensures
        spec_apply_role_actions(s, Seq::new(ids.len(), |k: int| RoleAction::Delete(ids[k])), f)
            == spec_roles_without_ids(s, ids),
    decreases ids.len(),
{
    let acts = Seq::new(ids.len(), |k: int| RoleAction::Delete(ids[k]));
    if ids.len() == 0 {
    } else {
        assert(acts.first() == RoleAction::Delete(ids[0]));
        assert(acts.drop_first() =~= Seq::new(
            ids.drop_first().len(),
            |k: int| RoleAction::Delete(ids.drop_first()[k]),
        ));
        lemma_apply_role_delete_ids(spec_roles_without(s, ids.first()), ids.drop_first(), f);
    }
}

proof fn lemma_roles_without_ids_membership(s: Seq<RemoteRole>, ids: Seq<u64>)
    ensures
        forall|x: RemoteRole| #[trigger] spec_roles_without_ids(s, ids).contains(x)
            <==> (s.contains(x) && !ids.contains(x.id)),
    decreases ids.len(),
{
    if ids.len() == 0 {
        assert forall|x: RemoteRole| #[trigger] spec_roles_without_ids(s, ids).contains(x)
            <==> (s.contains(x) && !ids.contains(x.id)) by {
            assert(!ids.contains(x.id));
        }
    } else {
        lemma_roles_without_membership(s, ids.first());
        lemma_roles_without_ids_membership(spec_roles_without(s, ids.first()), ids.drop_first());
        assert forall|x: RemoteRole| #[trigger] spec_roles_without_ids(s, ids).contains(x)
            <==> (s.contains(x) && !ids.contains(x.id)) by {
            assert(spec_roles_without_ids(s, ids) == spec_roles_without_ids(
                spec_roles_without(s, ids.first()),
                ids.drop_first(),
            ));
            assert(spec_roles_without_ids(
                spec_roles_without(s, ids.first()),
                ids.drop_first(),
            ).contains(x) <==> (spec_roles_without(s, ids.first()).contains(x)
                && !ids.drop_first().contains(x.id)));
            assert(ids.contains(x.id) <==> (ids.first() == x.id || ids.drop_first().contains(
                x.id,
            ))) by {
                if ids.contains(x.id) {
                    let k = choose|k: int| 0 <= k < ids.len() && ids[k] == x.id;
                    if k > 0 {
                        assert(ids.drop_first()[k - 1] == x.id);
                    }
                } else {
                    if ids.drop_first().contains(x.id) {
                        let k = choose|k: int| 0 <= k < ids.drop_first().len()
                            && ids.drop_first()[k] == x.id;
                        assert(ids[k + 1] == x.id);
                    }
                }
            }
        }
    }
}

proof fn lemma_roles_without_ids_groups(s: Seq<RemoteRole>, ids: Seq<u64>, name: Seq<char>)
    ensures
        spec_roles_named(spec_roles_without_ids(s, ids), name) == spec_roles_without_ids(
            spec_roles_named(s, name),
            ids,
        ),
    decreases ids.len(),
{
    if ids.len() == 0 {
    } else {
        lemma_roles_named_without_commute(s, ids.first(), name);
        lemma_roles_without_ids_groups(spec_roles_without(s, ids.first()), ids.drop_first(), name);
    }
}

proof fn lemma_roles_without_ids_absent(s: Seq<RemoteRole>, ids: Seq<u64>)
    requires
        forall|j: int| 0 <= j < s.len() ==> !ids.contains((#[trigger] s[j]).id),
    ensures
        spec_roles_without_ids(s, ids) == s,
    decreases ids.len(),
{
    if ids.len() == 0 {
    } else {
        assert forall|j: int| 0 <= j < s.len() implies (#[trigger] s[j]).id != ids.first() by {
            assert(!ids.contains(s[j].id));
        }
        lemma_roles_without_absent(s, ids.first());
        assert forall|j: int| 0 <= j < s.len() implies !ids.drop_first().contains(
            (#[trigger] s[j]).id,
        ) by {
            if ids.drop_first().contains(s[j].id) {
                let k = choose|k: int| 0 <= k < ids.drop_first().len() && ids.drop_first()[k]
                    == s[j].id;
                assert(ids[k + 1] == s[j].id);
                assert(ids.contains(s[j].id));
            }
        }
        lemma_roles_without_ids_absent(s, ids.drop_first());
    }
}

proof fn lemma_roles_without_ids_distinct(s: Seq<RemoteRole>, ids: Seq<u64>)
    requires
        spec_role_ids_distinct(s),
    ensures
        spec_role_ids_distinct(spec_roles_without_ids(s, ids)),
        forall|x: u64| spec_role_id_present(spec_roles_without_ids(s, ids), x)
            ==> spec_role_id_present(s, x),
    decreases ids.len(),
{
    if ids.len() == 0 {
    } else {
        lemma_roles_without_distinct(s, ids.first());
        lemma_roles_without_ids_distinct(spec_roles_without(s, ids.first()), ids.drop_first());
    }
}

/// The state one definition's action group leaves behind.
spec fn spec_role_group_state(rs: Seq<RemoteRole>, s: Seq<RemoteRole>, d: RoleDefinition, f: Seq<u64>) -> Seq<RemoteRole> {
    spec_apply_role_actions(s, spec_role_actions_for(rs, d), f)
}

proof fn lemma_role_group_apply(rs: Seq<RemoteRole>, s: Seq<RemoteRole>, d: RoleDefinition, f: Seq<u64>)
    requires
        spec_roles_named(s, d.name@) == spec_roles_named(rs, d.name@),
        spec_role_ids_distinct(s),
        f.len() >= spec_role_creates(spec_role_actions_for(rs, d)),
        spec_role_creates(spec_role_actions_for(rs, d)) >= 1 ==> !spec_role_id_present(s, f[0]),
    ensures
        spec_role_creates(spec_role_actions_for(rs, d)) <= 1,
        spec_roles_named(spec_role_group_state(rs, s, d, f), d.name@).len() == 1,
        spec_role_synced(spec_roles_named(spec_role_group_state(rs, s, d, f), d.name@)[0], d),
        forall|n: Seq<char>| n != d.name@ ==> #[trigger] spec_roles_named(
            spec_role_group_state(rs, s, d, f),
            n,
        ) == spec_roles_named(s, n),
        spec_role_ids_distinct(spec_role_group_state(rs, s, d, f)),
        forall|x: u64| spec_role_id_present(spec_role_group_state(rs, s, d, f), x)
            ==> spec_role_id_present(s, x) || (spec_role_creates(spec_role_actions_for(rs, d)) >= 1
                && x == f[0]),
        forall|j: int| 0 <= j < spec_role_group_state(rs, s, d, f).len()
            ==> s.contains(#[trigger] spec_role_group_state(rs, s, d, f)[j])
                || (spec_role_creates(spec_role_actions_for(rs, d)) >= 1
                    && spec_role_group_state(rs, s, d, f)[j].id == f[0])
                || (exists|r: RemoteRole| s.contains(r) && r.name@ == d.name@
                    && spec_role_group_state(rs, s, d, f)[j] == spec_edited_role(r, d)),
{
    let m = spec_roles_named(rs, d.name@);
    let acts = spec_role_actions_for(rs, d);
    let s2 = spec_role_group_state(rs, s, d, f);
    lemma_roles_named_membership(s, d.name@);
    if m.len() == 1 && spec_role_synced(m[0], d) {
        assert(acts == Seq::<RoleAction>::empty());
        assert(s2 == s);
    } else if m.len() == 1 {
        let m0 = m[0];
        assert(m.contains(m0));
        assert(s.contains(m0) && m0.name@ == d.name@);
        assert(acts == seq![RoleAction::Edit(m0.id, d)]);
        assert(acts.first() == RoleAction::Edit(m0.id, d));
        assert(acts.drop_first().len() == 0);
        assert(spec_role_creates(acts.drop_first()) == 0);
        assert(spec_role_creates(acts) == 0);
        let edited = spec_edit_role_list(s, m0.id, d);
        assert(spec_apply_role_actions(edited, acts.drop_first(), f) == edited);
        assert(s2 == edited);
        assert forall|j: int| 0 <= j < s.len() && (#[trigger] s[j]).id == m0.id implies s[j].name@
            == d.name@ by {
            lemma_role_unique_id(s, m0, j);
        }
        let fedit = spec_role_edit_fn(m0.id, d);
        assert forall|n: Seq<char>| n != d.name@ implies #[trigger] spec_roles_named(s2, n)
            == spec_roles_named(s, n) by {
            lemma_edit_role_list_groups(s, m0.id, d, n);
        }
        lemma_edit_role_list_groups(s, m0.id, d, d.name@);
        assert(spec_roles_named(s2, d.name@) == m.map_values(fedit));
        assert(m.map_values(fedit)[0] == fedit(m0));
        assert(fedit(m0) == spec_edited_role(m0, d));
        assert(spec_role_synced(spec_edited_role(m0, d), d));
        assert(spec_roles_named(s2, d.name@).len() == 1);
        // ids are untouched by an edit
        assert(forall|j: int| 0 <= j < s.len() ==> (#[trigger] edited[j]).id == s[j].id);
        assert(spec_role_ids_distinct(s2));
        assert forall|x: u64| spec_role_id_present(s2, x) implies spec_role_id_present(s, x) by {
            let j = choose|j: int| 0 <= j < s2.len() && s2[j].id == x;
            assert(s[j].id == x);
        }
        assert forall|j: int| 0 <= j < s2.len() implies s.contains(#[trigger] s2[j])
            || (spec_role_creates(acts) >= 1 && s2[j].id == f[0]) || (exists|r: RemoteRole| s.contains(
            r,
        ) && r.name@ == d.name@ && s2[j] == spec_edited_role(r, d)) by {
            assert(s2[j] == fedit(s[j]));
            if s[j].id == m0.id {
                lemma_role_unique_id(s, m0, j);
                assert(s2[j] == spec_edited_role(m0, d));
                assert(s.contains(m0) && m0.name@ == d.name@);
            } else {
                assert(s2[j] == s[j]);
                assert(s.contains(s[j]));
            }
        }
    } else {
        let ids = Seq::new(m.len(), |k: int| m[k].id);
        let da = Seq::new(m.len(), |k: int| RoleAction::Delete(m[k].id));
        assert(da =~= Seq::new(ids.len(), |k: int| RoleAction::Delete(ids[k])));
        assert(acts == da.push(RoleAction::Create(d)));
        assert(da.push(RoleAction::Create(d)) =~= da + seq![RoleAction::Create(d)]);
        lemma_role_creates_all_deletes(da);
        lemma_role_creates_concat(da, seq![RoleAction::Create(d)]);
        assert(spec_role_creates(seq![RoleAction::Create(d)]) == 1) by {
            let ca = seq![RoleAction::Create(d)];
            assert(ca.first() == RoleAction::Create(d));
            assert(ca.drop_first().len() == 0);
            assert(spec_role_creates(ca.drop_first()) == 0);
        }
        assert(spec_role_creates(acts) == 1);
        lemma_apply_role_actions_concat(s, da, seq![RoleAction::Create(d)], f);
        lemma_apply_role_delete_ids(s, ids, f);
        let deleted = spec_roles_without_ids(s, ids);
        assert(f.skip(0) =~= f);
        assert(s2 == spec_apply_role_actions(deleted, seq![RoleAction::Create(d)], f));
        let created = spec_created_role(d, f.first());
        assert(s2 == deleted.push(created)) by {
            let ca = seq![RoleAction::Create(d)];
            assert(ca.first() == RoleAction::Create(d));
            assert(ca.drop_first().len() == 0);
            assert(spec_apply_role_actions(deleted.push(created), ca.drop_first(), f.drop_first())
                == deleted.push(created));
        }
        assert(f.first() == f[0]);
        // the deletions empty the definition's own name group
        lemma_roles_without_ids_groups(s, ids, d.name@);
        lemma_roles_without_ids_membership(m, ids);
        assert(spec_roles_without_ids(m, ids).len() == 0) by {
            if spec_roles_without_ids(m, ids).len() > 0 {
                let y = spec_roles_without_ids(m, ids)[0];
                assert(spec_roles_without_ids(m, ids).contains(y));
                assert(m.contains(y) && !ids.contains(y.id));
                let k = choose|k: int| 0 <= k < m.len() && m[k] == y;
                assert(ids[k] == y.id);
            }
        }
        assert(spec_roles_without_ids(m, ids) =~= Seq::<RemoteRole>::empty());
        assert(spec_roles_named(deleted, d.name@) == Seq::<RemoteRole>::empty());
        assert(spec_roles_named(s2, d.name@) == seq![created]) by {
            assert(deleted.push(created).drop_last() =~= deleted);
            assert(created.name@ == d.name@);
            assert(Seq::<RemoteRole>::empty().push(created) =~= seq![created]);
        }
        assert(spec_role_synced(created, d));
        // other name groups are untouched
        assert forall|n: Seq<char>| n != d.name@ implies #[trigger] spec_roles_named(s2, n)
            == spec_roles_named(s, n) by {
            lemma_roles_without_ids_groups(s, ids, n);
            lemma_roles_named_membership(s, n);
            let g = spec_roles_named(s, n);
            assert forall|j: int| 0 <= j < g.len() implies !ids.contains((#[trigger] g[j]).id) by {
                if ids.contains(g[j].id) {
                    let k = choose|k: int| 0 <= k < ids.len() && ids[k] == g[j].id;
                    assert(m[k].id == g[j].id);
                    assert(m.contains(m[k]));
                    assert(s.contains(m[k]) && m[k].name@ == d.name@) by {
                        lemma_roles_named_membership(s, d.name@);
                    }
                    assert(g.contains(g[j]));
                    assert(s.contains(g[j]) && g[j].name@ == n);
                    let jj = choose|jj: int| 0 <= jj < s.len() && s[jj] == g[j];
                    lemma_role_unique_id(s, m[k], jj);
                    assert(g[j] == m[k]);
                }
            }
            lemma_roles_without_ids_absent(g, ids);
            assert(spec_roles_named(deleted, n) == g);
            assert(deleted.push(created).drop_last() =~= deleted);
            assert(created.name@ != n);
            assert(spec_roles_named(s2, n) == spec_roles_named(deleted, n));
        }
        // id bookkeeping
        lemma_roles_without_ids_distinct(s, ids);
        assert(spec_role_ids_distinct(s2)) by {
            assert forall|i: int, j: int| 0 <= i < j < s2.len() implies (#[trigger] s2[i]).id
                != (#[trigger] s2[j]).id by {
                if j == s2.len() - 1 {
                    assert(s2[j] == created);
                    assert(s2[i] == deleted[i]);
                    assert(deleted.contains(deleted[i]));
                    if deleted[i].id == f[0] {
                        assert(spec_role_id_present(deleted, f[0]));
                        assert(spec_role_id_present(s, f[0]));
                    }
                }
            }
        }
        assert forall|x: u64| spec_role_id_present(s2, x) implies spec_role_id_present(s, x)
            || (spec_role_creates(acts) >= 1 && x == f[0]) by {
            let j = choose|j: int| 0 <= j < s2.len() && s2[j].id == x;
            if j < s2.len() - 1 {
                assert(spec_role_id_present(deleted, x));
            }
        }
        assert forall|j: int| 0 <= j < s2.len() implies s.contains(#[trigger] s2[j])
            || (spec_role_creates(acts) >= 1 && s2[j].id == f[0]) || (exists|r: RemoteRole| s.contains(
            r,
        ) && r.name@ == d.name@ && s2[j] == spec_edited_role(r, d)) by {
            if j < s2.len() - 1 {
                assert(s2[j] == deleted[j]);
                assert(deleted.contains(deleted[j]));
                lemma_roles_without_ids_membership(s, ids);
                assert(s.contains(s2[j]));
            } else {
                assert(s2[j] == created);
            }
        }
    }
}

/// The remote state after the per-definition pass.
spec fn spec_role_sync_state(defs: Seq<RoleDefinition>, rs: Seq<RemoteRole>, f: Seq<u64>) -> Seq<RemoteRole> {
    spec_apply_role_actions(rs, spec_role_sync_actions(defs, rs), f)
}

/// The fresh ids are pairwise distinct and collide with no remote id.
pub open spec fn spec_fresh_ids_ok(rs: Seq<RemoteRole>, f: Seq<u64>) -> bool {
    &&& forall|i: int, j: int| 0 <= i < j < f.len() ==> f[i] != f[j]
    &&& forall|i: int| 0 <= i < f.len() ==> !spec_role_id_present(rs, #[trigger] f[i])
}

proof fn lemma_role_sync_phase(defs: Seq<RoleDefinition>, rs: Seq<RemoteRole>, f: Seq<u64>)
    requires
        spec_role_names_unique(defs),
        spec_role_ids_distinct(rs),
        spec_fresh_ids_ok(rs, f),
        f.len() >= spec_role_creates(spec_role_sync_actions(defs, rs)),
    ensures
        forall|i: int| 0 <= i < defs.len() ==> (#[trigger] spec_roles_named(
            spec_role_sync_state(defs, rs, f),
            defs[i].name@,
        )).len() == 1,
        forall|i: int| 0 <= i < defs.len() ==> spec_role_synced(
            (#[trigger] spec_roles_named(spec_role_sync_state(defs, rs, f), defs[i].name@))[0],
            defs[i],
        ),
        forall|n: Seq<char>| (forall|i: int| 0 <= i < defs.len() ==> (#[trigger] defs[i].name)@ != n)
            ==> #[trigger] spec_roles_named(spec_role_sync_state(defs, rs, f), n)
                == spec_roles_named(rs, n),
        spec_role_ids_distinct(spec_role_sync_state(defs, rs, f)),
        forall|x: u64| spec_role_id_present(spec_role_sync_state(defs, rs, f), x)
            ==> spec_role_id_present(rs, x) || f.take(
                spec_role_creates(spec_role_sync_actions(defs, rs)) as int,
            ).contains(x),
        forall|j: int, k: int| 0 <= j < spec_role_sync_state(defs, rs, f).len() && 0 <= k < rs.len()
            && (#[trigger] spec_role_sync_state(defs, rs, f)[j]).id == (#[trigger] rs[k]).id
            && !spec_role_name_defined(defs, rs[k].name@)
            ==> spec_role_sync_state(defs, rs, f)[j] == rs[k],
    decreases defs.len(),
{
    if defs.len() == 0 {
        assert(spec_role_sync_state(defs, rs, f) == rs);
        assert forall|j: int, k: int| 0 <= j < rs.len() && 0 <= k < rs.len() && (#[trigger] rs[j]).id
            == (#[trigger] rs[k]).id && !spec_role_name_defined(defs, rs[k].name@) implies rs[j]
            == rs[k] by {
            if j != k {
                assert(rs[j].id != rs[k].id);
            }
        }
    } else {
        let dl = defs.drop_last();
        let last = defs.last();
        let sync_dl = spec_role_sync_actions(dl, rs);
        let group_acts = spec_role_actions_for(rs, last);
        let cp = spec_role_creates(sync_dl);
        let cg = spec_role_creates(group_acts);
        let c = spec_role_creates(spec_role_sync_actions(defs, rs));
        assert(spec_role_sync_actions(defs, rs) == sync_dl + group_acts);
        lemma_role_creates_concat(sync_dl, group_acts);
        assert(c == cp + cg);
        lemma_role_sync_phase(dl, rs, f);
        let sp = spec_role_sync_state(dl, rs, f);
        lemma_apply_role_actions_concat(rs, sync_dl, group_acts, f);
        let fg = f.skip(cp as int);
        let s2 = spec_role_sync_state(defs, rs, f);
        assert(s2 == spec_apply_role_actions(sp, group_acts, fg));
        assert(s2 == spec_role_group_state(rs, sp, last, fg));

        // the last definition's name is fresh among the earlier ones
        assert forall|i: int| 0 <= i < dl.len() implies (#[trigger] dl[i].name)@ != last.name@ by {
            assert(defs[i] == dl[i]);
            assert(defs[defs.len() - 1] == last);
        }
        assert(spec_roles_named(sp, last.name@) == spec_roles_named(rs, last.name@));
        assert(fg.len() >= cg);
        if cg >= 1 {
            assert(fg[0] == f[cp as int]);
            assert(!spec_role_id_present(sp, f[cp as int])) by {
                if spec_role_id_present(sp, f[cp as int]) {
                    if f.take(cp as int).contains(f[cp as int]) {
                        let k = choose|k: int| 0 <= k < cp && f.take(cp as int)[k] == f[cp as int];
                        assert(f[k] == f[cp as int]);
                    }
                }
            }
        }
        lemma_role_group_apply(rs, sp, last, fg);

        assert forall|i: int| 0 <= i < defs.len() implies (#[trigger] spec_roles_named(
            s2,
            defs[i].name@,
        )).len() == 1 && spec_role_synced(spec_roles_named(s2, defs[i].name@)[0], defs[i]) by {
            if i < defs.len() - 1 {
                assert(defs[i] == dl[i]);
                assert(defs[i].name@ != last.name@);
                assert(spec_roles_named(s2, defs[i].name@) == spec_roles_named(sp, defs[i].name@));
            } else {
                assert(defs[i] == last);
            }
        }
        assert forall|n: Seq<char>| (forall|i: int| 0 <= i < defs.len() ==> (#[trigger] defs[i].name)@
            != n) implies #[trigger] spec_roles_named(s2, n) == spec_roles_named(rs, n) by {
            assert(defs[defs.len() - 1] == last);
            assert(last.name@ != n);
            assert(forall|i: int| 0 <= i < dl.len() ==> (#[trigger] dl[i].name)@ != n) by {
                assert(forall|i: int| 0 <= i < dl.len() ==> dl[i] == defs[i]);
            }
            assert(spec_roles_named(s2, n) == spec_roles_named(sp, n));
        }
        assert forall|x: u64| spec_role_id_present(s2, x) implies spec_role_id_present(rs, x)
            || f.take(c as int).contains(x) by {
            if spec_role_id_present(sp, x) {
                if f.take(cp as int).contains(x) {
                    let k = choose|k: int| 0 <= k < cp && f.take(cp as int)[k] == x;
                    assert(f.take(c as int)[k] == x);
                }
            } else {
                assert(cg >= 1 && x == fg[0]);
                assert(x == f[cp as int]);
                assert(f.take(c as int)[cp as int] == x);
            }
        }
        assert forall|j: int, k: int| 0 <= j < s2.len() && 0 <= k < rs.len() && (#[trigger] s2[j]).id
            == (#[trigger] rs[k]).id && !spec_role_name_defined(defs, rs[k].name@) implies s2[j]
            == rs[k] by {
            assert(!spec_role_name_defined(dl, rs[k].name@)) by {
                if spec_role_name_defined(dl, rs[k].name@) {
                    let i = choose|i: int| 0 <= i < dl.len() && (#[trigger] dl[i].name)@
                        == rs[k].name@;
                    assert(defs[i].name@ == rs[k].name@);
                }
            }
            assert(last.name@ != rs[k].name@) by {
                assert(defs[defs.len() - 1] == last);
            }
            if sp.contains(s2[j]) {
                let jj = choose|jj: int| 0 <= jj < sp.len() && sp[jj] == s2[j];
            } else if s2[j].id == fg[0] && cg >= 1 {
                // a fresh id never collides with a remote one
                assert(!spec_role_id_present(rs, fg[0])) by {
                    assert(fg[0] == f[cp as int]);
                }
            } else if exists|r: RemoteRole| sp.contains(r) && r.name@ == last.name@ && s2[j]
                == spec_edited_role(r, last) {
                let r = choose|r: RemoteRole| sp.contains(r) && r.name@ == last.name@ && s2[j]
                    == spec_edited_role(r, last);
                let jj = choose|jj: int| 0 <= jj < sp.len() && sp[jj] == r;
                assert(sp[jj].id == rs[k].id);
                assert(sp[jj] == rs[k]);
                assert(r.name@ == rs[k].name@);
            } else {
                assert(cg >= 1 ==> s2[j].id != fg[0]);
                assert(false);
            }
        }
    }
}

proof fn lemma_role_cleanup_all_deletes(defs: Seq<RoleDefinition>, rs_c: Seq<RemoteRole>)
    ensures
        forall|k: int| 0 <= k < spec_role_cleanup_actions(defs, rs_c).len()
            ==> (#[trigger] spec_role_cleanup_actions(defs, rs_c)[k]) is Delete,
        spec_role_creates(spec_role_cleanup_actions(defs, rs_c)) == 0,
    decreases rs_c.len(),
{
    if rs_c.len() == 0 {
    } else {
        lemma_role_cleanup_all_deletes(defs, rs_c.drop_last());
    }
    lemma_role_creates_all_deletes(spec_role_cleanup_actions(defs, rs_c));
}

proof fn lemma_role_cleanup_phase(defs: Seq<RoleDefinition>, rs_c: Seq<RemoteRole>, s: Seq<RemoteRole>, f: Seq<u64>)
    requires
        spec_role_ids_distinct(s),
        forall|j: int, k: int| 0 <= j < s.len() && 0 <= k < rs_c.len() && (#[trigger] s[j]).id
            == (#[trigger] rs_c[k]).id && !spec_role_name_defined(defs, rs_c[k].name@) ==> s[j]
            == rs_c[k],
    ensures
        forall|n: Seq<char>| spec_role_name_defined(defs, n) ==> #[trigger] spec_roles_named(
            spec_apply_role_actions(s, spec_role_cleanup_actions(defs, rs_c), f),
            n,
        ) == spec_roles_named(s, n),
        forall|x: RemoteRole| #[trigger] spec_apply_role_actions(
            s,
            spec_role_cleanup_actions(defs, rs_c),
            f,
        ).contains(x) ==> s.contains(x),
        forall|k: int| 0 <= k < rs_c.len() && !spec_role_name_defined(
            defs,
            (#[trigger] rs_c[k]).name@,
        ) && !spec_role_protected(rs_c[k]) ==> !spec_role_id_present(
            spec_apply_role_actions(s, spec_role_cleanup_actions(defs, rs_c), f),
            rs_c[k].id,
        ),
    decreases rs_c.len(),
{
    let acts = spec_role_cleanup_actions(defs, rs_c);
    let out = spec_apply_role_actions(s, acts, f);
    if rs_c.len() == 0 {
        assert(out == s);
    } else {
        let dl = rs_c.drop_last();
        let last = rs_c.last();
        let prev_acts = spec_role_cleanup_actions(defs, dl);
        lemma_role_cleanup_phase(defs, dl, s, f);
        let mid = spec_apply_role_actions(s, prev_acts, f);
        lemma_role_cleanup_all_deletes(defs, dl);
        if !spec_role_name_defined(defs, last.name@) && !spec_role_protected(last) {
            assert(acts == prev_acts.push(RoleAction::Delete(last.id)));
            assert(prev_acts.push(RoleAction::Delete(last.id)) =~= prev_acts + seq![
                RoleAction::Delete(last.id),
            ]);
            lemma_apply_role_actions_concat(s, prev_acts, seq![RoleAction::Delete(last.id)], f);
            let fd = f.skip(0);
            assert(fd =~= f);
            let da = seq![RoleAction::Delete(last.id)];
            assert(da.first() == RoleAction::Delete(last.id));
            assert(da.drop_first().len() == 0);
            let removed = spec_roles_without(mid, last.id);
            assert(spec_apply_role_actions(removed, da.drop_first(), f) == removed);
            assert(out == removed);
            lemma_roles_without_membership(mid, last.id);
            // groups of desired names do not hold the removed id
            assert forall|n: Seq<char>| spec_role_name_defined(defs, n) implies #[trigger] spec_roles_named(
                out,
                n,
            ) == spec_roles_named(s, n) by {
                lemma_roles_named_without_commute(mid, last.id, n);
                let g = spec_roles_named(mid, n);
                lemma_roles_named_membership(mid, n);
                assert forall|j: int| 0 <= j < g.len() implies (#[trigger] g[j]).id != last.id by {
                    assert(g.contains(g[j]));
                    assert(mid.contains(g[j]));
                    assert(s.contains(g[j]));
                    let jj = choose|jj: int| 0 <= jj < s.len() && s[jj] == g[j];
                    if s[jj].id == last.id {
                        assert(s[jj] == last);
                        assert(g[j].name@ == n);
                        assert(spec_role_name_defined(defs, last.name@));
                    }
                }
                lemma_roles_without_absent(g, last.id);
            }
            assert forall|x: RemoteRole| #[trigger] out.contains(x) implies s.contains(x) by {
                assert(mid.contains(x));
            }
            assert forall|k: int| 0 <= k < rs_c.len() && !spec_role_name_defined(
                defs,
                (#[trigger] rs_c[k]).name@,
            ) && !spec_role_protected(rs_c[k]) implies !spec_role_id_present(out, rs_c[k].id) by {
                if k == rs_c.len() - 1 {
                    if spec_role_id_present(out, last.id) {
                        let j = choose|j: int| 0 <= j < out.len() && out[j].id == last.id;
                        assert(out.contains(out[j]));
                    }
                } else {
                    assert(rs_c[k] == dl[k]);
                    if spec_role_id_present(out, rs_c[k].id) {
                        let j = choose|j: int| 0 <= j < out.len() && out[j].id == rs_c[k].id;
                        assert(out.contains(out[j]));
                        assert(mid.contains(out[j]));
                        let jj = choose|jj: int| 0 <= jj < mid.len() && mid[jj] == out[j];
                        assert(spec_role_id_present(mid, rs_c[k].id));
                    }
                }
            }
        } else {
            assert(acts == prev_acts);
            assert(out == mid);
            assert forall|k: int| 0 <= k < rs_c.len() && !spec_role_name_defined(
                defs,
                (#[trigger] rs_c[k]).name@,
            ) && !spec_role_protected(rs_c[k]) implies !spec_role_id_present(out, rs_c[k].id) by {
                if k < rs_c.len() - 1 {
                    assert(rs_c[k] == dl[k]);
                }
            }
        }
    }
}

/// Convergence, from any remote state: executing the whole plan in order
/// leaves remote roles that agree with the definitions, provided the
/// desired names are unique, remote ids are distinct, and the platform
/// assigns fresh ids that collide with nothing.
pub proof fn lemma_role_plan_converges(defs: Seq<RoleDefinition>, rs: Seq<RemoteRole>, fresh: Seq<u64>)
    requires
        spec_role_names_unique(defs),
        spec_role_ids_distinct(rs),
        spec_fresh_ids_ok(rs, fresh),
        fresh.len() >= spec_role_creates(spec_role_plan(defs, rs)),
    ensures
        spec_roles_converged(defs, spec_apply_role_actions(rs, spec_role_plan(defs, rs), fresh)),
{
    let sync = spec_role_sync_actions(defs, rs);
    let cleanup = spec_role_cleanup_actions(defs, rs);
    let c = spec_role_creates(sync);
    lemma_role_creates_concat(sync, cleanup);
    lemma_role_cleanup_all_deletes(defs, rs);
    assert(spec_role_creates(spec_role_plan(defs, rs)) == c);
    lemma_apply_role_actions_concat(rs, sync, cleanup, fresh);
    lemma_role_sync_phase(defs, rs, fresh);
    let s = spec_role_sync_state(defs, rs, fresh);
    let fc = fresh.skip(c as int);
    let final_state = spec_apply_role_actions(rs, spec_role_plan(defs, rs), fresh);
    assert(final_state == spec_apply_role_actions(s, cleanup, fc));
    lemma_role_cleanup_phase(defs, rs, s, fc);

    assert forall|i: int| 0 <= i < defs.len() implies (#[trigger] spec_roles_named(
        final_state,
        defs[i].name@,
    )).len() == 1 && spec_role_synced(spec_roles_named(final_state, defs[i].name@)[0], defs[i]) by {
        assert(spec_role_name_defined(defs, defs[i].name@));
        assert(spec_roles_named(final_state, defs[i].name@) == spec_roles_named(s, defs[i].name@));
    }
    assert forall|j: int| 0 <= j < final_state.len() implies spec_role_name_defined(
        defs,
        (#[trigger] final_state[j]).name@,
    ) || spec_role_protected(final_state[j]) by {
        let x = final_state[j];
        assert(final_state.contains(x));
        assert(s.contains(x));
        if !spec_role_name_defined(defs, x.name@) {
            lemma_roles_named_membership(s, x.name@);
            assert(spec_roles_named(s, x.name@).contains(x));
            assert(spec_roles_named(s, x.name@) == spec_roles_named(rs, x.name@)) by {
                assert(forall|i: int| 0 <= i < defs.len() ==> (#[trigger] defs[i].name)@ != x.name@);
            }
            lemma_roles_named_membership(rs, x.name@);
            assert(rs.contains(x));
            let k = choose|k: int| 0 <= k < rs.len() && rs[k] == x;
            if !spec_role_protected(x) {
                assert(!spec_role_id_present(final_state, rs[k].id));
                assert(final_state[j].id == rs[k].id);
            }
        }
    }
}

/// Idempotence, from any remote state: after one successful run, a second
/// run with the same definitions plans no mutating call at all.
pub proof fn lemma_role_reconciliation_idempotent(defs: Seq<RoleDefinition>, rs: Seq<RemoteRole>, fresh: Seq<u64>)
    requires
        spec_role_names_unique(defs),
        spec_role_ids_distinct(rs),
        spec_fresh_ids_ok(rs, fresh),
        fresh.len() >= spec_role_creates(spec_role_plan(defs, rs)),
    ensures
        spec_role_plan(defs, spec_apply_role_actions(rs, spec_role_plan(defs, rs), fresh))
            == Seq::<RoleAction>::empty(),
{
    lemma_role_plan_converges(defs, rs, fresh);
    lemma_converged_role_plan_empty(
        defs,
        spec_apply_role_actions(rs, spec_role_plan(defs, rs), fresh),
    );
}

/// Whether the role is one of the teams' roles.
pub fn is_team_role(teams: &Vec<Team>, role: &RemoteRole) -> (r: bool)
    ensures
        r == exists|i: int| 0 <= i < teams@.len() && #[trigger] teams@[i].role_name@ == role.name@,
{
    let mut i: usize = 0;
    while i < teams.len()
        invariant
            0 <= i <= teams@.len(),
            forall|j: int| 0 <= j < i ==> #[trigger] teams@[j].role_name@ != role.name@,
        decreases teams@.len() - i,
    {
        if teams[i].role_name == role.name {
            return true;
        }
        i = i + 1;
    }
    false
}

} // verus!
