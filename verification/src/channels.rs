//! The channel reconciler: diffs desired channel definitions (categories
//! or leaf channels) against the observed remote channels and plans the
//! create / edit / delete sequence that converges them.
//!
//! Matching is by `(name, parent category)`.  Categories carry no parent,
//! so for the category tier this degenerates to matching by name, which
//! lets same-named leaf channels exist under different categories (every
//! team has its own text and voice pair).  Unlike roles, channels have no
//! protected entities: cleanup may delete anything in its tier.

use vstd::prelude::*;
use vstd::string::StringExecFns;

use crate::error::{Error, SystemError};
use crate::models::Team;
use crate::permissions::{spec_overwrite_sets_equal, check_overwrite_sets_equal,
    lemma_overwrite_sets_equal_permutation, spec_permissions_for_readonly_channel_member,
    spec_permissions_for_channel_member, spec_role_overwrites_for_teams,
    spec_team_channel_overwrites, get_permission_overwrites_for_help_channel,
    get_permission_overwrites_for_announce_channel, get_permission_overwrites_for_random_channel,
    get_permission_overwrites_for_team_channel, PermissionOverwrite};
use crate::roles::{spec_first_role_named, spec_everyone_role_name, RemoteRole};

verus! {

/// The kinds of channel the reconciler manages.  Categories form the
/// upper tier; text and voice channels are leaves.
#[derive(Debug, Clone, Copy, PartialEq, Eq, Structural)]
pub enum ChannelKind {
    Category,
    Text,
    Voice,
}

/// Desired state for one channel or category.  `(name, category)` is the
/// matching key and must be unique within a tier's desired list.
#[derive(Debug, PartialEq, Eq)]
pub struct ChannelDefinition {
    pub name: String,
    pub kind: ChannelKind,
    pub topic: Option<String>,
    pub category: Option<u64>,
    pub permissions: Vec<PermissionOverwrite>,
}

/// The mathematical value of a [`ChannelDefinition`].
#[verifier::ext_equal]
pub ghost struct ChannelDefinitionView {
    pub name: Seq<char>,
    pub kind: ChannelKind,
    pub topic: Option<Seq<char>>,
    pub category: Option<u64>,
    pub permissions: Seq<PermissionOverwrite>,
}

impl View for ChannelDefinition {
    type V = ChannelDefinitionView;

    open spec fn view(&self) -> ChannelDefinitionView {
        ChannelDefinitionView {
            name: self.name@,
            kind: self.kind,
            topic: match self.topic {
                Some(t) => Some(t@),
                None => None,
            },
            category: self.category,
            permissions: self.permissions@,
        }
    }
}

impl DeepView for ChannelDefinition {
    type V = ChannelDefinitionView;

    open spec fn deep_view(&self) -> ChannelDefinitionView {
        self.view()
    }
}

/// Observed state of one remote channel.
#[derive(Debug, PartialEq, Eq)]
pub struct RemoteChannel {
    pub id: u64,
    pub name: String,
    pub kind: ChannelKind,
    pub parent_id: Option<u64>,
    pub topic: Option<String>,
    pub permission_overwrites: Vec<PermissionOverwrite>,
}

/// The mathematical value of a [`RemoteChannel`].
#[verifier::ext_equal]
pub ghost struct RemoteChannelView {
    pub id: u64,
    pub name: Seq<char>,
    pub kind: ChannelKind,
    pub parent_id: Option<u64>,
    pub topic: Option<Seq<char>>,
    pub permission_overwrites: Seq<PermissionOverwrite>,
}

impl View for RemoteChannel {
    type V = RemoteChannelView;

    open spec fn view(&self) -> RemoteChannelView {
        RemoteChannelView {
            id: self.id,
            name: self.name@,
            kind: self.kind,
            parent_id: self.parent_id,
            topic: match self.topic {
                Some(t) => Some(t@),
                None => None,
            },
            permission_overwrites: self.permission_overwrites@,
        }
    }
}

impl DeepView for RemoteChannel {
    type V = RemoteChannelView;

    open spec fn deep_view(&self) -> RemoteChannelView {
        self.view()
    }
}

/// Copies an overwrite list.
pub fn clone_overwrites(v: &Vec<PermissionOverwrite>) -> (out: Vec<PermissionOverwrite>)
    ensures
        out@ == v@,
{
    let mut out: Vec<PermissionOverwrite> = Vec::new();
    let mut i: usize = 0;
    while i < v.len()
        invariant
            0 <= i <= v@.len(),
            out@ == v@.subrange(0, i as int),
        decreases v@.len() - i,
    {
        out.push(v[i]);
        i = i + 1;
        proof {
            assert(out@ =~= v@.subrange(0, i as int));
        }
    }
    proof {
        assert(v@.subrange(0, v@.len() as int) =~= v@);
    }
    out
}

fn clone_topic(t: &Option<String>) -> (out: Option<String>)
    ensures
        out == *t,
{
    match t {
        Some(s) => Some(s.clone()),
        None => None,
    }
}

impl Clone for ChannelDefinition {
    fn clone(&self) -> (r: Self)
        ensures
            r@ == self@,
    {
        ChannelDefinition {
            name: self.name.clone(),
            kind: self.kind,
            topic: clone_topic(&self.topic),
            category: self.category,
            permissions: clone_overwrites(&self.permissions),
        }
    }
}

impl Clone for RemoteChannel {
    fn clone(&self) -> (r: Self)
        ensures
            r@ == self@,
    {
        RemoteChannel {
            id: self.id,
            name: self.name.clone(),
            kind: self.kind,
            parent_id: self.parent_id,
            topic: clone_topic(&self.topic),
            permission_overwrites: clone_overwrites(&self.permission_overwrites),
        }
    }
}

/// One mutating call against the remote platform.
#[derive(Debug, PartialEq, Eq)]
pub enum ChannelAction {
    /// Create a fresh channel from the definition.
    Create(ChannelDefinition),
    /// Edit the remote channel with this id to match the definition.
    Edit(u64, ChannelDefinition),
    /// Delete the remote channel with this id.
    Delete(u64),
}

/// The mathematical value of a [`ChannelAction`].
#[verifier::ext_equal]
pub ghost enum ChannelActionView {
    Create(ChannelDefinitionView),
    Edit(u64, ChannelDefinitionView),
    Delete(u64),
}

impl View for ChannelAction {
    type V = ChannelActionView;

    open spec fn view(&self) -> ChannelActionView {
        match self {
            ChannelAction::Create(d) => ChannelActionView::Create(d@),
            ChannelAction::Edit(id, d) => ChannelActionView::Edit(*id, d@),
            ChannelAction::Delete(id) => ChannelActionView::Delete(*id),
        }
    }
}

impl DeepView for ChannelAction {
    type V = ChannelActionView;

    open spec fn deep_view(&self) -> ChannelActionView {
        self.view()
    }
}

impl Clone for ChannelAction {
    fn clone(&self) -> (r: Self)
        ensures
            r@ == self@,
    {
        match self {
            ChannelAction::Create(d) => ChannelAction::Create(d.clone()),
            ChannelAction::Edit(id, d) => ChannelAction::Edit(*id, d.clone()),
            ChannelAction::Delete(id) => ChannelAction::Delete(*id),
        }
    }
}

fn opt_u64_eq(a: &Option<u64>, b: &Option<u64>) -> (r: bool)
    ensures
        r == (*a == *b),
{
    match (a, b) {
        (Some(x), Some(y)) => *x == *y,
        (None, None) => true,
        _ => false,
    }
}

/// The matching key: same name, same parent category.
pub open spec fn spec_channel_key_matches(c: RemoteChannelView, name: Seq<char>, category: Option<u64>) -> bool {
    c.name == name && c.parent_id == category
}

/// The remote channels matching `(name, category)`, in original order.
pub open spec fn spec_channels_matching(cs: Seq<RemoteChannelView>, name: Seq<char>, category: Option<u64>) -> Seq<RemoteChannelView>
    decreases cs.len(),
{
    if cs.len() == 0 {
        Seq::empty()
    } else {
        let rest = spec_channels_matching(cs.drop_last(), name, category);
        if spec_channel_key_matches(cs.last(), name, category) {
            rest.push(cs.last())
        } else {
            rest
        }
    }
}

/// Collects the remote channels whose `(name, parent)` key matches.
pub fn channels_matching(remote: &Vec<RemoteChannel>, name: &String, category: &Option<u64>) -> (out: Vec<RemoteChannel>)
    ensures
        out.deep_view() == spec_channels_matching(remote.deep_view(), name@, *category),
{
    let mut out: Vec<RemoteChannel> = Vec::new();
    let mut i: usize = 0;
    while i < remote.len()
        invariant
            0 <= i <= remote@.len(),
            out.deep_view() == spec_channels_matching(
                remote.deep_view().subrange(0, i as int),
                name@,
                *category,
            ),
        decreases remote@.len() - i,
    {
        if remote[i].name == *name && opt_u64_eq(&remote[i].parent_id, category) {
            out.push(remote[i].clone());
        }
        i = i + 1;
        proof {
            assert(remote.deep_view().subrange(0, i as int).drop_last()
                =~= remote.deep_view().subrange(0, i - 1 as int));
            assert(out.deep_view() =~= spec_channels_matching(
                remote.deep_view().subrange(0, i as int),
                name@,
                *category,
            ));
        }
    }
    proof {
        assert(remote.deep_view().subrange(0, remote@.len() as int) =~= remote.deep_view());
    }
    out
}

/// Topics agree: both absent, or both present with the same text.
pub open spec fn spec_topics_equal(a: Option<Seq<char>>, b: Option<Seq<char>>) -> bool {
    match (a, b) {
        (Some(x), Some(y)) => x == y,
        (None, None) => true,
        _ => false,
    }
}

/// A remote channel already matches its definition: kind, name, parent,
/// topic (text channels only), and the overwrite lists compared as sets,
/// since the remote platform returns them in no particular order.
pub open spec fn spec_channel_synced(c: RemoteChannelView, d: ChannelDefinitionView) -> bool {
    &&& c.kind == d.kind
    &&& c.name == d.name
    &&& c.parent_id == d.category
    &&& (d.kind is Text ==> spec_topics_equal(c.topic, d.topic))
    &&& spec_overwrite_sets_equal(c.permission_overwrites, d.permissions)
}

/// Field-by-field comparison of a remote channel against a definition.
pub fn check_channel_synced(channel: &RemoteChannel, definition: &ChannelDefinition) -> (r: bool)
    ensures
        r == spec_channel_synced(channel@, definition@),
{
    let topics_ok = if definition.kind == ChannelKind::Text {
        match (&channel.topic, &definition.topic) {
            (Some(a), Some(b)) => *a == *b,
            (None, None) => true,
            _ => false,
        }
    } else {
        true
    };
    channel.kind == definition.kind && channel.name == definition.name
        && opt_u64_eq(&channel.parent_id, &definition.category) && topics_ok
        && check_overwrite_sets_equal(&channel.permission_overwrites, &definition.permissions)
}

/// The actions one definition contributes: skip or edit a unique key
/// match, otherwise delete every match and create afresh.
pub open spec fn spec_channel_actions_for(cs: Seq<RemoteChannelView>, d: ChannelDefinitionView) -> Seq<ChannelActionView> {
    let m = spec_channels_matching(cs, d.name, d.category);
    if m.len() == 1 {
        if spec_channel_synced(m[0], d) {
            Seq::empty()
        } else {
            seq![ChannelActionView::Edit(m[0].id, d)]
        }
    } else {
        Seq::new(m.len(), |k: int| ChannelActionView::Delete(m[k].id)).push(ChannelActionView::Create(d))
    }
}

/// The actions of the per-definition pass, in definition-list order, each
/// planned against the same remote snapshot.
pub open spec fn spec_channel_sync_actions(defs: Seq<ChannelDefinitionView>, cs: Seq<RemoteChannelView>) -> Seq<ChannelActionView>
    decreases defs.len(),
{
    if defs.len() == 0 {
        Seq::empty()
    } else {
        spec_channel_sync_actions(defs.drop_last(), cs) + spec_channel_actions_for(cs, defs.last())
    }
}

/// Some definition claims this `(name, category)` key.
pub open spec fn spec_channel_key_defined(defs: Seq<ChannelDefinitionView>, name: Seq<char>, category: Option<u64>) -> bool {
    exists|i: int| 0 <= i < defs.len() && (#[trigger] defs[i]).name == name && defs[i].category == category
}

/// Whether some definition has the given `(name, category)` key.
pub fn channel_key_defined(defs: &Vec<ChannelDefinition>, name: &String, category: &Option<u64>) -> (r: bool)
    ensures
        r == spec_channel_key_defined(defs.deep_view(), name@, *category),
{
    let mut i: usize = 0;
    while i < defs.len()
        invariant
            0 <= i <= defs@.len(),
            forall|j: int| 0 <= j < i
                ==> !((#[trigger] defs.deep_view()[j]).name == name@
                    && defs.deep_view()[j].category == *category),
        decreases defs@.len() - i,
    {
        if defs[i].name == *name && opt_u64_eq(&defs[i].category, category) {
            proof {
                assert((#[trigger] defs.deep_view()[i as int]).name == name@
                    && defs.deep_view()[i as int].category == *category);
            }
            return true;
        }
        i = i + 1;
    }
    false
}

/// The cleanup pass: delete every remote channel whose key is not
/// desired, in remote-list order.  No channel is protected.
pub open spec fn spec_channel_cleanup_actions(defs: Seq<ChannelDefinitionView>, cs: Seq<RemoteChannelView>) -> Seq<ChannelActionView>
    decreases cs.len(),
{
    if cs.len() == 0 {
        Seq::empty()
    } else {
        let rest = spec_channel_cleanup_actions(defs, cs.drop_last());
        let c = cs.last();
        if !spec_channel_key_defined(defs, c.name, c.parent_id) {
            rest.push(ChannelActionView::Delete(c.id))
        } else {
            rest
        }
    }
}

/// The full plan: the per-definition pass followed by cleanup.
pub open spec fn spec_channel_plan(defs: Seq<ChannelDefinitionView>, cs: Seq<RemoteChannelView>) -> Seq<ChannelActionView> {
    spec_channel_sync_actions(defs, cs) + spec_channel_cleanup_actions(defs, cs)
}

/// Plans the calls that converge one tier of remote channels to the
/// definitions.  `remote` must already be restricted to the tier's kind
/// set (categories, or text and voice); the planner mutates nothing.
pub fn plan_channels(definitions: &Vec<ChannelDefinition>, remote: &Vec<RemoteChannel>) -> (plan: Vec<ChannelAction>)
    ensures
        plan.deep_view() == spec_channel_plan(definitions.deep_view(), remote.deep_view()),
{
    let ghost dvs = definitions.deep_view();
    let ghost cvs = remote.deep_view();
    let mut plan: Vec<ChannelAction> = Vec::new();
    let mut i: usize = 0;
    while i < definitions.len()
        invariant
            0 <= i <= definitions@.len(),
            dvs == definitions.deep_view(),
            cvs == remote.deep_view(),
            plan.deep_view() == spec_channel_sync_actions(dvs.subrange(0, i as int), cvs),
        decreases definitions@.len() - i,
    {
        let definition = &definitions[i];
        proof {
            assert(dvs[i as int] == definitions@[i as int].deep_view());
        }
        let matched = channels_matching(remote, &definition.name, &definition.category);
        if matched.len() == 1 {
            if !check_channel_synced(&matched[0], definition) {
                let ghost before = plan.deep_view();
                plan.push(ChannelAction::Edit(matched[0].id, definition.clone()));
                proof {
                    assert(plan.deep_view() =~= before.push(ChannelActionView::Edit(
                        matched.deep_view()[0].id,
                        dvs[i as int],
                    )));
                    assert(plan.deep_view() =~= spec_channel_sync_actions(dvs.subrange(0, i as int), cvs)
                        + spec_channel_actions_for(cvs, dvs[i as int]));
                }
            }
        } else {
            let ghost base = plan.deep_view();
            let mut j: usize = 0;
            while j < matched.len()
                invariant
                    0 <= j <= matched@.len(),
                    matched.deep_view() == spec_channels_matching(cvs, dvs[i as int].name, dvs[i as int].category),
                    matched.deep_view().len() != 1,
                    dvs == definitions.deep_view(),
                    cvs == remote.deep_view(),
                    0 <= i < definitions@.len(),
                    plan.deep_view() == base + Seq::new(j as nat, |k: int| ChannelActionView::Delete(matched.deep_view()[k].id)),
                decreases matched@.len() - j,
            {
                let ghost before = plan.deep_view();
                plan.push(ChannelAction::Delete(matched[j].id));
                j = j + 1;
                proof {
                    assert(plan.deep_view() =~= before.push(ChannelActionView::Delete(
                        matched.deep_view()[j - 1].id,
                    )));
                    assert(plan.deep_view() =~= base
                        + Seq::new(j as nat, |k: int| ChannelActionView::Delete(matched.deep_view()[k].id)));
                }
            }
            let ghost before = plan.deep_view();
            plan.push(ChannelAction::Create(definition.clone()));
            proof {
                assert(plan.deep_view() =~= before.push(ChannelActionView::Create(dvs[i as int])));
                assert(plan.deep_view() =~= base + spec_channel_actions_for(cvs, dvs[i as int]));
            }
        }
        i = i + 1;
        proof {
            assert(dvs.subrange(0, i as int).drop_last() =~= dvs.subrange(0, i - 1 as int));
            assert(plan.deep_view() =~= spec_channel_sync_actions(dvs.subrange(0, i as int), cvs));
        }
    }
    proof {
        assert(dvs.subrange(0, definitions@.len() as int) =~= dvs);
    }
    let ghost sync_done = plan.deep_view();
    let mut r: usize = 0;
    while r < remote.len()
        invariant
            0 <= r <= remote@.len(),
            dvs == definitions.deep_view(),
            cvs == remote.deep_view(),
            sync_done == spec_channel_sync_actions(dvs, cvs),
            plan.deep_view() == sync_done + spec_channel_cleanup_actions(dvs, cvs.subrange(0, r as int)),
        decreases remote@.len() - r,
    {
        let channel = &remote[r];
        proof {
            assert(cvs[r as int] == remote@[r as int].deep_view());
        }
        if !channel_key_defined(definitions, &channel.name, &channel.parent_id) {
            let ghost before = plan.deep_view();
            plan.push(ChannelAction::Delete(channel.id));
            proof {
                assert(plan.deep_view() =~= before.push(ChannelActionView::Delete(cvs[r as int].id)));
            }
        }
        r = r + 1;
        proof {
            assert(cvs.subrange(0, r as int).drop_last() =~= cvs.subrange(0, r - 1 as int));
            assert(plan.deep_view() =~= sync_done + spec_channel_cleanup_actions(dvs, cvs.subrange(0, r as int)));
        }
    }
    proof {
        assert(cvs.subrange(0, remote@.len() as int) =~= cvs);
    }
    plan
}

/// Whether `k` occurs in the kind set.
pub fn kinds_contain(kinds: &Vec<ChannelKind>, k: ChannelKind) -> (r: bool)
    ensures
        r == kinds@.contains(k),
{
    let mut i: usize = 0;
    while i < kinds.len()
        invariant
            0 <= i <= kinds@.len(),
            forall|j: int| 0 <= j < i ==> kinds@[j] != k,
        decreases kinds@.len() - i,
    {
        if kinds[i] == k {
            return true;
        }
        i = i + 1;
    }
    false
}

/// The remote channels whose kind lies in the kind set, in order.
pub open spec fn spec_channels_of_kinds(cs: Seq<RemoteChannelView>, kinds: Seq<ChannelKind>) -> Seq<RemoteChannelView>
    decreases cs.len(),
{
    if cs.len() == 0 {
        Seq::empty()
    } else {
        let rest = spec_channels_of_kinds(cs.drop_last(), kinds);
        if kinds.contains(cs.last().kind) {
            rest.push(cs.last())
        } else {
            rest
        }
    }
}

/// Restricts the remote channel list to one tier's kind set.
pub fn filter_channels_by_kind(remote: &Vec<RemoteChannel>, kinds: &Vec<ChannelKind>) -> (out: Vec<RemoteChannel>)
    ensures
        out.deep_view() == spec_channels_of_kinds(remote.deep_view(), kinds@),
{
    let mut out: Vec<RemoteChannel> = Vec::new();
    let mut i: usize = 0;
    while i < remote.len()
        invariant
            0 <= i <= remote@.len(),
            out.deep_view() == spec_channels_of_kinds(remote.deep_view().subrange(0, i as int), kinds@),
        decreases remote@.len() - i,
    {
        if kinds_contain(kinds, remote[i].kind) {
            out.push(remote[i].clone());
        }
        i = i + 1;
        proof {
            assert(remote.deep_view().subrange(0, i as int).drop_last()
                =~= remote.deep_view().subrange(0, i - 1 as int));
            assert(out.deep_view() =~= spec_channels_of_kinds(
                remote.deep_view().subrange(0, i as int),
                kinds@,
            ));
        }
    }
    proof {
        assert(remote.deep_view().subrange(0, remote@.len() as int) =~= remote.deep_view());
    }
    out
}

/// The plan that removes every channel of the list: reconciliation
/// against an empty desired list is pure cleanup, and no channel is
/// protected, so everything goes.
pub fn plan_channel_deletion(remote: &Vec<RemoteChannel>) -> (plan: Vec<ChannelAction>)
    ensures
        plan.deep_view() == spec_channel_plan(Seq::empty(), remote.deep_view()),
        plan.deep_view() == Seq::new(remote.deep_view().len(), |i: int| ChannelActionView::Delete(remote.deep_view()[i].id)),
{
    let definitions: Vec<ChannelDefinition> = Vec::new();
    let plan = plan_channels(&definitions, remote);
    proof {
        assert(definitions.deep_view() =~= Seq::<ChannelDefinitionView>::empty());
        lemma_channel_cleanup_empty_defs(remote.deep_view());
        assert(plan.deep_view() =~= Seq::new(
            remote.deep_view().len(),
            |i: int| ChannelActionView::Delete(remote.deep_view()[i].id),
        ));
    }
    plan
}

proof fn lemma_channel_cleanup_empty_defs(cs: Seq<RemoteChannelView>)
    ensures
        spec_channel_cleanup_actions(Seq::empty(), cs)
            == Seq::new(cs.len(), |i: int| ChannelActionView::Delete(cs[i].id)),
    decreases cs.len(),
{
    if cs.len() == 0 {
        assert(spec_channel_cleanup_actions(Seq::empty(), cs)
            =~= Seq::new(cs.len(), |i: int| ChannelActionView::Delete(cs[i].id)));
    } else {
        lemma_channel_cleanup_empty_defs(cs.drop_last());
        assert(!spec_channel_key_defined(Seq::empty(), cs.last().name, cs.last().parent_id));
        assert(spec_channel_cleanup_actions(Seq::empty(), cs)
            =~= Seq::new(cs.len(), |i: int| ChannelActionView::Delete(cs[i].id)));
    }
}

/// The staff category's name.
pub open spec fn spec_staff_category_name() -> Seq<char> {
    "ICTSC2023 Staff"@
}

pub fn staff_category_name() -> (r: &'static str)
    ensures
        r@ == spec_staff_category_name(),
{
    "ICTSC2023 Staff"
}

/// The read-only channel that explains how the workspace is used.
pub open spec fn spec_help_channel_name() -> Seq<char> {
    "help"@
}

pub fn help_channel_name() -> (r: &'static str)
    ensures
        r@ == spec_help_channel_name(),
{
    "help"
}

/// The read-only channel that carries announcements.
pub open spec fn spec_announce_channel_name() -> Seq<char> {
    "announce"@
}

pub fn announce_channel_name() -> (r: &'static str)
    ensures
        r@ == spec_announce_channel_name(),
{
    "announce"
}

/// The open chat channel.
pub open spec fn spec_random_channel_name() -> Seq<char> {
    "random"@
}

pub fn random_channel_name() -> (r: &'static str)
    ensures
        r@ == spec_random_channel_name(),
{
    "random"
}

/// The staff text channel's name.
pub open spec fn spec_staff_text_channel_name() -> Seq<char> {
    "staff-text"@
}

/// The staff voice channel's name.
pub open spec fn spec_staff_voice_channel_name() -> Seq<char> {
    "staff-voice"@
}

/// A team's text channel: the team id with the text suffix.
pub open spec fn spec_team_text_channel_name(team: Team) -> Seq<char> {
    team.id@ + "-text"@
}

/// A team's voice channel: the team id with the voice suffix.
pub open spec fn spec_team_voice_channel_name(team: Team) -> Seq<char> {
    team.id@ + "-voice"@
}

/// The desired category list: the staff category, then one category per
/// team, named after the team id.
pub fn build_category_definitions(teams: &Vec<Team>) -> (defs: Vec<ChannelDefinition>)
    ensures
        defs.deep_view().len() == 1 + teams@.len(),
        forall|k: int| 0 <= k < defs.deep_view().len() ==> {
            &&& (#[trigger] defs.deep_view()[k]).kind is Category
            &&& defs.deep_view()[k].topic is None
            &&& defs.deep_view()[k].category is None
            &&& defs.deep_view()[k].permissions == Seq::<PermissionOverwrite>::empty()
        },
        defs.deep_view()[0].name == spec_staff_category_name(),
        forall|k: int| 0 <= k < teams@.len()
            ==> (#[trigger] defs.deep_view()[1 + k]).name == teams@[k].id@,
{
    let mut defs: Vec<ChannelDefinition> = Vec::new();
    defs.push(ChannelDefinition {
        name: staff_category_name().to_owned(),
        kind: ChannelKind::Category,
        topic: None,
        category: None,
        permissions: Vec::new(),
    });
    let mut k: usize = 0;
    while k < teams.len()
        invariant
            0 <= k <= teams@.len(),
            defs.deep_view().len() == 1 + k,
            forall|j: int| 0 <= j < defs.deep_view().len() ==> {
                &&& (#[trigger] defs.deep_view()[j]).kind is Category
                &&& defs.deep_view()[j].topic is None
                &&& defs.deep_view()[j].category is None
                &&& defs.deep_view()[j].permissions == Seq::<PermissionOverwrite>::empty()
            },
            defs.deep_view()[0].name == spec_staff_category_name(),
            forall|j: int| 0 <= j < k
                ==> (#[trigger] defs.deep_view()[1 + j]).name == teams@[j].id@,
        decreases teams@.len() - k,
    {
        let ghost before = defs.deep_view();
        defs.push(ChannelDefinition {
            name: teams[k].id.clone(),
            kind: ChannelKind::Category,
            topic: None,
            category: None,
            permissions: Vec::new(),
        });
        k = k + 1;
        proof {
            assert(defs.deep_view() =~= before.push(ChannelDefinitionView {
                name: teams@[k - 1].id@,
                kind: ChannelKind::Category,
                topic: None,
                category: None,
                permissions: Seq::empty(),
            }));
        }
    }
    defs
}

/// The first remote channel named `name`, if any.
pub open spec fn spec_first_channel_named(cs: Seq<RemoteChannelView>, name: Seq<char>) -> Option<RemoteChannelView>
    decreases cs.len(),
{
    if cs.len() == 0 {
        None
    } else if cs.first().name == name {
        Some(cs.first())
    } else {
        spec_first_channel_named(cs.drop_first(), name)
    }
}

/// The id of the first channel with the given name, if any; used to
/// resolve an already reconciled category by name.
pub fn find_category_id(categories: &Vec<RemoteChannel>, name: &String) -> (r: Option<u64>)
    ensures
        match spec_first_channel_named(categories.deep_view(), name@) {
            Some(c) => r == Some(c.id),
            None => r is None,
        },
{
    let ghost cvs = categories.deep_view();
    let mut i: usize = 0;
    proof {
        assert(cvs.skip(0) =~= cvs);
    }
    while i < categories.len()
        invariant
            0 <= i <= categories@.len(),
            cvs == categories.deep_view(),
            spec_first_channel_named(cvs, name@) == spec_first_channel_named(cvs.skip(i as int), name@),
        decreases categories@.len() - i,
    {
        proof {
            assert(cvs.skip(i as int).first() == cvs[i as int]);
            assert(cvs[i as int] == categories@[i as int].deep_view());
            assert(cvs.skip(i as int).drop_first() =~= cvs.skip(i as int + 1));
        }
        if categories[i].name == *name {
            return Some(categories[i].id);
        }
        i = i + 1;
    }
    proof {
        assert(cvs.skip(categories@.len() as int) =~= Seq::<RemoteChannelView>::empty());
    }
    None
}

/// One category id per team, in team order; the first team whose category
/// is missing is the error.
pub open spec fn spec_team_category_ids(cs: Seq<RemoteChannelView>, teams: Seq<Team>) -> Result<Seq<u64>, Seq<char>>
    decreases teams.len(),
{
    if teams.len() == 0 {
        Ok(Seq::empty())
    } else {
        match spec_first_channel_named(cs, teams.first().id@) {
            Option::None => Err(teams.first().id@),
            Option::Some(c) => match spec_team_category_ids(cs, teams.drop_first()) {
                Ok(rest) => Ok(seq![c.id] + rest),
                Err(n) => Err(n),
            },
        }
    }
}

/// A top-level public text channel: no parent, the given overwrites.
pub open spec fn spec_public_channel_def(name: Seq<char>, perms: Seq<PermissionOverwrite>) -> ChannelDefinitionView {
    ChannelDefinitionView { name, kind: ChannelKind::Text, topic: None, category: None, permissions: perms }
}

/// A staff channel: under the staff category, no extra overwrites (the
/// category's visibility rules apply).
pub open spec fn spec_staff_channel_def(name: Seq<char>, kind: ChannelKind, cat: u64) -> ChannelDefinitionView {
    ChannelDefinitionView { name, kind, topic: None, category: Some(cat), permissions: Seq::empty() }
}

/// A team channel: under the team's category, with the team's overwrites.
pub open spec fn spec_team_channel_def(name: Seq<char>, kind: ChannelKind, cat: u64, perms: Seq<PermissionOverwrite>) -> ChannelDefinitionView {
    ChannelDefinitionView { name, kind, topic: None, category: Some(cat), permissions: perms }
}

/// The text and voice pair of every team, in team order.
pub open spec fn spec_team_channel_defs(rs: Seq<RemoteRole>, teams: Seq<Team>, cat_ids: Seq<u64>) -> Seq<ChannelDefinitionView>
    decreases teams.len(),
{
    if teams.len() == 0 {
        Seq::empty()
    } else {
        spec_team_channel_defs(rs, teams.drop_last(), cat_ids.drop_last()) + seq![
            spec_team_channel_def(
                spec_team_text_channel_name(teams.last()),
                ChannelKind::Text,
                cat_ids.last(),
                spec_team_channel_overwrites(rs, teams.last()),
            ),
            spec_team_channel_def(
                spec_team_voice_channel_name(teams.last()),
                ChannelKind::Voice,
                cat_ids.last(),
                spec_team_channel_overwrites(rs, teams.last()),
            ),
        ]
    }
}

/// Everything the leaf-channel builder needs: the roles it resolves and
/// every category it places channels under, already reconciled.
pub open spec fn spec_channel_build_ok(teams: Seq<Team>, rs: Seq<RemoteRole>, cats: Seq<RemoteChannelView>) -> bool {
    &&& spec_first_role_named(rs, spec_everyone_role_name()) is Some
    &&& spec_role_overwrites_for_teams(rs, teams, spec_permissions_for_readonly_channel_member()) is Ok
    &&& spec_role_overwrites_for_teams(rs, teams, spec_permissions_for_channel_member()) is Ok
    &&& spec_first_channel_named(cats, spec_staff_category_name()) is Some
    &&& spec_team_category_ids(cats, teams) is Ok
}

/// The three public channels and the staff pair, when the roles and the
/// staff category resolve.
pub open spec fn spec_channel_header_defs(teams: Seq<Team>, rs: Seq<RemoteRole>, cats: Seq<RemoteChannelView>) -> Seq<ChannelDefinitionView> {
    seq![
        spec_public_channel_def(
            spec_help_channel_name(),
            seq![
                PermissionOverwrite {
                    allow: spec_permissions_for_readonly_channel_member(),
                    deny: 0,
                    role_id: spec_first_role_named(rs, spec_everyone_role_name())->0.id,
                },
            ],
        ),
        spec_public_channel_def(
            spec_announce_channel_name(),
            spec_role_overwrites_for_teams(
                rs,
                teams,
                spec_permissions_for_readonly_channel_member(),
            )->Ok_0,
        ),
        spec_public_channel_def(
            spec_random_channel_name(),
            spec_role_overwrites_for_teams(rs, teams, spec_permissions_for_channel_member())->Ok_0,
        ),
        spec_staff_channel_def(
            spec_staff_text_channel_name(),
            ChannelKind::Text,
            spec_first_channel_named(cats, spec_staff_category_name())->0.id,
        ),
        spec_staff_channel_def(
            spec_staff_voice_channel_name(),
            ChannelKind::Voice,
            spec_first_channel_named(cats, spec_staff_category_name())->0.id,
        ),
    ]
}

/// The desired leaf-channel list, when every input resolves: the three
/// public channels, the staff pair, then each team's pair.
pub open spec fn spec_channel_definitions_built(teams: Seq<Team>, rs: Seq<RemoteRole>, cats: Seq<RemoteChannelView>) -> Seq<ChannelDefinitionView> {
    if spec_channel_build_ok(teams, rs, cats) {
        spec_channel_header_defs(teams, rs, cats) + spec_team_channel_defs(
            rs,
            teams,
            spec_team_category_ids(cats, teams)->Ok_0,
        )
    } else {
        Seq::empty()
    }
}

/// Builds the desired leaf-channel definitions from the event's teams,
/// the cached roles (already reconciled) and the remote categories
/// (already reconciled).  Category ids are a precondition input: if any
/// needed role or category is missing, the builder fails fast with the
/// entity's name and builds nothing, so a channel can never silently get
/// a null or invalid parent.
pub fn build_channel_definitions(teams: &Vec<Team>, roles: &Vec<RemoteRole>, categories: &Vec<RemoteChannel>) -> (r: Result<Vec<ChannelDefinition>, Error>)
    ensures
        r is Ok <==> spec_channel_build_ok(teams@, roles@, categories.deep_view()),
        match r {
            Ok(defs) => defs.deep_view() == spec_channel_definitions_built(
                teams@,
                roles@,
                categories.deep_view(),
            ),
            Err(e) => {
                let everyone = spec_first_role_named(roles@, spec_everyone_role_name());
                let announce_ovr = spec_role_overwrites_for_teams(
                    roles@,
                    teams@,
                    spec_permissions_for_readonly_channel_member(),
                );
                let random_ovr = spec_role_overwrites_for_teams(
                    roles@,
                    teams@,
                    spec_permissions_for_channel_member(),
                );
                let staff_cat = spec_first_channel_named(
                    categories.deep_view(),
                    spec_staff_category_name(),
                );
                let cat_ids = spec_team_category_ids(categories.deep_view(), teams@);
                if everyone is None {
                    e matches Error::SystemError(SystemError::NoSuchRole(m))
                        && m@ == spec_everyone_role_name()
                } else if announce_ovr is Err {
                    e matches Error::SystemError(SystemError::NoSuchRole(m))
                        && m@ == announce_ovr->Err_0
                } else if random_ovr is Err {
                    e matches Error::SystemError(SystemError::NoSuchRole(m))
                        && m@ == random_ovr->Err_0
                } else if staff_cat is None {
                    e matches Error::SystemError(SystemError::NoSuchCategory(m))
                        && m@ == spec_staff_category_name()
                } else {
                    cat_ids is Err && (e matches Error::SystemError(SystemError::NoSuchCategory(m))
                        && m@ == cat_ids->Err_0)
                }
            },
        },
{
    let ghost ts = teams@;
    let ghost rs = roles@;
    let ghost cats = categories.deep_view();

    let help_perms = match get_permission_overwrites_for_help_channel(roles) {
        Ok(p) => p,
        Err(e) => {
            return Err(e);
        },
    };
    let announce_perms = match get_permission_overwrites_for_announce_channel(roles, teams) {
        Ok(p) => p,
        Err(e) => {
            return Err(e);
        },
    };
    let random_perms = match get_permission_overwrites_for_random_channel(roles, teams) {
        Ok(p) => p,
        Err(e) => {
            return Err(e);
        },
    };
    let staff_cat_name: String = staff_category_name().to_owned();
    let staff_cat_id = match find_category_id(categories, &staff_cat_name) {
        Some(id) => id,
        None => {
            return Err(Error::SystemError(SystemError::NoSuchCategory(staff_cat_name)));
        },
    };

    let mut defs: Vec<ChannelDefinition> = Vec::new();
    defs.push(ChannelDefinition {
        name: help_channel_name().to_owned(),
        kind: ChannelKind::Text,
        topic: None,
        category: None,
        permissions: help_perms,
    });
    defs.push(ChannelDefinition {
        name: announce_channel_name().to_owned(),
        kind: ChannelKind::Text,
        topic: None,
        category: None,
        permissions: announce_perms,
    });
    defs.push(ChannelDefinition {
        name: random_channel_name().to_owned(),
        kind: ChannelKind::Text,
        topic: None,
        category: None,
        permissions: random_perms,
    });
    defs.push(ChannelDefinition {
        name: "staff-text".to_owned(),
        kind: ChannelKind::Text,
        topic: None,
        category: Some(staff_cat_id),
        permissions: Vec::new(),
    });
    defs.push(ChannelDefinition {
        name: "staff-voice".to_owned(),
        kind: ChannelKind::Voice,
        topic: None,
        category: Some(staff_cat_id),
        permissions: Vec::new(),
    });
    let ghost head = defs.deep_view();
    proof {
        assert(spec_team_category_ids(cats, ts.subrange(0, 0)) == Ok::<Seq<u64>, Seq<char>>(Seq::empty()));
        assert(spec_team_channel_defs(rs, ts.subrange(0, 0), Seq::empty()) =~= Seq::<ChannelDefinitionView>::empty());
        assert(head + Seq::<ChannelDefinitionView>::empty() =~= head);
        assert(head =~= spec_channel_header_defs(ts, rs, cats));
    }

    let ghost mut gids: Seq<u64> = Seq::empty();
    let mut k: usize = 0;
    while k < teams.len()
        invariant
            0 <= k <= ts.len(),
            ts == teams@,
            rs == roles@,
            cats == categories.deep_view(),
            spec_first_role_named(rs, spec_everyone_role_name()) is Some,
            spec_role_overwrites_for_teams(rs, ts, spec_permissions_for_readonly_channel_member()) is Ok,
            spec_role_overwrites_for_teams(rs, ts, spec_permissions_for_channel_member()) is Ok,
            spec_first_channel_named(cats, spec_staff_category_name()) is Some,
            head == spec_channel_header_defs(ts, rs, cats),
            head.len() == 5,
            gids.len() == k as int,
            spec_team_category_ids(cats, ts.subrange(0, k as int)) == Ok::<Seq<u64>, Seq<char>>(gids),
            defs.deep_view() == head + spec_team_channel_defs(rs, ts.subrange(0, k as int), gids),
        decreases ts.len() - k,
    {
        let team = &teams[k];
        let cat_id = match find_category_id(categories, &team.id) {
            Some(id) => id,
            None => {
                proof {
                    lemma_team_category_ids_prefix_err(cats, ts, k as int, gids);
                }
                return Err(Error::SystemError(SystemError::NoSuchCategory(team.id.clone())));
            },
        };
        let perms = get_permission_overwrites_for_team_channel(roles, team);
        let voice_perms = clone_overwrites(&perms);
        let mut text_name = team.id.clone();
        text_name.append("-text");
        let mut voice_name = team.id.clone();
        voice_name.append("-voice");
        let ghost before = defs.deep_view();
        defs.push(ChannelDefinition {
            name: text_name,
            kind: ChannelKind::Text,
            topic: None,
            category: Some(cat_id),
            permissions: perms,
        });
        defs.push(ChannelDefinition {
            name: voice_name,
            kind: ChannelKind::Voice,
            topic: None,
            category: Some(cat_id),
            permissions: voice_perms,
        });
        proof {
            assert(defs.deep_view() =~= before + seq![
                spec_team_channel_def(
                    spec_team_text_channel_name(ts[k as int]),
                    ChannelKind::Text,
                    cat_id,
                    spec_team_channel_overwrites(rs, ts[k as int]),
                ),
                spec_team_channel_def(
                    spec_team_voice_channel_name(ts[k as int]),
                    ChannelKind::Voice,
                    cat_id,
                    spec_team_channel_overwrites(rs, ts[k as int]),
                ),
            ]);
            lemma_team_category_ids_prefix_step(cats, ts, k as int, gids, cat_id);
            assert(ts.subrange(0, k as int + 1).drop_last() =~= ts.subrange(0, k as int));
            assert(gids.push(cat_id).drop_last() =~= gids);
            assert(ts.subrange(0, k as int + 1).last() == ts[k as int]);
            assert(defs.deep_view() =~= head + spec_team_channel_defs(
                rs,
                ts.subrange(0, k as int + 1),
                gids.push(cat_id),
            ));
        }
        proof {
            gids = gids.push(cat_id);
        }
        k = k + 1;
    }
    proof {
        assert(ts.subrange(0, ts.len() as int) =~= ts);
        assert(spec_team_category_ids(cats, ts) == Ok::<Seq<u64>, Seq<char>>(gids));
        assert(spec_channel_build_ok(ts, rs, cats));
        assert(defs.deep_view() =~= spec_channel_definitions_built(ts, rs, cats));
    }
    Ok(defs)
}

/// Stepping lemma: if the first `k` teams resolved to `gids` and team `k`
/// resolves to `cat_id`, the first `k + 1` teams resolve to
/// `gids.push(cat_id)`.
proof fn lemma_team_category_ids_prefix_step(cats: Seq<RemoteChannelView>, ts: Seq<Team>, k: int, gids: Seq<u64>, cat_id: u64)
    requires
        0 <= k < ts.len(),
        spec_team_category_ids(cats, ts.subrange(0, k)) == Ok::<Seq<u64>, Seq<char>>(gids),
        spec_first_channel_named(cats, ts[k].id@) matches Some(c) && c.id == cat_id,
    ensures
        spec_team_category_ids(cats, ts.subrange(0, k + 1)) == Ok::<Seq<u64>, Seq<char>>(gids.push(cat_id)),
    decreases k,
{
    if k == 0 {
        assert(ts.subrange(0, 1).first() == ts[0]);
        assert(ts.subrange(0, 1).drop_first() =~= Seq::<Team>::empty());
        assert(spec_team_category_ids(cats, ts.subrange(0, 1).drop_first())
            == Ok::<Seq<u64>, Seq<char>>(Seq::empty()));
        assert(gids =~= Seq::<u64>::empty());
        assert(seq![cat_id] + Seq::<u64>::empty() =~= gids.push(cat_id));
    } else {
        let prefix = ts.subrange(0, k);
        assert(prefix.first() == ts[0]);
        assert(spec_team_category_ids(cats, prefix) == Ok::<Seq<u64>, Seq<char>>(gids));
        match spec_first_channel_named(cats, ts[0].id@) {
            Option::None => {
                assert(false);
            },
            Option::Some(c0) => {
                let tail_ids = spec_team_category_ids(cats, prefix.drop_first());
                assert(tail_ids is Ok);
                let rest = tail_ids->Ok_0;
                assert(gids == seq![c0.id] + rest);
                assert(prefix.drop_first() =~= ts.subrange(1, ts.len() as int).subrange(0, k - 1));
                lemma_team_category_ids_prefix_step(cats, ts.subrange(1, ts.len() as int), k - 1, rest, cat_id);
                assert(ts.subrange(1, ts.len() as int)[k - 1] == ts[k]);
                assert(ts.subrange(0, k + 1).first() == ts[0]);
                assert(ts.subrange(0, k + 1).drop_first() =~= ts.subrange(1, ts.len() as int).subrange(0, k));
                assert(seq![c0.id] + rest.push(cat_id) =~= (seq![c0.id] + rest).push(cat_id));
            },
        }
    }
}

/// Stepping lemma: if the first `k` teams resolved but team `k`'s
/// category is missing, the whole team list fails with team `k`'s id.
proof fn lemma_team_category_ids_prefix_err(cats: Seq<RemoteChannelView>, ts: Seq<Team>, k: int, gids: Seq<u64>)
    requires
        0 <= k < ts.len(),
        spec_team_category_ids(cats, ts.subrange(0, k)) == Ok::<Seq<u64>, Seq<char>>(gids),
        spec_first_channel_named(cats, ts[k].id@) is None,
    ensures
        spec_team_category_ids(cats, ts) == Err::<Seq<u64>, Seq<char>>(ts[k].id@),
    decreases k,
{
    if k == 0 {
        assert(ts.first() == ts[0]);
    } else {
        let prefix = ts.subrange(0, k);
        assert(prefix.first() == ts[0]);
        match spec_first_channel_named(cats, ts[0].id@) {
            Option::None => {
                assert(false);
            },
            Option::Some(c0) => {
                let tail_ids = spec_team_category_ids(cats, prefix.drop_first());
                assert(tail_ids is Ok);
                assert(prefix.drop_first() =~= ts.subrange(1, ts.len() as int).subrange(0, k - 1));
                lemma_team_category_ids_prefix_err(cats, ts.subrange(1, ts.len() as int), k - 1, tail_ids->Ok_0);
                assert(ts.subrange(1, ts.len() as int)[k - 1] == ts[k]);
                assert(ts.first() == ts[0]);
                assert(ts.drop_first() =~= ts.subrange(1, ts.len() as int));
            },
        }
    }
}

/// Two-tier ordering: the leaf-channel builder succeeds only when the
/// staff category and every team's category already exist among the
/// reconciled categories, so leaf definitions cannot be built before the
/// category tier has converged.
pub proof fn lemma_channel_build_requires_categories(teams: Seq<Team>, rs: Seq<RemoteRole>, cats: Seq<RemoteChannelView>)
    requires
        spec_channel_build_ok(teams, rs, cats),
    ensures
        spec_first_channel_named(cats, spec_staff_category_name()) is Some,
        forall|k: int| 0 <= k < teams.len()
            ==> spec_first_channel_named(cats, (#[trigger] teams[k]).id@) is Some,
    decreases teams.len(),
{
    if teams.len() == 0 {
    } else {
        assert(spec_team_category_ids(cats, teams) is Ok);
        assert(spec_first_channel_named(cats, teams.first().id@) is Some);
        assert(spec_team_category_ids(cats, teams.drop_first()) is Ok);
        assert(spec_role_overwrites_for_teams(
            rs,
            teams,
            spec_permissions_for_readonly_channel_member(),
        ) is Ok);
        assert(spec_role_overwrites_for_teams(
            rs,
            teams.drop_first(),
            spec_permissions_for_readonly_channel_member(),
        ) is Ok);
        assert(spec_role_overwrites_for_teams(
            rs,
            teams,
            spec_permissions_for_channel_member(),
        ) is Ok);
        assert(spec_role_overwrites_for_teams(
            rs,
            teams.drop_first(),
            spec_permissions_for_channel_member(),
        ) is Ok);
        lemma_channel_build_requires_categories(teams.drop_first(), rs, cats);
        assert forall|k: int| 0 <= k < teams.len() implies spec_first_channel_named(
            cats,
            (#[trigger] teams[k]).id@,
        ) is Some by {
            if k > 0 {
                assert(teams.drop_first()[k - 1] == teams[k]);
            }
        }
    }
}

/// The channel a `Create` produces: the definition's fields under a fresh
/// platform-assigned id.
pub open spec fn spec_created_channel(d: ChannelDefinitionView, id: u64) -> RemoteChannelView {
    RemoteChannelView {
        id,
        name: d.name,
        kind: d.kind,
        parent_id: d.category,
        topic: d.topic,
        permission_overwrites: d.permissions,
    }
}

/// The channel an `Edit` produces: name, parent, topic and overwrites are
/// rewritten to the definition's (an absent desired topic clears the
/// remote one, so that re-running converges); the kind is immutable.
pub open spec fn spec_edited_channel(c: RemoteChannelView, d: ChannelDefinitionView) -> RemoteChannelView {
    RemoteChannelView {
        id: c.id,
        name: d.name,
        kind: c.kind,
        parent_id: d.category,
        topic: d.topic,
        permission_overwrites: d.permissions,
    }
}

/// The channel list after editing the channel with the given id.
pub open spec fn spec_edit_channel_list(cs: Seq<RemoteChannelView>, id: u64, d: ChannelDefinitionView) -> Seq<RemoteChannelView> {
    cs.map_values(|c: RemoteChannelView| if c.id == id {
        spec_edited_channel(c, d)
    } else {
        c
    })
}

/// The channel list after deleting the channel with the given id.
pub open spec fn spec_channels_without(cs: Seq<RemoteChannelView>, id: u64) -> Seq<RemoteChannelView>
    decreases cs.len(),
{
    if cs.len() == 0 {
        Seq::empty()
    } else {
        let rest = spec_channels_without(cs.drop_last(), id);
        if cs.last().id == id {
            rest
        } else {
            rest.push(cs.last())
        }
    }
}

/// How many `Create` actions a plan holds; each consumes one fresh id
/// when the plan is applied.
pub open spec fn spec_channel_creates(acts: Seq<ChannelActionView>) -> nat
    decreases acts.len(),
{
    if acts.len() == 0 {
        0
    } else {
        (if acts.first() is Create {
            1nat
        } else {
            0nat
        }) + spec_channel_creates(acts.drop_first())
    }
}

/// The remote state a plan leaves behind, action by action; `fresh` holds
/// the ids the platform assigns to created channels, in creation order.
pub open spec fn spec_apply_channel_actions(cs: Seq<RemoteChannelView>, acts: Seq<ChannelActionView>, fresh: Seq<u64>) -> Seq<RemoteChannelView>
    decreases acts.len(),
{
    if acts.len() == 0 {
        cs
    } else {
        match acts.first() {
            ChannelActionView::Create(d) => spec_apply_channel_actions(
                cs.push(spec_created_channel(d, fresh.first())),
                acts.drop_first(),
                fresh.drop_first(),
            ),
            ChannelActionView::Edit(id, d) => spec_apply_channel_actions(
                spec_edit_channel_list(cs, id, d),
                acts.drop_first(),
                fresh,
            ),
            ChannelActionView::Delete(id) => spec_apply_channel_actions(
                spec_channels_without(cs, id),
                acts.drop_first(),
                fresh,
            ),
        }
    }
}

/// Copies a channel list.
pub fn clone_channels(v: &Vec<RemoteChannel>) -> (out: Vec<RemoteChannel>)
    ensures
        out.deep_view() == v.deep_view(),
{
    let mut out: Vec<RemoteChannel> = Vec::new();
    let mut i: usize = 0;
    while i < v.len()
        invariant
            0 <= i <= v@.len(),
            out.deep_view() == v.deep_view().subrange(0, i as int),
        decreases v@.len() - i,
    {
        let ghost before = out.deep_view();
        out.push(v[i].clone());
        i = i + 1;
        proof {
            assert(out.deep_view() =~= before.push(v.deep_view()[i - 1]));
            assert(out.deep_view() =~= v.deep_view().subrange(0, i as int));
        }
    }
    proof {
        assert(v.deep_view().subrange(0, v@.len() as int) =~= v.deep_view());
    }
    out
}

/// Edits, in place of the platform, the channel with the given id.
fn edit_channels_in(v: &Vec<RemoteChannel>, id: u64, d: &ChannelDefinition) -> (out: Vec<RemoteChannel>)
    ensures
        out.deep_view() == spec_edit_channel_list(v.deep_view(), id, d@),
{
    let mut out: Vec<RemoteChannel> = Vec::new();
    let mut i: usize = 0;
    while i < v.len()
        invariant
            0 <= i <= v@.len(),
            out.deep_view() == spec_edit_channel_list(v.deep_view(), id, d@).subrange(0, i as int),
        decreases v@.len() - i,
    {
        let ghost before = out.deep_view();
        if v[i].id == id {
            out.push(RemoteChannel {
                id: v[i].id,
                name: d.name.clone(),
                kind: v[i].kind,
                parent_id: d.category,
                topic: clone_topic(&d.topic),
                permission_overwrites: clone_overwrites(&d.permissions),
            });
            proof {
                assert(out.deep_view() =~= before.push(spec_edited_channel(v.deep_view()[i as int], d@)));
            }
        } else {
            out.push(v[i].clone());
            proof {
                assert(out.deep_view() =~= before.push(v.deep_view()[i as int]));
            }
        }
        i = i + 1;
        proof {
            assert(out.deep_view() =~= spec_edit_channel_list(v.deep_view(), id, d@).subrange(0, i as int));
        }
    }
    proof {
        assert(spec_edit_channel_list(v.deep_view(), id, d@).subrange(0, v@.len() as int)
            =~= spec_edit_channel_list(v.deep_view(), id, d@));
    }
    out
}

/// Removes, in place of the platform, the channel with the given id.
fn channels_without(v: &Vec<RemoteChannel>, id: u64) -> (out: Vec<RemoteChannel>)
    ensures
        out.deep_view() == spec_channels_without(v.deep_view(), id),
{
    let mut out: Vec<RemoteChannel> = Vec::new();
    let mut i: usize = 0;
    while i < v.len()
        invariant
            0 <= i <= v@.len(),
            out.deep_view() == spec_channels_without(v.deep_view().subrange(0, i as int), id),
        decreases v@.len() - i,
    {
        if v[i].id != id {
            out.push(v[i].clone());
        }
        i = i + 1;
        proof {
            assert(v.deep_view().subrange(0, i as int).drop_last()
                =~= v.deep_view().subrange(0, i - 1 as int));
            assert(out.deep_view() =~= spec_channels_without(v.deep_view().subrange(0, i as int), id));
        }
    }
    proof {
        assert(v.deep_view().subrange(0, v@.len() as int) =~= v.deep_view());
    }
    out
}

/// A model of the remote platform executing a plan in order: creates
/// append a channel under the next fresh id, edits rewrite in place,
/// deletes remove.  Lets callers and tests replay a reconciliation
/// without the platform.
pub fn apply_channel_actions(remote: &Vec<RemoteChannel>, actions: &Vec<ChannelAction>, fresh_ids: &Vec<u64>) -> (out: Vec<RemoteChannel>)
    requires
        spec_channel_creates(actions.deep_view()) <= fresh_ids@.len(),
    ensures
        out.deep_view() == spec_apply_channel_actions(remote.deep_view(), actions.deep_view(), fresh_ids@),
{
    let ghost avs = actions.deep_view();
    let mut state = clone_channels(remote);
    let mut consumed: usize = 0;
    let mut k: usize = 0;
    let fresh_count: usize = fresh_ids.len();
    proof {
        assert(fresh_count == fresh_ids@.len());
        assert(avs.skip(0) =~= avs);
        assert(fresh_ids@.skip(0) =~= fresh_ids@);
    }
    while k < actions.len()
        invariant
            0 <= k <= actions@.len(),
            0 <= consumed <= fresh_ids@.len(),
            fresh_ids@.len() <= usize::MAX,
            avs == actions.deep_view(),
            spec_channel_creates(avs.skip(k as int)) <= fresh_ids@.len() - consumed,
            spec_apply_channel_actions(remote.deep_view(), avs, fresh_ids@)
                == spec_apply_channel_actions(state.deep_view(), avs.skip(k as int), fresh_ids@.skip(consumed as int)),
        decreases actions@.len() - k,
    {
        let ghost pending = avs.skip(k as int);
        proof {
            assert(pending.first() == avs[k as int]);
            assert(avs[k as int] == actions@[k as int]@);
            assert(pending.drop_first() =~= avs.skip(k as int + 1));
        }
        match &actions[k] {
            ChannelAction::Create(d) => {
                proof {
                    assert(pending.first() is Create);
                    assert(spec_channel_creates(pending) >= 1);
                    assert(consumed < fresh_ids@.len());
                    assert(fresh_ids@.skip(consumed as int).first() == fresh_ids@[consumed as int]);
                    assert(fresh_ids@.skip(consumed as int).drop_first()
                        =~= fresh_ids@.skip(consumed as int + 1));
                }
                let ghost before = state.deep_view();
                state.push(RemoteChannel {
                    id: fresh_ids[consumed],
                    name: d.name.clone(),
                    kind: d.kind,
                    parent_id: d.category,
                    topic: clone_topic(&d.topic),
                    permission_overwrites: clone_overwrites(&d.permissions),
                });
                consumed = consumed + 1;
                proof {
                    assert(state.deep_view() =~= before.push(spec_created_channel(
                        d@,
                        fresh_ids@[consumed - 1 as int],
                    )));
                }
            },
            ChannelAction::Edit(id, d) => {
                state = edit_channels_in(&state, *id, d);
            },
            ChannelAction::Delete(id) => {
                state = channels_without(&state, *id);
            },
        }
        k = k + 1;
    }
    proof {
        assert(avs.skip(actions@.len() as int) =~= Seq::<ChannelActionView>::empty());
    }
    state
}

/// The remote channels fully agree with the definitions: every definition
/// has exactly one synced key match, and every remote channel's key is
/// desired.
pub open spec fn spec_channels_converged(defs: Seq<ChannelDefinitionView>, cs: Seq<RemoteChannelView>) -> bool {
    &&& forall|i: int| 0 <= i < defs.len()
        ==> (#[trigger] spec_channels_matching(cs, defs[i].name, defs[i].category)).len() == 1
    &&& forall|i: int| 0 <= i < defs.len()
        ==> spec_channel_synced(
            (#[trigger] spec_channels_matching(cs, defs[i].name, defs[i].category))[0],
            defs[i],
        )
    &&& forall|j: int| 0 <= j < cs.len()
        ==> spec_channel_key_defined(defs, (#[trigger] cs[j]).name, cs[j].parent_id)
}

proof fn lemma_channel_sync_actions_empty(defs: Seq<ChannelDefinitionView>, cs: Seq<RemoteChannelView>)
    requires
        forall|i: int| 0 <= i < defs.len()
            ==> (#[trigger] spec_channels_matching(cs, defs[i].name, defs[i].category)).len() == 1,
        forall|i: int| 0 <= i < defs.len()
            ==> spec_channel_synced(
                (#[trigger] spec_channels_matching(cs, defs[i].name, defs[i].category))[0],
                defs[i],
            ),
    ensures
        spec_channel_sync_actions(defs, cs) == Seq::<ChannelActionView>::empty(),
    decreases defs.len(),
{
    if defs.len() == 0 {
    } else {
        lemma_channel_sync_actions_empty(defs.drop_last(), cs);
        assert(spec_channel_actions_for(cs, defs.last()) == Seq::<ChannelActionView>::empty());
        assert(spec_channel_sync_actions(defs, cs) =~= Seq::<ChannelActionView>::empty());
    }
}

proof fn lemma_channel_cleanup_actions_empty(defs: Seq<ChannelDefinitionView>, cs: Seq<RemoteChannelView>)
    requires
        forall|j: int| 0 <= j < cs.len()
            ==> spec_channel_key_defined(defs, (#[trigger] cs[j]).name, cs[j].parent_id),
    ensures
        spec_channel_cleanup_actions(defs, cs) == Seq::<ChannelActionView>::empty(),
    decreases cs.len(),
{
    if cs.len() == 0 {
    } else {
        lemma_channel_cleanup_actions_empty(defs, cs.drop_last());
    }
}

/// Idempotence of the channel reconciler: planned against a remote tier
/// that already agrees with the definitions, the plan is empty, so a
/// second run right after a successful one issues no mutating call.
pub proof fn lemma_converged_channel_plan_empty(defs: Seq<ChannelDefinitionView>, cs: Seq<RemoteChannelView>)
    requires
        spec_channels_converged(defs, cs),
    ensures
        spec_channel_plan(defs, cs) == Seq::<ChannelActionView>::empty(),
{
    lemma_channel_sync_actions_empty(defs, cs);
    lemma_channel_cleanup_actions_empty(defs, cs);
    assert(spec_channel_plan(defs, cs) =~= Seq::<ChannelActionView>::empty());
}

/// Desired `(name, category)` keys are unique within a tier, as the
/// reconciler's matching assumes.
pub open spec fn spec_channel_keys_unique(defs: Seq<ChannelDefinitionView>) -> bool {
    forall|i: int, j: int| 0 <= i < j < defs.len()
        ==> !((#[trigger] defs[i]).name == (#[trigger] defs[j]).name
            && defs[i].category == defs[j].category)
}

/// The channels that creating every definition in order produces, with
/// the fresh ids handed out in order.
pub open spec fn spec_created_channels(defs: Seq<ChannelDefinitionView>, fresh: Seq<u64>) -> Seq<RemoteChannelView> {
    Seq::new(defs.len(), |i: int| spec_created_channel(defs[i], fresh[i]))
}

proof fn lemma_apply_channel_creates(s: Seq<RemoteChannelView>, defs: Seq<ChannelDefinitionView>, fresh: Seq<u64>)
    requires
        fresh.len() >= defs.len(),
    ensures
        spec_apply_channel_actions(
            s,
            Seq::new(defs.len(), |i: int| ChannelActionView::Create(defs[i])),
            fresh,
        ) == s + spec_created_channels(defs, fresh),
    decreases defs.len(),
{
    let acts = Seq::new(defs.len(), |i: int| ChannelActionView::Create(defs[i]));
    if defs.len() == 0 {
        assert(s + spec_created_channels(defs, fresh) =~= s);
    } else {
        assert(acts.first() == ChannelActionView::Create(defs[0]));
        assert(acts.drop_first() =~= Seq::new(
            defs.drop_first().len(),
            |i: int| ChannelActionView::Create(defs.drop_first()[i]),
        ));
        lemma_apply_channel_creates(
            s.push(spec_created_channel(defs[0], fresh[0])),
            defs.drop_first(),
            fresh.drop_first(),
        );
        assert(s.push(spec_created_channel(defs[0], fresh[0])) + spec_created_channels(
            defs.drop_first(),
            fresh.drop_first(),
        ) =~= s + spec_created_channels(defs, fresh));
    }
}

proof fn lemma_created_channels_group_empty(defs: Seq<ChannelDefinitionView>, fresh: Seq<u64>, name: Seq<char>, category: Option<u64>)
    requires
        forall|j: int| 0 <= j < defs.len()
            ==> !((#[trigger] defs[j]).name == name && defs[j].category == category),
    ensures
        spec_channels_matching(spec_created_channels(defs, fresh), name, category)
            == Seq::<RemoteChannelView>::empty(),
    decreases defs.len(),
{
    if defs.len() == 0 {
    } else {
        lemma_created_channels_group_empty(defs.drop_last(), fresh, name, category);
        let list = spec_created_channels(defs, fresh);
        assert(list.drop_last() =~= spec_created_channels(defs.drop_last(), fresh));
        assert(list.last().name == defs[defs.len() - 1].name);
        assert(list.last().parent_id == defs[defs.len() - 1].category);
    }
}

proof fn lemma_created_channels_group_singleton(defs: Seq<ChannelDefinitionView>, fresh: Seq<u64>, i: int)
    requires
        spec_channel_keys_unique(defs),
        0 <= i < defs.len(),
    ensures
        spec_channels_matching(spec_created_channels(defs, fresh), defs[i].name, defs[i].category)
            == seq![spec_created_channel(defs[i], fresh[i])],
    decreases defs.len(),
{
    let list = spec_created_channels(defs, fresh);
    assert(list.drop_last() =~= spec_created_channels(defs.drop_last(), fresh));
    if i == defs.len() - 1 {
        lemma_created_channels_group_empty(defs.drop_last(), fresh, defs[i].name, defs[i].category);
        assert(list.last() == spec_created_channel(defs[i], fresh[i]));
        assert(spec_channels_matching(list, defs[i].name, defs[i].category)
            =~= seq![spec_created_channel(defs[i], fresh[i])]);
    } else {
        lemma_created_channels_group_singleton(defs.drop_last(), fresh, i);
        assert(defs.drop_last()[i] == defs[i]);
        assert(!(list.last().name == defs[i].name && list.last().parent_id == defs[i].category));
    }
}

/// Convergence from empty: creating every definition in order (which is
/// exactly the plan against an empty remote tier) leaves a remote tier
/// that agrees with the definitions, provided the desired keys are unique
/// and created channels satisfy their own overwrite comparison (they do:
/// a list equals itself as a set).
pub proof fn lemma_channel_provisioning_converges(defs: Seq<ChannelDefinitionView>, fresh: Seq<u64>)
    requires
        spec_channel_keys_unique(defs),
        fresh.len() >= defs.len(),
    ensures
        spec_apply_channel_actions(Seq::empty(), spec_channel_plan(defs, Seq::empty()), fresh)
            == spec_created_channels(defs, fresh),
        spec_channels_converged(defs, spec_created_channels(defs, fresh)),
{
    lemma_channel_plan_from_empty_remote(defs);
    lemma_apply_channel_creates(Seq::empty(), defs, fresh);
    assert(Seq::<RemoteChannelView>::empty() + spec_created_channels(defs, fresh)
        =~= spec_created_channels(defs, fresh));
    let list = spec_created_channels(defs, fresh);
    assert forall|i: int| 0 <= i < defs.len() implies (#[trigger] spec_channels_matching(
        list,
        defs[i].name,
        defs[i].category,
    )).len() == 1 && spec_channel_synced(
        spec_channels_matching(list, defs[i].name, defs[i].category)[0],
        defs[i],
    ) by {
        lemma_created_channels_group_singleton(defs, fresh, i);
        assert(spec_channel_synced(spec_created_channel(defs[i], fresh[i]), defs[i]));
    }
    assert forall|j: int| 0 <= j < list.len() implies spec_channel_key_defined(
        defs,
        (#[trigger] list[j]).name,
        list[j].parent_id,
    ) by {
        assert(list[j].name == defs[j].name && list[j].parent_id == defs[j].category);
    }
}

/// Convergence from nothing: against an empty remote tier the plan is one
/// create per definition, in order, and no edit or delete at all.
pub proof fn lemma_channel_plan_from_empty_remote(defs: Seq<ChannelDefinitionView>)
    ensures
        spec_channel_plan(defs, Seq::empty()) == Seq::new(
            defs.len(),
            |i: int| ChannelActionView::Create(defs[i]),
        ),
    decreases defs.len(),
{
    if defs.len() == 0 {
        assert(spec_channel_plan(defs, Seq::empty()) =~= Seq::new(
            defs.len(),
            |i: int| ChannelActionView::Create(defs[i]),
        ));
    } else {
        lemma_channel_plan_from_empty_remote(defs.drop_last());
        assert(spec_channels_matching(Seq::empty(), defs.last().name, defs.last().category)
            == Seq::<RemoteChannelView>::empty());
        assert(spec_channel_actions_for(Seq::empty(), defs.last())
            =~= seq![ChannelActionView::Create(defs.last())]);
        assert(spec_channel_cleanup_actions(defs, Seq::empty()) == Seq::<ChannelActionView>::empty());
        assert(spec_channel_cleanup_actions(defs.drop_last(), Seq::empty())
            == Seq::<ChannelActionView>::empty());
        assert(spec_channel_plan(defs, Seq::empty()) =~= Seq::new(
            defs.len(),
            |i: int| ChannelActionView::Create(defs[i]),
        ));
    }
}

/// Idempotence from empty, end to end: provisioning an empty remote tier
/// issues one create per definition; a second run against the resulting
/// tier plans nothing at all.
pub proof fn lemma_channel_reconciliation_idempotent_from_empty(defs: Seq<ChannelDefinitionView>, fresh: Seq<u64>)
    requires
        spec_channel_keys_unique(defs),
        fresh.len() >= defs.len(),
    ensures
        spec_channel_plan(
            defs,
            spec_apply_channel_actions(Seq::empty(), spec_channel_plan(defs, Seq::empty()), fresh),
        ) == Seq::<ChannelActionView>::empty(),
{
    lemma_channel_provisioning_converges(defs, fresh);
    lemma_converged_channel_plan_empty(defs, spec_created_channels(defs, fresh));
}

/// Remote channel ids are pairwise distinct, as the platform guarantees.
pub open spec fn spec_channel_ids_distinct(cs: Seq<RemoteChannelView>) -> bool {
    forall|i: int, j: int| 0 <= i < j < cs.len() ==> (#[trigger] cs[i]).id != (#[trigger] cs[j]).id
}

/// Some channel of the list bears this id.
pub open spec fn spec_channel_id_present(cs: Seq<RemoteChannelView>, id: u64) -> bool {
    exists|j: int| 0 <= j < cs.len() && (#[trigger] cs[j]).id == id
}

proof fn lemma_channel_creates_concat(a: Seq<ChannelActionView>, b: Seq<ChannelActionView>)
    ensures
        spec_channel_creates(a + b) == spec_channel_creates(a) + spec_channel_creates(b),
    decreases a.len(),
{
    if a.len() == 0 {
        assert(a + b =~= b);
    } else {
        assert((a + b).first() == a.first());
        assert((a + b).drop_first() =~= a.drop_first() + b);
        lemma_channel_creates_concat(a.drop_first(), b);
    }
}

proof fn lemma_apply_channel_actions_concat(s: Seq<RemoteChannelView>, a: Seq<ChannelActionView>, b: Seq<ChannelActionView>, f: Seq<u64>)
    requires
        spec_channel_creates(a) <= f.len(),
    ensures
        spec_apply_channel_actions(s, a + b, f) == spec_apply_channel_actions(
            spec_apply_channel_actions(s, a, f),
            b,
            f.skip(spec_channel_creates(a) as int),
        ),
    decreases a.len(),
{
    if a.len() == 0 {
        assert(a + b =~= b);
        assert(f.skip(0) =~= f);
    } else {
        assert((a + b).first() == a.first());
        assert((a + b).drop_first() =~= a.drop_first() + b);
        match a.first() {
            ChannelActionView::Create(d) => {
                assert(spec_channel_creates(a) == 1 + spec_channel_creates(a.drop_first()));
                lemma_apply_channel_actions_concat(
                    s.push(spec_created_channel(d, f.first())),
                    a.drop_first(),
                    b,
                    f.drop_first(),
                );
                assert(f.drop_first().skip(spec_channel_creates(a.drop_first()) as int)
                    =~= f.skip(spec_channel_creates(a) as int));
            },
            ChannelActionView::Edit(id, d) => {
                lemma_apply_channel_actions_concat(
                    spec_edit_channel_list(s, id, d),
                    a.drop_first(),
                    b,
                    f,
                );
            },
            ChannelActionView::Delete(id) => {
                lemma_apply_channel_actions_concat(
                    spec_channels_without(s, id),
                    a.drop_first(),
                    b,
                    f,
                );
            },
        }
    }
}

proof fn lemma_channels_matching_membership(cs: Seq<RemoteChannelView>, name: Seq<char>, cat: Option<u64>)
    ensures
        forall|x: RemoteChannelView| #[trigger] spec_channels_matching(cs, name, cat).contains(x)
            <==> (cs.contains(x) && x.name == name && x.parent_id == cat),
    decreases cs.len(),
{
    if cs.len() == 0 {
    } else {
        lemma_channels_matching_membership(cs.drop_last(), name, cat);
        let group = spec_channels_matching(cs, name, cat);
        let prev = spec_channels_matching(cs.drop_last(), name, cat);
        assert forall|x: RemoteChannelView| #[trigger] group.contains(x) implies (cs.contains(x)
            && x.name == name && x.parent_id == cat) by {
            if spec_channel_key_matches(cs.last(), name, cat) && x == cs.last() {
                assert(cs.contains(x));
            } else {
                assert(prev.contains(x));
                assert(cs.drop_last().contains(x));
                let k = choose|k: int| 0 <= k < cs.drop_last().len() && cs.drop_last()[k] == x;
                assert(cs[k] == x);
            }
        }
        assert forall|x: RemoteChannelView| cs.contains(x) && x.name == name && x.parent_id == cat
            implies #[trigger] group.contains(x) by {
            let k = choose|k: int| 0 <= k < cs.len() && cs[k] == x;
            if k < cs.len() - 1 {
                assert(cs.drop_last()[k] == x);
                assert(cs.drop_last().contains(x));
                assert(prev.contains(x));
                if spec_channel_key_matches(cs.last(), name, cat) {
                    let p = choose|p: int| 0 <= p < prev.len() && prev[p] == x;
                    assert(group[p] == x);
                }
            } else {
                assert(x == cs.last());
                assert(group.last() == x);
            }
        }
    }
}

proof fn lemma_channels_without_membership(cs: Seq<RemoteChannelView>, id: u64)
    ensures
        forall|x: RemoteChannelView| #[trigger] spec_channels_without(cs, id).contains(x)
            <==> (cs.contains(x) && x.id != id),
    decreases cs.len(),
{
    if cs.len() == 0 {
    } else {
        lemma_channels_without_membership(cs.drop_last(), id);
        let out = spec_channels_without(cs, id);
        let prev = spec_channels_without(cs.drop_last(), id);
        assert forall|x: RemoteChannelView| #[trigger] out.contains(x) implies (cs.contains(x)
            && x.id != id) by {
            if cs.last().id != id && x == cs.last() {
                assert(cs.contains(x));
            } else {
                assert(prev.contains(x));
                assert(cs.drop_last().contains(x));
                let k = choose|k: int| 0 <= k < cs.drop_last().len() && cs.drop_last()[k] == x;
                assert(cs[k] == x);
            }
        }
        assert forall|x: RemoteChannelView| cs.contains(x) && x.id != id implies #[trigger] out.contains(
            x,
        ) by {
            let k = choose|k: int| 0 <= k < cs.len() && cs[k] == x;
            if k < cs.len() - 1 {
                assert(cs.drop_last()[k] == x);
                assert(cs.drop_last().contains(x));
                assert(prev.contains(x));
                if cs.last().id != id {
                    let p = choose|p: int| 0 <= p < prev.len() && prev[p] == x;
                    assert(out[p] == x);
                }
            } else {
                assert(x == cs.last());
                assert(out.last() == x);
            }
        }
    }
}

proof fn lemma_channels_matching_without_commute(cs: Seq<RemoteChannelView>, id: u64, name: Seq<char>, cat: Option<u64>)
    ensures
        spec_channels_matching(spec_channels_without(cs, id), name, cat)
            == spec_channels_without(spec_channels_matching(cs, name, cat), id),
    decreases cs.len(),
{
    if cs.len() == 0 {
    } else {
        lemma_channels_matching_without_commute(cs.drop_last(), id, name, cat);
        let dl = cs.drop_last();
        let last = cs.last();
        if last.id == id {
            if spec_channel_key_matches(last, name, cat) {
                assert(spec_channels_matching(dl, name, cat).push(last).drop_last()
                    =~= spec_channels_matching(dl, name, cat));
                assert(spec_channels_without(spec_channels_matching(cs, name, cat), id)
                    == spec_channels_without(spec_channels_matching(dl, name, cat), id));
            }
        } else {
            assert(spec_channels_without(cs, id) == spec_channels_without(dl, id).push(last));
            assert(spec_channels_without(dl, id).push(last).drop_last()
                =~= spec_channels_without(dl, id));
            if spec_channel_key_matches(last, name, cat) {
                assert(spec_channels_matching(dl, name, cat).push(last).drop_last()
                    =~= spec_channels_matching(dl, name, cat));
                assert(spec_channels_matching(spec_channels_without(cs, id), name, cat)
                    == spec_channels_matching(spec_channels_without(dl, id), name, cat).push(last));
                assert(spec_channels_without(spec_channels_matching(cs, name, cat), id)
                    == spec_channels_without(spec_channels_matching(dl, name, cat), id).push(last));
            } else {
                assert(spec_channels_matching(spec_channels_without(cs, id), name, cat)
                    == spec_channels_matching(spec_channels_without(dl, id), name, cat));
            }
        }
    }
}

proof fn lemma_channels_without_absent(cs: Seq<RemoteChannelView>, id: u64)
    requires
        forall|j: int| 0 <= j < cs.len() ==> (#[trigger] cs[j]).id != id,
    ensures
        spec_channels_without(cs, id) == cs,
    decreases cs.len(),
{
    if cs.len() == 0 {
        assert(spec_channels_without(cs, id) =~= cs);
    } else {
        lemma_channels_without_absent(cs.drop_last(), id);
        assert(spec_channels_without(cs, id) =~= cs);
    }
}

proof fn lemma_channels_without_no_duplicate_positions(cs: Seq<RemoteChannelView>, id: u64, i: int, j: int)
    requires
        spec_channel_ids_distinct(cs),
        0 <= i < j < spec_channels_without(cs, id).len(),
    ensures
        spec_channels_without(cs, id)[i] != spec_channels_without(cs, id)[j]
            || spec_channels_without(cs, id)[i].id != spec_channels_without(cs, id)[j].id,
    decreases cs.len(),
{
    if cs.len() == 0 {
    } else {
        let out = spec_channels_without(cs, id);
        let prev = spec_channels_without(cs.drop_last(), id);
        if cs.last().id == id {
            lemma_channels_without_no_duplicate_positions(cs.drop_last(), id, i, j);
        } else {
            if j < prev.len() {
                lemma_channels_without_no_duplicate_positions(cs.drop_last(), id, i, j);
            } else {
                lemma_channels_without_membership(cs.drop_last(), id);
                assert(prev.contains(out[i]));
                assert(cs.drop_last().contains(out[i]));
                let k = choose|k: int| 0 <= k < cs.drop_last().len() && cs.drop_last()[k] == out[i];
                assert(cs[k] == out[i]);
                assert(cs[k].id != cs.last().id);
            }
        }
    }
}

proof fn lemma_channels_without_distinct(cs: Seq<RemoteChannelView>, id: u64)
    requires
        spec_channel_ids_distinct(cs),
    ensures
        spec_channel_ids_distinct(spec_channels_without(cs, id)),
        forall|x: u64| spec_channel_id_present(spec_channels_without(cs, id), x)
            ==> spec_channel_id_present(cs, x),
    decreases cs.len(),
{
    lemma_channels_without_membership(cs, id);
    let out = spec_channels_without(cs, id);
    assert forall|i: int, j: int| 0 <= i < j < out.len() implies (#[trigger] out[i]).id
        != (#[trigger] out[j]).id by {
        assert(out.contains(out[i]));
        assert(out.contains(out[j]));
        let ki = choose|k: int| 0 <= k < cs.len() && cs[k] == out[i];
        let kj = choose|k: int| 0 <= k < cs.len() && cs[k] == out[j];
        if out[i].id == out[j].id {
            if ki == kj {
                assert(out[i] == out[j]);
                lemma_channels_without_no_duplicate_positions(cs, id, i, j);
            }
        }
    }
    assert forall|x: u64| spec_channel_id_present(out, x) implies spec_channel_id_present(cs, x) by {
        let j = choose|j: int| 0 <= j < out.len() && out[j].id == x;
        assert(out.contains(out[j]));
        let k = choose|k: int| 0 <= k < cs.len() && cs[k] == out[j];
        assert(cs[k].id == x);
    }
}

proof fn lemma_channel_unique_id(cs: Seq<RemoteChannelView>, x: RemoteChannelView, j: int)
    requires
        spec_channel_ids_distinct(cs),
        cs.contains(x),
        0 <= j < cs.len(),
        cs[j].id == x.id,
    ensures
        cs[j] == x,
{
    let k = choose|k: int| 0 <= k < cs.len() && cs[k] == x;
    if j != k {
        assert(cs[j].id != cs[k].id);
    }
}

spec fn spec_channel_edit_fn(id: u64, d: ChannelDefinitionView) -> spec_fn(RemoteChannelView) -> RemoteChannelView {
    |c: RemoteChannelView| if c.id == id {
        spec_edited_channel(c, d)
    } else {
        c
    }
}

proof fn lemma_edit_channel_list_groups(cs: Seq<RemoteChannelView>, id: u64, d: ChannelDefinitionView, name: Seq<char>, cat: Option<u64>)
    requires
        forall|j: int| 0 <= j < cs.len() && (#[trigger] cs[j]).id == id ==> cs[j].name == d.name
            && cs[j].parent_id == d.category,
    ensures
        (name == d.name && cat == d.category) ==> spec_channels_matching(
            spec_edit_channel_list(cs, id, d),
            name,
            cat,
        ) == spec_channels_matching(cs, name, cat).map_values(spec_channel_edit_fn(id, d)),
        !(name == d.name && cat == d.category) ==> spec_channels_matching(
            spec_edit_channel_list(cs, id, d),
            name,
            cat,
        ) == spec_channels_matching(cs, name, cat),
    decreases cs.len(),
{
    let f = spec_channel_edit_fn(id, d);
    if cs.len() == 0 {
        assert(spec_edit_channel_list(cs, id, d) =~= Seq::<RemoteChannelView>::empty());
        assert(spec_channels_matching(cs, name, cat).map_values(f)
            =~= spec_channels_matching(cs, name, cat));
    } else {
        let dl = cs.drop_last();
        let last = cs.last();
        lemma_edit_channel_list_groups(dl, id, d, name, cat);
        assert(spec_edit_channel_list(cs, id, d) =~= spec_edit_channel_list(dl, id, d).push(f(last)));
        assert(spec_edit_channel_list(dl, id, d).push(f(last)).drop_last()
            =~= spec_edit_channel_list(dl, id, d));
        if spec_channel_key_matches(last, name, cat) {
            assert(spec_channels_matching(dl, name, cat).push(last).drop_last()
                =~= spec_channels_matching(dl, name, cat));
            assert(spec_channels_matching(cs, name, cat)
                == spec_channels_matching(dl, name, cat).push(last));
            if name == d.name && cat == d.category {
                assert(spec_channel_key_matches(f(last), name, cat));
                assert(spec_channels_matching(spec_edit_channel_list(cs, id, d), name, cat)
                    == spec_channels_matching(spec_edit_channel_list(dl, id, d), name, cat).push(
                    f(last),
                ));
                assert(spec_channels_matching(dl, name, cat).push(last).map_values(f)
                    =~= spec_channels_matching(dl, name, cat).map_values(f).push(f(last)));
            } else {
                assert(f(last) == last);
                assert(spec_channels_matching(spec_edit_channel_list(cs, id, d), name, cat)
                    == spec_channels_matching(spec_edit_channel_list(dl, id, d), name, cat).push(
                    last,
                ));
            }
        } else {
            if last.id == id {
                assert(f(last).name == d.name && f(last).parent_id == d.category);
                if name == d.name && cat == d.category {
                    assert(spec_channel_key_matches(last, name, cat));
                }
                assert(!spec_channel_key_matches(f(last), name, cat));
            } else {
                assert(f(last) == last);
            }
            assert(spec_channels_matching(spec_edit_channel_list(cs, id, d), name, cat)
                == spec_channels_matching(spec_edit_channel_list(dl, id, d), name, cat));
            assert(spec_channels_matching(cs, name, cat) == spec_channels_matching(dl, name, cat));
        }
    }
}

/// The deletions of a whole id list, applied front to back.
spec fn spec_channels_without_ids(s: Seq<RemoteChannelView>, ids: Seq<u64>) -> Seq<RemoteChannelView>
    decreases ids.len(),
{
    if ids.len() == 0 {
        s
    } else {
        spec_channels_without_ids(spec_channels_without(s, ids.first()), ids.drop_first())
    }
}

proof fn lemma_channel_creates_all_deletes(a: Seq<ChannelActionView>)
    requires
        forall|k: int| 0 <= k < a.len() ==> (#[trigger] a[k]) is Delete,
    ensures
        spec_channel_creates(a) == 0,
    decreases a.len(),
{
    if a.len() == 0 {
    } else {
        assert(a.first() == a[0]);
        assert(forall|k: int| 0 <= k < a.drop_first().len() ==> (#[trigger] a.drop_first()[k]) is Delete);
        lemma_channel_creates_all_deletes(a.drop_first());
    }
}

proof fn lemma_apply_channel_delete_ids(s: Seq<RemoteChannelView>, ids: Seq<u64>, f: Seq<u64>)
    ensures
        spec_apply_channel_actions(
            s,
            Seq::new(ids.len(), |k: int| ChannelActionView::Delete(ids[k])),
            f,
        ) == spec_channels_without_ids(s, ids),
    decreases ids.len(),
{
    let acts = Seq::new(ids.len(), |k: int| ChannelActionView::Delete(ids[k]));
    if ids.len() == 0 {
    } else {
        assert(acts.first() == ChannelActionView::Delete(ids[0]));
        assert(acts.drop_first() =~= Seq::new(
            ids.drop_first().len(),
            |k: int| ChannelActionView::Delete(ids.drop_first()[k]),
        ));
        lemma_apply_channel_delete_ids(spec_channels_without(s, ids.first()), ids.drop_first(), f);
    }
}

proof fn lemma_channels_without_ids_membership(s: Seq<RemoteChannelView>, ids: Seq<u64>)
    ensures
        forall|x: RemoteChannelView| #[trigger] spec_channels_without_ids(s, ids).contains(x)
            <==> (s.contains(x) && !ids.contains(x.id)),
    decreases ids.len(),
{
    if ids.len() == 0 {
        assert forall|x: RemoteChannelView| #[trigger] spec_channels_without_ids(s, ids).contains(x)
            <==> (s.contains(x) && !ids.contains(x.id)) by {
            assert(!ids.contains(x.id));
        }
    } else {
        lemma_channels_without_membership(s, ids.first());
        lemma_channels_without_ids_membership(spec_channels_without(s, ids.first()), ids.drop_first());
        assert forall|x: RemoteChannelView| #[trigger] spec_channels_without_ids(s, ids).contains(x)
            <==> (s.contains(x) && !ids.contains(x.id)) by {
            assert(spec_channels_without_ids(s, ids) == spec_channels_without_ids(
                spec_channels_without(s, ids.first()),
                ids.drop_first(),
            ));
            assert(spec_channels_without_ids(
                spec_channels_without(s, ids.first()),
                ids.drop_first(),
            ).contains(x) <==> (spec_channels_without(s, ids.first()).contains(x)
                && !ids.drop_first().contains(x.id)));
            assert(ids.contains(x.id) <==> (ids.first() == x.id || ids.drop_first().contains(
                x.id,
            ))) by {
                if ids.contains(x.id) {
                    let k = choose|k: int| 0 <= k < ids.len() && ids[k] == x.id;
                    if k > 0 {
                        assert(ids.drop_first()[k - 1] == x.id);
                    }
                } else {
                    if ids.drop_first().contains(x.id) {
                        let k = choose|k: int| 0 <= k < ids.drop_first().len()
                            && ids.drop_first()[k] == x.id;
                        assert(ids[k + 1] == x.id);
                    }
                }
            }
        }
    }
}

proof fn lemma_channels_without_ids_groups(s: Seq<RemoteChannelView>, ids: Seq<u64>, name: Seq<char>, cat: Option<u64>)
    ensures
        spec_channels_matching(spec_channels_without_ids(s, ids), name, cat)
            == spec_channels_without_ids(spec_channels_matching(s, name, cat), ids),
    decreases ids.len(),
{
    if ids.len() == 0 {
    } else {
        lemma_channels_matching_without_commute(s, ids.first(), name, cat);
        lemma_channels_without_ids_groups(
            spec_channels_without(s, ids.first()),
            ids.drop_first(),
            name,
            cat,
        );
    }
}

proof fn lemma_channels_without_ids_absent(s: Seq<RemoteChannelView>, ids: Seq<u64>)
    requires
        forall|j: int| 0 <= j < s.len() ==> !ids.contains((#[trigger] s[j]).id),
    ensures
        spec_channels_without_ids(s, ids) == s,
    decreases ids.len(),
{
    if ids.len() == 0 {
    } else {
        assert forall|j: int| 0 <= j < s.len() implies (#[trigger] s[j]).id != ids.first() by {
            assert(!ids.contains(s[j].id));
        }
        lemma_channels_without_absent(s, ids.first());
        assert forall|j: int| 0 <= j < s.len() implies !ids.drop_first().contains(
            (#[trigger] s[j]).id,
        ) by {
            if ids.drop_first().contains(s[j].id) {
                let k = choose|k: int| 0 <= k < ids.drop_first().len() && ids.drop_first()[k]
                    == s[j].id;
                assert(ids[k + 1] == s[j].id);
                assert(ids.contains(s[j].id));
            }
        }
        lemma_channels_without_ids_absent(s, ids.drop_first());
    }
}

proof fn lemma_channels_without_ids_distinct(s: Seq<RemoteChannelView>, ids: Seq<u64>)
    requires
        spec_channel_ids_distinct(s),
    ensures
        spec_channel_ids_distinct(spec_channels_without_ids(s, ids)),
        forall|x: u64| spec_channel_id_present(spec_channels_without_ids(s, ids), x)
            ==> spec_channel_id_present(s, x),
    decreases ids.len(),
{
    if ids.len() == 0 {
    } else {
        lemma_channels_without_distinct(s, ids.first());
        lemma_channels_without_ids_distinct(spec_channels_without(s, ids.first()), ids.drop_first());
    }
}

/// The state one definition's action group leaves behind.
spec fn spec_channel_group_state(cs: Seq<RemoteChannelView>, s: Seq<RemoteChannelView>, d: ChannelDefinitionView, f: Seq<u64>) -> Seq<RemoteChannelView> {
    spec_apply_channel_actions(s, spec_channel_actions_for(cs, d), f)
}

proof fn lemma_channel_group_apply(cs: Seq<RemoteChannelView>, s: Seq<RemoteChannelView>, d: ChannelDefinitionView, f: Seq<u64>)
    requires
        spec_channels_matching(s, d.name, d.category) == spec_channels_matching(cs, d.name, d.category),
        spec_channel_ids_distinct(s),
        f.len() >= spec_channel_creates(spec_channel_actions_for(cs, d)),
        spec_channel_creates(spec_channel_actions_for(cs, d)) >= 1 ==> !spec_channel_id_present(s, f[0]),
        spec_channels_matching(cs, d.name, d.category).len() == 1
            ==> spec_channels_matching(cs, d.name, d.category)[0].kind == d.kind,
    ensures
        spec_channel_creates(spec_channel_actions_for(cs, d)) <= 1,
        spec_channels_matching(spec_channel_group_state(cs, s, d, f), d.name, d.category).len() == 1,
        spec_channel_synced(
            spec_channels_matching(spec_channel_group_state(cs, s, d, f), d.name, d.category)[0],
            d,
        ),
        forall|n: Seq<char>, cat: Option<u64>| !(n == d.name && cat == d.category)
            ==> #[trigger] spec_channels_matching(spec_channel_group_state(cs, s, d, f), n, cat)
                == spec_channels_matching(s, n, cat),
        spec_channel_ids_distinct(spec_channel_group_state(cs, s, d, f)),
        forall|x: u64| spec_channel_id_present(spec_channel_group_state(cs, s, d, f), x)
            ==> spec_channel_id_present(s, x) || (spec_channel_creates(
                spec_channel_actions_for(cs, d),
            ) >= 1 && x == f[0]),
        forall|j: int| 0 <= j < spec_channel_group_state(cs, s, d, f).len()
            ==> s.contains(#[trigger] spec_channel_group_state(cs, s, d, f)[j])
                || (spec_channel_creates(spec_channel_actions_for(cs, d)) >= 1
                    && spec_channel_group_state(cs, s, d, f)[j].id == f[0])
                || (exists|c: RemoteChannelView| s.contains(c) && c.name == d.name && c.parent_id
                    == d.category && spec_channel_group_state(cs, s, d, f)[j]
                    == spec_edited_channel(c, d)),
{
    let m = spec_channels_matching(cs, d.name, d.category);
    let acts = spec_channel_actions_for(cs, d);
    let s2 = spec_channel_group_state(cs, s, d, f);
    lemma_channels_matching_membership(s, d.name, d.category);
    if m.len() == 1 && spec_channel_synced(m[0], d) {
        assert(acts == Seq::<ChannelActionView>::empty());
        assert(s2 == s);
    } else if m.len() == 1 {
        let m0 = m[0];
        assert(m.contains(m0));
        assert(s.contains(m0) && m0.name == d.name && m0.parent_id == d.category);
        assert(acts == seq![ChannelActionView::Edit(m0.id, d)]);
        assert(acts.first() == ChannelActionView::Edit(m0.id, d));
        assert(acts.drop_first().len() == 0);
        assert(spec_channel_creates(acts.drop_first()) == 0);
        assert(spec_channel_creates(acts) == 0);
        let edited = spec_edit_channel_list(s, m0.id, d);
        assert(spec_apply_channel_actions(edited, acts.drop_first(), f) == edited);
        assert(s2 == edited);
        assert forall|j: int| 0 <= j < s.len() && (#[trigger] s[j]).id == m0.id implies s[j].name
            == d.name && s[j].parent_id == d.category by {
            lemma_channel_unique_id(s, m0, j);
        }
        let fedit = spec_channel_edit_fn(m0.id, d);
        assert forall|n: Seq<char>, cat: Option<u64>| !(n == d.name && cat == d.category)
            implies #[trigger] spec_channels_matching(s2, n, cat) == spec_channels_matching(
            s,
            n,
            cat,
        ) by {
            lemma_edit_channel_list_groups(s, m0.id, d, n, cat);
        }
        lemma_edit_channel_list_groups(s, m0.id, d, d.name, d.category);
        assert(spec_channels_matching(s2, d.name, d.category) == m.map_values(fedit));
        assert(m.map_values(fedit)[0] == fedit(m0));
        assert(fedit(m0) == spec_edited_channel(m0, d));
        assert(spec_edited_channel(m0, d).kind == d.kind);
        assert(spec_channel_synced(spec_edited_channel(m0, d), d)) by {
            assert(spec_topics_equal(d.topic, d.topic));
            assert(spec_overwrite_sets_equal(d.permissions, d.permissions));
        }
        assert(spec_channels_matching(s2, d.name, d.category).len() == 1);
        assert(forall|j: int| 0 <= j < s.len() ==> (#[trigger] edited[j]).id == s[j].id);
        assert(spec_channel_ids_distinct(s2));
        assert forall|x: u64| spec_channel_id_present(s2, x) implies spec_channel_id_present(s, x) by {
            let j = choose|j: int| 0 <= j < s2.len() && s2[j].id == x;
            assert(s[j].id == x);
        }
        assert forall|j: int| 0 <= j < s2.len() implies s.contains(#[trigger] s2[j])
            || (spec_channel_creates(acts) >= 1 && s2[j].id == f[0]) || (exists|c: RemoteChannelView| s.contains(
            c,
        ) && c.name == d.name && c.parent_id == d.category && s2[j] == spec_edited_channel(c, d)) by {
            assert(s2[j] == fedit(s[j]));
            if s[j].id == m0.id {
                lemma_channel_unique_id(s, m0, j);
                assert(s2[j] == spec_edited_channel(m0, d));
            } else {
                assert(s2[j] == s[j]);
                assert(s.contains(s[j]));
            }
        }
    } else {
        let ids = Seq::new(m.len(), |k: int| m[k].id);
        let da = Seq::new(m.len(), |k: int| ChannelActionView::Delete(m[k].id));
        assert(da =~= Seq::new(ids.len(), |k: int| ChannelActionView::Delete(ids[k])));
        assert(acts == da.push(ChannelActionView::Create(d)));
        assert(da.push(ChannelActionView::Create(d)) =~= da + seq![ChannelActionView::Create(d)]);
        lemma_channel_creates_all_deletes(da);
        lemma_channel_creates_concat(da, seq![ChannelActionView::Create(d)]);
        assert(spec_channel_creates(seq![ChannelActionView::Create(d)]) == 1) by {
            let ca = seq![ChannelActionView::Create(d)];
            assert(ca.first() == ChannelActionView::Create(d));
            assert(ca.drop_first().len() == 0);
            assert(spec_channel_creates(ca.drop_first()) == 0);
        }
        assert(spec_channel_creates(acts) == 1);
        lemma_apply_channel_actions_concat(s, da, seq![ChannelActionView::Create(d)], f);
        lemma_apply_channel_delete_ids(s, ids, f);
        let deleted = spec_channels_without_ids(s, ids);
        assert(f.skip(0) =~= f);
        assert(s2 == spec_apply_channel_actions(deleted, seq![ChannelActionView::Create(d)], f));
        let created = spec_created_channel(d, f.first());
        assert(s2 == deleted.push(created)) by {
            let ca = seq![ChannelActionView::Create(d)];
            assert(ca.first() == ChannelActionView::Create(d));
            assert(ca.drop_first().len() == 0);
            assert(spec_apply_channel_actions(deleted.push(created), ca.drop_first(), f.drop_first())
                == deleted.push(created));
        }
        assert(f.first() == f[0]);
        lemma_channels_without_ids_groups(s, ids, d.name, d.category);
        lemma_channels_without_ids_membership(m, ids);
        assert(spec_channels_without_ids(m, ids).len() == 0) by {
            if spec_channels_without_ids(m, ids).len() > 0 {
                let y = spec_channels_without_ids(m, ids)[0];
                assert(spec_channels_without_ids(m, ids).contains(y));
                assert(m.contains(y) && !ids.contains(y.id));
                let k = choose|k: int| 0 <= k < m.len() && m[k] == y;
                assert(ids[k] == y.id);
            }
        }
        assert(spec_channels_without_ids(m, ids) =~= Seq::<RemoteChannelView>::empty());
        assert(spec_channels_matching(deleted, d.name, d.category)
            == Seq::<RemoteChannelView>::empty());
        assert(spec_channels_matching(s2, d.name, d.category) == seq![created]) by {
            assert(deleted.push(created).drop_last() =~= deleted);
            assert(spec_channel_key_matches(created, d.name, d.category));
            assert(Seq::<RemoteChannelView>::empty().push(created) =~= seq![created]);
        }
        assert(spec_channel_synced(created, d)) by {
            assert(spec_topics_equal(d.topic, d.topic));
            assert(spec_overwrite_sets_equal(d.permissions, d.permissions));
        }
        assert forall|n: Seq<char>, cat: Option<u64>| !(n == d.name && cat == d.category)
            implies #[trigger] spec_channels_matching(s2, n, cat) == spec_channels_matching(
            s,
            n,
            cat,
        ) by {
            lemma_channels_without_ids_groups(s, ids, n, cat);
            lemma_channels_matching_membership(s, n, cat);
            let g = spec_channels_matching(s, n, cat);
            assert forall|j: int| 0 <= j < g.len() implies !ids.contains((#[trigger] g[j]).id) by {
                if ids.contains(g[j].id) {
                    let k = choose|k: int| 0 <= k < ids.len() && ids[k] == g[j].id;
                    assert(m[k].id == g[j].id);
                    assert(m.contains(m[k]));
                    assert(s.contains(m[k]) && m[k].name == d.name && m[k].parent_id == d.category) by {
                        lemma_channels_matching_membership(s, d.name, d.category);
                    }
                    assert(g.contains(g[j]));
                    assert(s.contains(g[j]) && g[j].name == n && g[j].parent_id == cat);
                    let jj = choose|jj: int| 0 <= jj < s.len() && s[jj] == g[j];
                    lemma_channel_unique_id(s, m[k], jj);
                    assert(g[j] == m[k]);
                }
            }
            lemma_channels_without_ids_absent(g, ids);
            assert(spec_channels_matching(deleted, n, cat) == g);
            assert(deleted.push(created).drop_last() =~= deleted);
            assert(!spec_channel_key_matches(created, n, cat));
            assert(spec_channels_matching(s2, n, cat) == spec_channels_matching(deleted, n, cat));
        }
        lemma_channels_without_ids_distinct(s, ids);
        assert(spec_channel_ids_distinct(s2)) by {
            assert forall|i: int, j: int| 0 <= i < j < s2.len() implies (#[trigger] s2[i]).id
                != (#[trigger] s2[j]).id by {
                if j == s2.len() - 1 {
                    assert(s2[j] == created);
                    assert(s2[i] == deleted[i]);
                    assert(deleted.contains(deleted[i]));
                    if deleted[i].id == f[0] {
                        assert(spec_channel_id_present(deleted, f[0]));
                        assert(spec_channel_id_present(s, f[0]));
                    }
                }
            }
        }
        assert forall|x: u64| spec_channel_id_present(s2, x) implies spec_channel_id_present(s, x)
            || (spec_channel_creates(acts) >= 1 && x == f[0]) by {
            let j = choose|j: int| 0 <= j < s2.len() && s2[j].id == x;
            if j < s2.len() - 1 {
                assert(spec_channel_id_present(deleted, x));
            }
        }
        assert forall|j: int| 0 <= j < s2.len() implies s.contains(#[trigger] s2[j])
            || (spec_channel_creates(acts) >= 1 && s2[j].id == f[0]) || (exists|c: RemoteChannelView| s.contains(
            c,
        ) && c.name == d.name && c.parent_id == d.category && s2[j] == spec_edited_channel(c, d)) by {
            if j < s2.len() - 1 {
                assert(s2[j] == deleted[j]);
                assert(deleted.contains(deleted[j]));
                lemma_channels_without_ids_membership(s, ids);
                assert(s.contains(s2[j]));
            } else {
                assert(s2[j] == created);
            }
        }
    }
}

/// The remote tier after the per-definition pass.
spec fn spec_channel_sync_state(defs: Seq<ChannelDefinitionView>, cs: Seq<RemoteChannelView>, f: Seq<u64>) -> Seq<RemoteChannelView> {
    spec_apply_channel_actions(cs, spec_channel_sync_actions(defs, cs), f)
}

/// The fresh ids are pairwise distinct and collide with no remote id.
pub open spec fn spec_channel_fresh_ids_ok(cs: Seq<RemoteChannelView>, f: Seq<u64>) -> bool {
    &&& forall|i: int, j: int| 0 <= i < j < f.len() ==> f[i] != f[j]
    &&& forall|i: int| 0 <= i < f.len() ==> !spec_channel_id_present(cs, #[trigger] f[i])
}

/// A unique key match can be converged by editing only if it already has
/// the desired kind, since the platform cannot change a channel's kind.
pub open spec fn spec_channel_kinds_editable(defs: Seq<ChannelDefinitionView>, cs: Seq<RemoteChannelView>) -> bool {
    forall|i: int| 0 <= i < defs.len() && (#[trigger] spec_channels_matching(
        cs,
        defs[i].name,
        defs[i].category,
    )).len() == 1 ==> spec_channels_matching(cs, defs[i].name, defs[i].category)[0].kind
        == defs[i].kind
}

proof fn lemma_channel_sync_phase(defs: Seq<ChannelDefinitionView>, cs: Seq<RemoteChannelView>, f: Seq<u64>)
    requires
        spec_channel_keys_unique(defs),
        spec_channel_ids_distinct(cs),
        spec_channel_fresh_ids_ok(cs, f),
        spec_channel_kinds_editable(defs, cs),
        f.len() >= spec_channel_creates(spec_channel_sync_actions(defs, cs)),
    ensures
        forall|i: int| 0 <= i < defs.len() ==> (#[trigger] spec_channels_matching(
            spec_channel_sync_state(defs, cs, f),
            defs[i].name,
            defs[i].category,
        )).len() == 1,
        forall|i: int| 0 <= i < defs.len() ==> spec_channel_synced(
            (#[trigger] spec_channels_matching(
                spec_channel_sync_state(defs, cs, f),
                defs[i].name,
                defs[i].category,
            ))[0],
            defs[i],
        ),
        forall|n: Seq<char>, cat: Option<u64>| (forall|i: int| 0 <= i < defs.len()
            ==> !((#[trigger] defs[i]).name == n && defs[i].category == cat))
            ==> #[trigger] spec_channels_matching(spec_channel_sync_state(defs, cs, f), n, cat)
                == spec_channels_matching(cs, n, cat),
        spec_channel_ids_distinct(spec_channel_sync_state(defs, cs, f)),
        forall|x: u64| spec_channel_id_present(spec_channel_sync_state(defs, cs, f), x)
            ==> spec_channel_id_present(cs, x) || f.take(
                spec_channel_creates(spec_channel_sync_actions(defs, cs)) as int,
            ).contains(x),
        forall|j: int, k: int| 0 <= j < spec_channel_sync_state(defs, cs, f).len() && 0 <= k
            < cs.len() && (#[trigger] spec_channel_sync_state(defs, cs, f)[j]).id
            == (#[trigger] cs[k]).id && !spec_channel_key_defined(defs, cs[k].name, cs[k].parent_id)
            ==> spec_channel_sync_state(defs, cs, f)[j] == cs[k],
    decreases defs.len(),
{
    if defs.len() == 0 {
        assert(spec_channel_sync_state(defs, cs, f) == cs);
        assert forall|j: int, k: int| 0 <= j < cs.len() && 0 <= k < cs.len() && (#[trigger] cs[j]).id
            == (#[trigger] cs[k]).id && !spec_channel_key_defined(defs, cs[k].name, cs[k].parent_id)
            implies cs[j] == cs[k] by {
            if j != k {
                assert(cs[j].id != cs[k].id);
            }
        }
    } else {
        let dl = defs.drop_last();
        let last = defs.last();
        let sync_dl = spec_channel_sync_actions(dl, cs);
        let group_acts = spec_channel_actions_for(cs, last);
        let cp = spec_channel_creates(sync_dl);
        let cg = spec_channel_creates(group_acts);
        let c = spec_channel_creates(spec_channel_sync_actions(defs, cs));
        assert(spec_channel_sync_actions(defs, cs) == sync_dl + group_acts);
        lemma_channel_creates_concat(sync_dl, group_acts);
        assert(c == cp + cg);
        assert(spec_channel_kinds_editable(dl, cs)) by {
            assert(forall|i: int| 0 <= i < dl.len() ==> dl[i] == defs[i]);
        }
        lemma_channel_sync_phase(dl, cs, f);
        let sp = spec_channel_sync_state(dl, cs, f);
        lemma_apply_channel_actions_concat(cs, sync_dl, group_acts, f);
        let fg = f.skip(cp as int);
        let s2 = spec_channel_sync_state(defs, cs, f);
        assert(s2 == spec_apply_channel_actions(sp, group_acts, fg));
        assert(s2 == spec_channel_group_state(cs, sp, last, fg));

        assert forall|i: int| 0 <= i < dl.len() implies !((#[trigger] dl[i]).name == last.name
            && dl[i].category == last.category) by {
            assert(defs[i] == dl[i]);
            assert(defs[defs.len() - 1] == last);
        }
        assert(spec_channels_matching(sp, last.name, last.category) == spec_channels_matching(
            cs,
            last.name,
            last.category,
        ));
        assert(fg.len() >= cg);
        if cg >= 1 {
            assert(fg[0] == f[cp as int]);
            assert(!spec_channel_id_present(sp, f[cp as int])) by {
                if spec_channel_id_present(sp, f[cp as int]) {
                    if f.take(cp as int).contains(f[cp as int]) {
                        let k = choose|k: int| 0 <= k < cp && f.take(cp as int)[k] == f[cp as int];
                        assert(f[k] == f[cp as int]);
                    }
                }
            }
        }
        assert(spec_channels_matching(cs, last.name, last.category).len() == 1
            ==> spec_channels_matching(cs, last.name, last.category)[0].kind == last.kind) by {
            assert(defs[defs.len() - 1] == last);
        }
        lemma_channel_group_apply(cs, sp, last, fg);

        assert forall|i: int| 0 <= i < defs.len() implies (#[trigger] spec_channels_matching(
            s2,
            defs[i].name,
            defs[i].category,
        )).len() == 1 && spec_channel_synced(
            spec_channels_matching(s2, defs[i].name, defs[i].category)[0],
            defs[i],
        ) by {
            if i < defs.len() - 1 {
                assert(defs[i] == dl[i]);
                assert(!(defs[i].name == last.name && defs[i].category == last.category));
                assert(spec_channels_matching(s2, defs[i].name, defs[i].category)
                    == spec_channels_matching(sp, defs[i].name, defs[i].category));
            } else {
                assert(defs[i] == last);
            }
        }
        assert forall|n: Seq<char>, cat: Option<u64>| (forall|i: int| 0 <= i < defs.len()
            ==> !((#[trigger] defs[i]).name == n && defs[i].category == cat))
            implies #[trigger] spec_channels_matching(s2, n, cat) == spec_channels_matching(
            cs,
            n,
            cat,
        ) by {
            assert(defs[defs.len() - 1] == last);
            assert(!(last.name == n && last.category == cat));
            assert(forall|i: int| 0 <= i < dl.len() ==> !((#[trigger] dl[i]).name == n
                && dl[i].category == cat)) by {
                assert(forall|i: int| 0 <= i < dl.len() ==> dl[i] == defs[i]);
            }
            assert(spec_channels_matching(s2, n, cat) == spec_channels_matching(sp, n, cat));
        }
        // id bookkeeping
        assert forall|x: u64| spec_channel_id_present(s2, x) implies spec_channel_id_present(cs, x)
            || f.take(c as int).contains(x) by {
            if spec_channel_id_present(sp, x) {
                if f.take(cp as int).contains(x) {
                    let k = choose|k: int| 0 <= k < cp && f.take(cp as int)[k] == x;
                    assert(f.take(c as int)[k] == x);
                }
            } else {
                assert(cg >= 1 && x == fg[0]);
                assert(x == f[cp as int]);
                assert(f.take(c as int)[cp as int] == x);
            }
        }
        assert forall|j: int, k: int| 0 <= j < s2.len() && 0 <= k < cs.len() && (#[trigger] s2[j]).id
            == (#[trigger] cs[k]).id && !spec_channel_key_defined(defs, cs[k].name, cs[k].parent_id)
            implies s2[j] == cs[k] by {
            assert(!spec_channel_key_defined(dl, cs[k].name, cs[k].parent_id)) by {
                if spec_channel_key_defined(dl, cs[k].name, cs[k].parent_id) {
                    let i = choose|i: int| 0 <= i < dl.len() && (#[trigger] dl[i]).name
                        == cs[k].name && dl[i].category == cs[k].parent_id;
                    assert(defs[i].name == cs[k].name && defs[i].category == cs[k].parent_id);
                }
            }
            assert(!(last.name == cs[k].name && last.category == cs[k].parent_id)) by {
                assert(defs[defs.len() - 1] == last);
            }
            if sp.contains(s2[j]) {
                let jj = choose|jj: int| 0 <= jj < sp.len() && sp[jj] == s2[j];
            } else if cg >= 1 && s2[j].id == fg[0] {
                assert(!spec_channel_id_present(cs, fg[0])) by {
                    assert(fg[0] == f[cp as int]);
                }
            } else if exists|r: RemoteChannelView| sp.contains(r) && r.name == last.name
                && r.parent_id == last.category && s2[j] == spec_edited_channel(r, last) {
                let r = choose|r: RemoteChannelView| sp.contains(r) && r.name == last.name
                    && r.parent_id == last.category && s2[j] == spec_edited_channel(r, last);
                let jj = choose|jj: int| 0 <= jj < sp.len() && sp[jj] == r;
                assert(sp[jj].id == cs[k].id);
                assert(sp[jj] == cs[k]);
                assert(r.name == cs[k].name && r.parent_id == cs[k].parent_id);
            } else {
                assert(false);
            }
        }
    }
}

proof fn lemma_channel_cleanup_all_deletes(defs: Seq<ChannelDefinitionView>, cs_c: Seq<RemoteChannelView>)
    ensures
        forall|k: int| 0 <= k < spec_channel_cleanup_actions(defs, cs_c).len()
            ==> (#[trigger] spec_channel_cleanup_actions(defs, cs_c)[k]) is Delete,
        spec_channel_creates(spec_channel_cleanup_actions(defs, cs_c)) == 0,
    decreases cs_c.len(),
{
    if cs_c.len() == 0 {
    } else {
        lemma_channel_cleanup_all_deletes(defs, cs_c.drop_last());
    }
    lemma_channel_creates_all_deletes(spec_channel_cleanup_actions(defs, cs_c));
}

proof fn lemma_channel_cleanup_phase(defs: Seq<ChannelDefinitionView>, cs_c: Seq<RemoteChannelView>, s: Seq<RemoteChannelView>, f: Seq<u64>)
    requires
        spec_channel_ids_distinct(s),
        forall|j: int, k: int| 0 <= j < s.len() && 0 <= k < cs_c.len() && (#[trigger] s[j]).id
            == (#[trigger] cs_c[k]).id && !spec_channel_key_defined(
            defs,
            cs_c[k].name,
            cs_c[k].parent_id,
        ) ==> s[j] == cs_c[k],
    ensures
        forall|n: Seq<char>, cat: Option<u64>| spec_channel_key_defined(defs, n, cat)
            ==> #[trigger] spec_channels_matching(
                spec_apply_channel_actions(s, spec_channel_cleanup_actions(defs, cs_c), f),
                n,
                cat,
            ) == spec_channels_matching(s, n, cat),
        forall|x: RemoteChannelView| #[trigger] spec_apply_channel_actions(
            s,
            spec_channel_cleanup_actions(defs, cs_c),
            f,
        ).contains(x) ==> s.contains(x),
        forall|k: int| 0 <= k < cs_c.len() && !spec_channel_key_defined(
            defs,
            (#[trigger] cs_c[k]).name,
            cs_c[k].parent_id,
        ) ==> !spec_channel_id_present(
            spec_apply_channel_actions(s, spec_channel_cleanup_actions(defs, cs_c), f),
            cs_c[k].id,
        ),
    decreases cs_c.len(),
{
    let acts = spec_channel_cleanup_actions(defs, cs_c);
    let out = spec_apply_channel_actions(s, acts, f);
    if cs_c.len() == 0 {
        assert(out == s);
    } else {
        let dl = cs_c.drop_last();
        let last = cs_c.last();
        let prev_acts = spec_channel_cleanup_actions(defs, dl);
        lemma_channel_cleanup_phase(defs, dl, s, f);
        let mid = spec_apply_channel_actions(s, prev_acts, f);
        lemma_channel_cleanup_all_deletes(defs, dl);
        if !spec_channel_key_defined(defs, last.name, last.parent_id) {
            assert(acts == prev_acts.push(ChannelActionView::Delete(last.id)));
            assert(prev_acts.push(ChannelActionView::Delete(last.id)) =~= prev_acts + seq![
                ChannelActionView::Delete(last.id),
            ]);
            lemma_apply_channel_actions_concat(s, prev_acts, seq![ChannelActionView::Delete(last.id)], f);
            assert(f.skip(0) =~= f);
            let da = seq![ChannelActionView::Delete(last.id)];
            assert(da.first() == ChannelActionView::Delete(last.id));
            assert(da.drop_first().len() == 0);
            let removed = spec_channels_without(mid, last.id);
            assert(spec_apply_channel_actions(removed, da.drop_first(), f) == removed);
            assert(out == removed);
            lemma_channels_without_membership(mid, last.id);
            assert forall|n: Seq<char>, cat: Option<u64>| spec_channel_key_defined(defs, n, cat)
                implies #[trigger] spec_channels_matching(out, n, cat) == spec_channels_matching(
                s,
                n,
                cat,
            ) by {
                lemma_channels_matching_without_commute(mid, last.id, n, cat);
                let g = spec_channels_matching(mid, n, cat);
                lemma_channels_matching_membership(mid, n, cat);
                assert forall|j: int| 0 <= j < g.len() implies (#[trigger] g[j]).id != last.id by {
                    assert(g.contains(g[j]));
                    assert(mid.contains(g[j]));
                    assert(s.contains(g[j]));
                    let jj = choose|jj: int| 0 <= jj < s.len() && s[jj] == g[j];
                    if s[jj].id == last.id {
                        assert(s[jj] == last);
                        assert(g[j].name == n && g[j].parent_id == cat);
                        assert(spec_channel_key_defined(defs, last.name, last.parent_id));
                    }
                }
                lemma_channels_without_absent(g, last.id);
            }
            assert forall|x: RemoteChannelView| #[trigger] out.contains(x) implies s.contains(x) by {
                assert(mid.contains(x));
            }
            assert forall|k: int| 0 <= k < cs_c.len() && !spec_channel_key_defined(
                defs,
                (#[trigger] cs_c[k]).name,
                cs_c[k].parent_id,
            ) implies !spec_channel_id_present(out, cs_c[k].id) by {
                if k == cs_c.len() - 1 {
                    if spec_channel_id_present(out, last.id) {
                        let j = choose|j: int| 0 <= j < out.len() && out[j].id == last.id;
                        assert(out.contains(out[j]));
                    }
                } else {
                    assert(cs_c[k] == dl[k]);
                    if spec_channel_id_present(out, cs_c[k].id) {
                        let j = choose|j: int| 0 <= j < out.len() && out[j].id == cs_c[k].id;
                        assert(out.contains(out[j]));
                        assert(mid.contains(out[j]));
                        let jj = choose|jj: int| 0 <= jj < mid.len() && mid[jj] == out[j];
                        assert(spec_channel_id_present(mid, cs_c[k].id));
                    }
                }
            }
        } else {
            assert(acts == prev_acts);
            assert(out == mid);
            assert forall|k: int| 0 <= k < cs_c.len() && !spec_channel_key_defined(
                defs,
                (#[trigger] cs_c[k]).name,
                cs_c[k].parent_id,
            ) implies !spec_channel_id_present(out, cs_c[k].id) by {
                if k < cs_c.len() - 1 {
                    assert(cs_c[k] == dl[k]);
                }
            }
        }
    }
}

/// Convergence, from any remote tier: executing the whole plan in order
/// leaves remote channels that agree with the definitions, provided the
/// desired keys are unique, remote ids are distinct, fresh ids collide
/// with nothing, and no definition's unique key match has the wrong kind
/// (an edit cannot change a channel's kind).
pub proof fn lemma_channel_plan_converges(defs: Seq<ChannelDefinitionView>, cs: Seq<RemoteChannelView>, fresh: Seq<u64>)
    requires
        spec_channel_keys_unique(defs),
        spec_channel_ids_distinct(cs),
        spec_channel_fresh_ids_ok(cs, fresh),
        spec_channel_kinds_editable(defs, cs),
        fresh.len() >= spec_channel_creates(spec_channel_plan(defs, cs)),
    ensures
        spec_channels_converged(
            defs,
            spec_apply_channel_actions(cs, spec_channel_plan(defs, cs), fresh),
        ),
{
    let sync = spec_channel_sync_actions(defs, cs);
    let cleanup = spec_channel_cleanup_actions(defs, cs);
    let c = spec_channel_creates(sync);
    lemma_channel_creates_concat(sync, cleanup);
    lemma_channel_cleanup_all_deletes(defs, cs);
    assert(spec_channel_creates(spec_channel_plan(defs, cs)) == c);
    lemma_apply_channel_actions_concat(cs, sync, cleanup, fresh);
    lemma_channel_sync_phase(defs, cs, fresh);
    let s = spec_channel_sync_state(defs, cs, fresh);
    let fc = fresh.skip(c as int);
    let final_state = spec_apply_channel_actions(cs, spec_channel_plan(defs, cs), fresh);
    assert(final_state == spec_apply_channel_actions(s, cleanup, fc));
    lemma_channel_cleanup_phase(defs, cs, s, fc);

    assert forall|i: int| 0 <= i < defs.len() implies (#[trigger] spec_channels_matching(
        final_state,
        defs[i].name,
        defs[i].category,
    )).len() == 1 && spec_channel_synced(
        spec_channels_matching(final_state, defs[i].name, defs[i].category)[0],
        defs[i],
    ) by {
        assert(spec_channel_key_defined(defs, defs[i].name, defs[i].category));
        assert(spec_channels_matching(final_state, defs[i].name, defs[i].category)
            == spec_channels_matching(s, defs[i].name, defs[i].category));
    }
    assert forall|j: int| 0 <= j < final_state.len() implies spec_channel_key_defined(
        defs,
        (#[trigger] final_state[j]).name,
        final_state[j].parent_id,
    ) by {
        let x = final_state[j];
        assert(final_state.contains(x));
        assert(s.contains(x));
        if !spec_channel_key_defined(defs, x.name, x.parent_id) {
            lemma_channels_matching_membership(s, x.name, x.parent_id);
            assert(spec_channels_matching(s, x.name, x.parent_id).contains(x));
            assert(spec_channels_matching(s, x.name, x.parent_id) == spec_channels_matching(
                cs,
                x.name,
                x.parent_id,
            )) by {
                assert(forall|i: int| 0 <= i < defs.len() ==> !((#[trigger] defs[i]).name == x.name
                    && defs[i].category == x.parent_id));
            }
            lemma_channels_matching_membership(cs, x.name, x.parent_id);
            assert(cs.contains(x));
            let k = choose|k: int| 0 <= k < cs.len() && cs[k] == x;
            assert(!spec_channel_id_present(final_state, cs[k].id));
            assert(final_state[j].id == cs[k].id);
        }
    }
}

/// Idempotence, from any remote tier: after one successful run, a second
/// run with the same definitions plans no mutating call at all.
pub proof fn lemma_channel_reconciliation_idempotent(defs: Seq<ChannelDefinitionView>, cs: Seq<RemoteChannelView>, fresh: Seq<u64>)
    requires
        spec_channel_keys_unique(defs),
        spec_channel_ids_distinct(cs),
        spec_channel_fresh_ids_ok(cs, fresh),
        spec_channel_kinds_editable(defs, cs),
        fresh.len() >= spec_channel_creates(spec_channel_plan(defs, cs)),
    ensures
        spec_channel_plan(defs, spec_apply_channel_actions(cs, spec_channel_plan(defs, cs), fresh))
            == Seq::<ChannelActionView>::empty(),
{
    lemma_channel_plan_converges(defs, cs, fresh);
    lemma_converged_channel_plan_empty(
        defs,
        spec_apply_channel_actions(cs, spec_channel_plan(defs, cs), fresh),
    );
}

/// Order-independence of overwrite comparison: a remote channel that
/// agrees with its definition except that its overwrite list is a
/// permutation of the desired one counts as synced, so the planner issues
/// no edit for it.
pub proof fn lemma_permuted_overwrites_count_as_synced(
    cs: Seq<RemoteChannelView>,
    c: RemoteChannelView,
    d: ChannelDefinitionView,
)
    requires
        c.kind == d.kind,
        c.name == d.name,
        c.parent_id == d.category,
        d.kind is Text ==> spec_topics_equal(c.topic, d.topic),
        c.permission_overwrites.to_multiset() == d.permissions.to_multiset(),
        spec_channels_matching(cs, d.name, d.category) == seq![c],
    ensures
        spec_channel_synced(c, d),
        spec_channel_actions_for(cs, d) == Seq::<ChannelActionView>::empty(),
{
    lemma_overwrite_sets_equal_permutation(c.permission_overwrites, d.permissions);
    assert(spec_channels_matching(cs, d.name, d.category)[0] == c);
}

} // verus!
