use ictsc_discord_bot::channels::{
    apply_channel_actions, build_category_definitions, build_channel_definitions,
    check_channel_synced, filter_channels_by_kind, find_category_id, plan_channel_deletion,
    plan_channels, ChannelAction, ChannelDefinition, ChannelKind, RemoteChannel,
};
use ictsc_discord_bot::error::{Error, SystemError};
use ictsc_discord_bot::models::Team;
use ictsc_discord_bot::permissions::{
    get_deny_permissions_for_staff_in_team_channel, get_permissions_for_readonly_channel_member,
    get_permissions_for_team_channel_member, PermissionOverwrite,
};
use ictsc_discord_bot::roles::RemoteRole;

fn cdef(name: &str, kind: ChannelKind, category: Option<u64>) -> ChannelDefinition {
    ChannelDefinition {
        name: name.to_string(),
        kind,
        topic: None,
        category,
        permissions: Vec::new(),
    }
}

fn rchan(id: u64, name: &str, kind: ChannelKind, parent: Option<u64>) -> RemoteChannel {
    RemoteChannel {
        id,
        name: name.to_string(),
        kind,
        parent_id: parent,
        topic: None,
        permission_overwrites: Vec::new(),
    }
}

fn overwrite(role_id: u64, allow: u64, deny: u64) -> PermissionOverwrite {
    PermissionOverwrite { allow, deny, role_id }
}

fn rrole(id: u64, name: &str) -> RemoteRole {
    RemoteRole {
        id,
        name: name.to_string(),
        permissions: 0,
        colour: 0,
        hoist: false,
        mentionable: false,
        managed: false,
    }
}

fn team(id: &str, role_name: &str) -> Team {
    Team {
        id: id.to_string(),
        role_name: role_name.to_string(),
        invitation_code: String::new(),
    }
}

#[test]
fn permuted_overwrites_count_as_already_synced() {
    let a = overwrite(1, 3, 0);
    let b = overwrite(2, 0, 5);
    let mut definition = cdef("general", ChannelKind::Text, None);
    definition.permissions = vec![a, b];
    let mut channel = rchan(10, "general", ChannelKind::Text, None);
    channel.permission_overwrites = vec![b, a];
    assert!(check_channel_synced(&channel, &definition));
    let plan = plan_channels(&vec![definition], &vec![channel]);
    assert!(plan.is_empty());
}

#[test]
fn differing_overwrites_cause_an_edit() {
    let mut definition = cdef("general", ChannelKind::Text, None);
    definition.permissions = vec![overwrite(1, 3, 0)];
    let channel = rchan(10, "general", ChannelKind::Text, None);
    let plan = plan_channels(&vec![definition], &vec![channel]);
    assert_eq!(plan.len(), 1);
    assert!(matches!(&plan[0], ChannelAction::Edit(10, _)));
}

#[test]
fn channel_plan_from_empty_is_all_creates() {
    let defs = vec![
        cdef("help", ChannelKind::Text, None),
        cdef("voice", ChannelKind::Voice, Some(4)),
    ];
    let plan = plan_channels(&defs, &Vec::new());
    assert_eq!(plan.len(), 2);
    assert!(matches!(&plan[0], ChannelAction::Create(d) if d.name == "help"));
    assert!(matches!(&plan[1], ChannelAction::Create(d) if d.name == "voice"));
}

#[test]
fn channel_second_run_plans_nothing() {
    let defs = vec![
        cdef("text", ChannelKind::Text, Some(1)),
        cdef("text", ChannelKind::Text, Some(2)),
    ];
    let remote = vec![
        rchan(5, "text", ChannelKind::Text, Some(1)),
        rchan(6, "stale", ChannelKind::Text, None),
    ];
    let plan = plan_channels(&defs, &remote);
    assert!(!plan.is_empty());
    let after = apply_channel_actions(&remote, &plan, &vec![100, 101]);
    let second = plan_channels(&defs, &after);
    assert!(second.is_empty());
}

#[test]
fn duplicate_channels_are_deleted_then_recreated() {
    let defs = vec![cdef("text", ChannelKind::Text, Some(1))];
    let remote = vec![
        rchan(5, "text", ChannelKind::Text, Some(1)),
        rchan(6, "text", ChannelKind::Text, Some(1)),
    ];
    let plan = plan_channels(&defs, &remote);
    assert_eq!(plan.len(), 3);
    assert_eq!(plan[0], ChannelAction::Delete(5));
    assert_eq!(plan[1], ChannelAction::Delete(6));
    assert!(matches!(&plan[2], ChannelAction::Create(d) if d.name == "text"));
}

#[test]
fn same_name_under_other_category_is_a_different_channel() {
    let defs = vec![cdef("text", ChannelKind::Text, Some(1))];
    let remote = vec![rchan(5, "text", ChannelKind::Text, Some(2))];
    let plan = plan_channels(&defs, &remote);
    // no key match: create the desired one, clean up the other
    assert_eq!(plan.len(), 2);
    assert!(matches!(&plan[0], ChannelAction::Create(d) if d.category == Some(1)));
    assert_eq!(plan[1], ChannelAction::Delete(5));
}

#[test]
fn missing_topic_on_text_channel_causes_an_edit() {
    let mut definition = cdef("text", ChannelKind::Text, None);
    definition.topic = Some("welcome".to_string());
    let channel = rchan(5, "text", ChannelKind::Text, None);
    let plan = plan_channels(&vec![definition], &vec![channel]);
    assert_eq!(plan.len(), 1);
    assert!(matches!(&plan[0], ChannelAction::Edit(5, _)));
}

#[test]
fn editing_clears_a_stale_topic_and_converges() {
    let definition = cdef("text", ChannelKind::Text, None);
    let mut channel = rchan(5, "text", ChannelKind::Text, None);
    channel.topic = Some("stale".to_string());
    let defs = vec![definition];
    let remote = vec![channel];
    let plan = plan_channels(&defs, &remote);
    assert_eq!(plan.len(), 1);
    assert!(matches!(&plan[0], ChannelAction::Edit(5, _)));
    let after = apply_channel_actions(&remote, &plan, &Vec::new());
    assert_eq!(after[0].topic, None);
    assert!(plan_channels(&defs, &after).is_empty());
}

#[test]
fn delete_channels_removes_everything_unprotected_or_not() {
    let remote = vec![
        rchan(1, "ICTSC2023 Staff", ChannelKind::Category, None),
        rchan(2, "help", ChannelKind::Text, None),
        rchan(3, "voice", ChannelKind::Voice, Some(1)),
    ];
    let plan = plan_channel_deletion(&remote);
    assert_eq!(
        plan,
        vec![
            ChannelAction::Delete(1),
            ChannelAction::Delete(2),
            ChannelAction::Delete(3),
        ]
    );
}

#[test]
fn filter_keeps_only_requested_kinds() {
    let remote = vec![
        rchan(1, "cat", ChannelKind::Category, None),
        rchan(2, "help", ChannelKind::Text, None),
        rchan(3, "voice", ChannelKind::Voice, Some(1)),
    ];
    let leaves = filter_channels_by_kind(&remote, &vec![ChannelKind::Text, ChannelKind::Voice]);
    assert_eq!(leaves.len(), 2);
    assert_eq!(leaves[0].id, 2);
    assert_eq!(leaves[1].id, 3);
    let cats = filter_channels_by_kind(&remote, &vec![ChannelKind::Category]);
    assert_eq!(cats.len(), 1);
    assert_eq!(cats[0].id, 1);
}

#[test]
fn category_definitions_are_staff_then_teams() {
    let teams = vec![team("team1", "Team One"), team("team2", "Team Two")];
    let defs = build_category_definitions(&teams);
    assert_eq!(defs.len(), 3);
    assert_eq!(defs[0].name, "ICTSC2023 Staff");
    assert_eq!(defs[1].name, "team1");
    assert_eq!(defs[2].name, "team2");
    assert!(defs.iter().all(|d| d.kind == ChannelKind::Category && d.category.is_none()));
}

#[test]
fn find_category_id_takes_first_by_name() {
    let cats = vec![
        rchan(1, "a", ChannelKind::Category, None),
        rchan(2, "a", ChannelKind::Category, None),
    ];
    assert_eq!(find_category_id(&cats, &"a".to_string()), Some(1));
    assert_eq!(find_category_id(&cats, &"b".to_string()), None);
}

#[test]
fn channel_builder_fails_fast_without_staff_category() {
    let teams = vec![team("team1", "Team One")];
    let roles = vec![rrole(1, "@everyone"), rrole(2, "Team One")];
    let categories = vec![rchan(7, "team1", ChannelKind::Category, None)];
    let r = build_channel_definitions(&teams, &roles, &categories);
    match r {
        Err(Error::SystemError(SystemError::NoSuchCategory(name))) => {
            assert_eq!(name, "ICTSC2023 Staff");
        },
        other => panic!("expected a missing-category error, got {:?}", other),
    }
}

#[test]
fn channel_builder_fails_fast_without_team_category() {
    let teams = vec![team("team1", "Team One")];
    let roles = vec![rrole(1, "@everyone"), rrole(2, "Team One")];
    let categories = vec![rchan(6, "ICTSC2023 Staff", ChannelKind::Category, None)];
    let r = build_channel_definitions(&teams, &roles, &categories);
    match r {
        Err(Error::SystemError(SystemError::NoSuchCategory(name))) => {
            assert_eq!(name, "team1");
        },
        other => panic!("expected a missing-category error, got {:?}", other),
    }
}

#[test]
fn channel_builder_fails_fast_without_default_role() {
    let teams = vec![team("team1", "Team One")];
    let roles = vec![rrole(2, "Team One")];
    let categories = vec![
        rchan(6, "ICTSC2023 Staff", ChannelKind::Category, None),
        rchan(7, "team1", ChannelKind::Category, None),
    ];
    let r = build_channel_definitions(&teams, &roles, &categories);
    match r {
        Err(Error::SystemError(SystemError::NoSuchRole(name))) => {
            assert_eq!(name, "@everyone");
        },
        other => panic!("expected a missing-role error, got {:?}", other),
    }
}

#[test]
fn channel_builder_places_every_leaf_under_its_category() {
    let teams = vec![team("team1", "Team One")];
    let roles = vec![
        rrole(1, "@everyone"),
        rrole(2, "ICTSC2023 Staff"),
        rrole(3, "Team One"),
    ];
    let categories = vec![
        rchan(6, "ICTSC2023 Staff", ChannelKind::Category, None),
        rchan(7, "team1", ChannelKind::Category, None),
    ];
    let defs = build_channel_definitions(&teams, &roles, &categories).unwrap();
    assert_eq!(defs.len(), 7);
    assert_eq!(defs[0].name, "help");
    assert_eq!(
        defs[0].permissions,
        vec![overwrite(1, get_permissions_for_readonly_channel_member(), 0)]
    );
    assert_eq!(defs[1].name, "announce");
    assert_eq!(
        defs[1].permissions,
        vec![overwrite(3, get_permissions_for_readonly_channel_member(), 0)]
    );
    assert_eq!(defs[2].name, "random");
    assert_eq!(defs[3].name, "staff-text");
    assert_eq!(defs[3].category, Some(6));
    assert_eq!(defs[4].name, "staff-voice");
    assert_eq!(defs[4].kind, ChannelKind::Voice);
    assert_eq!(defs[4].category, Some(6));
    assert_eq!(defs[5].name, "team1-text");
    assert_eq!(defs[5].category, Some(7));
    assert_eq!(
        defs[5].permissions,
        vec![
            overwrite(2, 0, get_deny_permissions_for_staff_in_team_channel()),
            overwrite(3, get_permissions_for_team_channel_member(), 0),
        ]
    );
    assert_eq!(defs[6].name, "team1-voice");
    assert_eq!(defs[6].kind, ChannelKind::Voice);
    assert_eq!(defs[6].category, Some(7));
    assert!(defs.iter().all(|d| d.category.is_none() || d.category == Some(6) || d.category == Some(7)));
}
