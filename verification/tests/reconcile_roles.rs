use ictsc_discord_bot::cache::RoleCache;
use ictsc_discord_bot::error::HelperError;
use ictsc_discord_bot::models::{validate_team_id, Team};
use ictsc_discord_bot::permissions::{
    get_permissions_for_everyone, get_permissions_for_staff, get_permissions_for_team,
    ALL_CAPABILITIES,
};
use ictsc_discord_bot::roles::{
    apply_role_actions, build_role_definitions, first_role_named, first_role_with_id, is_team_role,
    plan_role_deletion, plan_roles, roles_named, RemoteRole, RoleAction, RoleDefinition,
    STAFF_ROLE_COLOUR,
};

fn def(name: &str, permissions: u64, hoist: bool) -> RoleDefinition {
    RoleDefinition {
        name: name.to_string(),
        permissions,
        colour: 0,
        hoist,
        mentionable: false,
    }
}

fn remote(id: u64, name: &str, permissions: u64, managed: bool) -> RemoteRole {
    RemoteRole {
        id,
        name: name.to_string(),
        permissions,
        colour: 0,
        hoist: false,
        mentionable: false,
        managed,
    }
}

fn team(id: &str, role_name: &str, code: &str) -> Team {
    Team {
        id: id.to_string(),
        role_name: role_name.to_string(),
        invitation_code: code.to_string(),
    }
}

#[test]
fn empty_remote_plans_one_create_per_definition() {
    let defs = vec![def("a", 1, false), def("b", 2, true), def("c", 3, false)];
    let plan = plan_roles(&defs, &Vec::new());
    assert_eq!(plan.len(), 3);
    for (i, action) in plan.iter().enumerate() {
        match action {
            RoleAction::Create(d) => assert_eq!(*d, defs[i]),
            other => panic!("expected a create, got {:?}", other),
        }
    }
}

#[test]
fn duplicate_roles_are_deleted_then_recreated() {
    let defs = vec![def("X", 5, false)];
    let remote_roles = vec![remote(1, "X", 5, false), remote(2, "X", 0, false)];
    let plan = plan_roles(&defs, &remote_roles);
    assert_eq!(plan.len(), 3);
    assert_eq!(plan[0], RoleAction::Delete(1));
    assert_eq!(plan[1], RoleAction::Delete(2));
    assert_eq!(plan[2], RoleAction::Create(def("X", 5, false)));
}

#[test]
fn synced_role_is_skipped() {
    let defs = vec![def("a", 7, true)];
    let remote_roles = vec![RemoteRole {
        id: 9,
        name: "a".to_string(),
        permissions: 7,
        colour: 0,
        hoist: true,
        mentionable: false,
        managed: false,
    }];
    let plan = plan_roles(&defs, &remote_roles);
    assert!(plan.is_empty());
}

#[test]
fn drifted_role_is_edited_in_place() {
    let defs = vec![def("a", 7, true)];
    let remote_roles = vec![remote(9, "a", 3, false)];
    let plan = plan_roles(&defs, &remote_roles);
    assert_eq!(plan.len(), 1);
    assert_eq!(plan[0], RoleAction::Edit(9, def("a", 7, true)));
}

#[test]
fn second_run_plans_nothing() {
    let defs = vec![def("staff", 10, true), def("team-1", 0, true)];
    let remote_roles = vec![remote(1, "staff", 99, false), remote(2, "leftover", 0, false)];
    let plan = plan_roles(&defs, &remote_roles);
    assert!(!plan.is_empty());
    let fresh = vec![100, 101, 102];
    let after = apply_role_actions(&remote_roles, &plan, &fresh);
    let second = plan_roles(&defs, &after);
    assert!(second.is_empty());
}

#[test]
fn cleanup_spares_default_and_managed_roles() {
    let remote_roles = vec![
        remote(1, "@everyone", 0, false),
        remote(2, "some-bot", 0, true),
        remote(3, "old-team", 0, false),
    ];
    let plan = plan_role_deletion(&remote_roles);
    assert_eq!(plan.len(), 1);
    assert_eq!(plan[0], RoleAction::Delete(3));
}

#[test]
fn cleanup_spares_protected_even_during_full_sync() {
    let defs = vec![def("keep", 1, false)];
    let remote_roles = vec![
        remote(1, "keep", 1, false),
        remote(2, "@everyone", 0, false),
        remote(3, "integration", 0, true),
    ];
    let plan = plan_roles(&defs, &remote_roles);
    assert!(plan.is_empty());
}

#[test]
fn example_scenario_two_creates_and_final_names() {
    let defs = vec![
        def("staff", ALL_CAPABILITIES, true),
        def("team-1", 0, true),
    ];
    let plan = plan_roles(&defs, &Vec::new());
    assert_eq!(plan.len(), 2);
    assert!(matches!(&plan[0], RoleAction::Create(d) if d.name == "staff"));
    assert!(matches!(&plan[1], RoleAction::Create(d) if d.name == "team-1"));

    let fresh = vec![41, 42];
    let after = apply_role_actions(&Vec::new(), &plan, &fresh);
    let mut names: Vec<&str> = after.iter().map(|r| r.name.as_str()).collect();
    names.sort();
    assert_eq!(names, vec!["staff", "team-1"]);
    assert!(after.iter().all(|r| r.hoist));
}

#[test]
fn build_role_definitions_shape() {
    let teams = vec![team("team1", "team1 role", "code1")];
    let defs = build_role_definitions(&teams);
    assert_eq!(defs.len(), 3);
    assert_eq!(defs[0].name, "@everyone");
    assert_eq!(defs[0].permissions, get_permissions_for_everyone());
    assert!(!defs[0].hoist && defs[0].mentionable);
    assert_eq!(defs[1].name, "ICTSC2023 Staff");
    assert_eq!(defs[1].permissions, get_permissions_for_staff());
    assert_eq!(defs[1].colour, STAFF_ROLE_COLOUR);
    assert!(defs[1].hoist && defs[1].mentionable);
    assert_eq!(defs[2].name, "team1 role");
    assert_eq!(defs[2].permissions, get_permissions_for_team());
    assert!(defs[2].hoist && defs[2].mentionable);
}

#[test]
fn role_lookups_find_first_matches() {
    let remote_roles = vec![
        remote(1, "a", 0, false),
        remote(2, "b", 0, false),
        remote(3, "a", 1, false),
    ];
    let named = roles_named(&remote_roles, &"a".to_string());
    assert_eq!(named.len(), 2);
    assert_eq!(named[0].id, 1);
    assert_eq!(named[1].id, 3);
    let first = first_role_named(&remote_roles, &"a".to_string()).unwrap();
    assert_eq!(first.id, 1);
    assert!(first_role_named(&remote_roles, &"c".to_string()).is_none());
    assert_eq!(first_role_with_id(&remote_roles, 2).unwrap().name, "b");
    assert!(first_role_with_id(&remote_roles, 4).is_none());
}

#[test]
fn is_team_role_matches_by_role_name() {
    let teams = vec![team("team1", "Team One", "c1")];
    assert!(is_team_role(&teams, &remote(1, "Team One", 0, false)));
    assert!(!is_team_role(&teams, &remote(1, "team1", 0, false)));
}

#[test]
fn role_cache_reports_unpopulated_then_serves_snapshot() {
    let mut cache = RoleCache::new();
    assert_eq!(
        cache.get_roles_cached(),
        Err(HelperError::RoleCacheNotPopulatedError)
    );
    cache.update_role_cache(vec![remote(1, "a", 0, false), remote(2, "a", 1, false)]);
    let all = cache.get_roles_cached().unwrap();
    assert_eq!(all.len(), 2);
    let named = cache.find_roles_by_name_cached(&"a".to_string()).unwrap();
    assert_eq!(named.len(), 2);
    let by_id = cache.find_roles_by_id_cached(2).unwrap().unwrap();
    assert_eq!(by_id.permissions, 1);
    assert!(cache.find_roles_by_id_cached(9).unwrap().is_none());
}

#[test]
fn team_ids_must_be_lowercase_alphanumeric() {
    assert!(validate_team_id(&"team1".to_string()));
    assert!(!validate_team_id(&"Team1".to_string()));
    assert!(!validate_team_id(&"team-1".to_string()));
    assert!(validate_team_id(&"".to_string()));
}
