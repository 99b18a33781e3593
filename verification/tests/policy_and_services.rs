use ictsc_discord_bot::commands::{
    find_role_name_by_invitation_code, find_team_role_by_team_id, get_team_for, roles_to_grant,
    roles_to_revoke, validate_ask_title, validate_redeploy_problem_code,
};
use ictsc_discord_bot::error::{Error, UserError};
use ictsc_discord_bot::models::{Contestant, Problem, Team};
use ictsc_discord_bot::permissions::{
    get_deny_permissions_for_staff_in_team_channel, get_permission_overwrites_for_announce_channel,
    get_permission_overwrites_for_help_channel, get_permission_overwrites_for_random_channel,
    get_permission_overwrites_for_team_channel, get_permissions_for_channel_member,
    get_permissions_for_everyone, get_permissions_for_readonly_channel_member,
    get_permissions_for_staff, get_permissions_for_team, get_permissions_for_team_channel_member,
    PermissionOverwrite, ADMINISTRATOR, ALL_CAPABILITIES,
};
use ictsc_discord_bot::recreate::{build_basic_auth_header, classify_recreate_response};
use ictsc_discord_bot::roles::RemoteRole;
use ictsc_discord_bot::services::contestant::{
    find_contestant, ContestantService, ContestantServiceError, FakeContestantService,
};
use ictsc_discord_bot::services::problem::{
    find_problem, ProblemError, ProblemService, StaticProblemService,
};
use ictsc_discord_bot::services::redeploy::{
    classify_rstate_redeploy_failure, latest_event_time, redeploy_job_exists,
    status_from_deployment, DeploymentEvent, DeploymentEventKind, FakeRedeployService,
    RedeployError, RedeployStatus, RedeployTarget,
};
use ictsc_discord_bot::services::team::{find_team, StaticTeamService, TeamError, TeamService};

fn team(id: &str, role_name: &str, code: &str) -> Team {
    Team {
        id: id.to_string(),
        role_name: role_name.to_string(),
        invitation_code: code.to_string(),
    }
}

fn rrole(id: u64, name: &str) -> RemoteRole {
    RemoteRole {
        id,
        name: name.to_string(),
        permissions: 0,
        colour: 0,
        hoist: false,
        mentionable: false,
        managed: false,
    }
}

fn problem(code: &str, name: &str) -> Problem {
    Problem { code: code.to_string(), name: name.to_string() }
}

#[test]
fn capability_sets_have_expected_values() {
    assert_eq!(get_permissions_for_everyone(), 1u64 << 26);
    assert_eq!(get_permissions_for_team(), 0);
    assert_eq!(
        get_permissions_for_readonly_channel_member(),
        (1u64 << 10) | (1u64 << 16) | (1u64 << 6)
    );
    assert_eq!(get_permissions_for_readonly_channel_member(), 66624);
    assert_eq!(get_permissions_for_channel_member(), 137439300672);
    assert_eq!(get_permissions_for_team_channel_member(), 414514007616);
    assert_eq!(get_deny_permissions_for_staff_in_team_channel(), 1050624);
    assert_eq!(get_permissions_for_staff(), ALL_CAPABILITIES & !ADMINISTRATOR);
    assert_eq!(get_permissions_for_staff() & ADMINISTRATOR, 0);
}

#[test]
fn help_channel_grants_readonly_to_everyone() {
    let roles = vec![rrole(1, "@everyone"), rrole(2, "other")];
    let ovr = get_permission_overwrites_for_help_channel(&roles).unwrap();
    assert_eq!(
        ovr,
        vec![PermissionOverwrite {
            allow: get_permissions_for_readonly_channel_member(),
            deny: 0,
            role_id: 1,
        }]
    );
}

#[test]
fn help_channel_needs_the_default_role() {
    let roles = vec![rrole(2, "other")];
    let r = get_permission_overwrites_for_help_channel(&roles);
    assert!(matches!(
        r,
        Err(Error::SystemError(ictsc_discord_bot::error::SystemError::NoSuchRole(n))) if n == "@everyone"
    ));
}

#[test]
fn announce_and_random_grant_per_team() {
    let teams = vec![team("t1", "Team One", "c1"), team("t2", "Team Two", "c2")];
    let roles = vec![rrole(10, "Team One"), rrole(20, "Team Two")];
    let announce = get_permission_overwrites_for_announce_channel(&roles, &teams).unwrap();
    assert_eq!(announce.len(), 2);
    assert_eq!(announce[0].role_id, 10);
    assert_eq!(announce[0].allow, get_permissions_for_readonly_channel_member());
    let random = get_permission_overwrites_for_random_channel(&roles, &teams).unwrap();
    assert_eq!(random[1].role_id, 20);
    assert_eq!(random[1].allow, get_permissions_for_channel_member());
}

#[test]
fn announce_fails_on_first_missing_team_role() {
    let teams = vec![team("t1", "Team One", "c1"), team("t2", "Team Two", "c2")];
    let roles = vec![rrole(20, "Team Two")];
    let r = get_permission_overwrites_for_announce_channel(&roles, &teams);
    assert!(matches!(
        r,
        Err(Error::SystemError(ictsc_discord_bot::error::SystemError::NoSuchRole(n))) if n == "Team One"
    ));
}

#[test]
fn team_channel_denies_staff_and_allows_the_team() {
    let teams_role = "Team One";
    let roles = vec![rrole(1, "ICTSC2023 Staff"), rrole(2, teams_role)];
    let ovr = get_permission_overwrites_for_team_channel(&roles, &team("t1", teams_role, "c"));
    assert_eq!(ovr.len(), 2);
    assert_eq!(ovr[0].role_id, 1);
    assert_eq!(ovr[0].allow, 0);
    assert_eq!(ovr[0].deny, get_deny_permissions_for_staff_in_team_channel());
    assert_eq!(ovr[1].role_id, 2);
    assert_eq!(ovr[1].allow, get_permissions_for_team_channel_member());
    assert_eq!(ovr[1].deny, 0);
}

#[test]
fn invitation_codes_resolve_to_roles() {
    let teams = vec![team("t1", "Team One", "secret1")];
    let password = "infra-pass".to_string();
    assert_eq!(
        find_role_name_by_invitation_code(&password, &teams, &password),
        Some("ICTSC2023 Staff".to_string())
    );
    assert_eq!(
        find_role_name_by_invitation_code(&password, &teams, &"secret1".to_string()),
        Some("Team One".to_string())
    );
    assert_eq!(
        find_role_name_by_invitation_code(&password, &teams, &"nope".to_string()),
        None
    );
}

#[test]
fn team_ids_resolve_to_role_names() {
    let teams = vec![team("t1", "Team One", "c1")];
    assert_eq!(
        find_team_role_by_team_id(&teams, &"t1".to_string()),
        Some("Team One".to_string())
    );
    assert_eq!(find_team_role_by_team_id(&teams, &"t9".to_string()), None);
}

#[test]
fn grant_and_revoke_are_set_differences() {
    let target = vec![1, 2, 3];
    let current = vec![2, 4];
    assert_eq!(roles_to_grant(&target, &current), vec![1, 3]);
    assert_eq!(roles_to_revoke(&target, &current), vec![4]);
}

#[test]
fn ask_titles_are_limited_to_fifty_characters() {
    assert!(validate_ask_title(&"a".repeat(50)));
    assert!(!validate_ask_title(&"a".repeat(51)));
    // length counts characters, not bytes
    assert!(validate_ask_title(&"あ".repeat(50)));
}

#[test]
fn problem_codes_are_normalized_to_uppercase() {
    let problems = vec![problem("ABC", "First Problem")];
    let p = validate_redeploy_problem_code(&problems, &"abc".to_string()).unwrap();
    assert_eq!(p.code, "ABC");
    let e = validate_redeploy_problem_code(&problems, &"zzz".to_string()).unwrap_err();
    assert!(matches!(e, UserError::NoSuchProblem(c) if c == "zzz"));
}

#[test]
fn team_membership_is_resolved_through_role_ids() {
    let teams = vec![team("t1", "Team One", "c1")];
    let roles = vec![rrole(5, "unrelated"), rrole(7, "Team One")];
    let found = get_team_for(&teams, &roles, &vec![5, 7]).unwrap();
    assert_eq!(found.id, "t1");
    let missing = get_team_for(&teams, &roles, &vec![5]).unwrap_err();
    assert_eq!(missing, UserError::UserNotInTeam);
}

#[test]
fn static_team_service_serves_and_finds_teams() {
    let service = StaticTeamService::new(vec![team("t1", "Team One", "c1")]);
    assert_eq!(service.get_teams().unwrap().len(), 1);
    assert_eq!(service.get_team("t1").unwrap().role_name, "Team One");
    assert_eq!(service.get_team("t9"), Err(TeamError::NotFound));
    let direct = find_team(&vec![team("t1", "Team One", "c1")], "t1").unwrap();
    assert_eq!(direct.id, "t1");
}

#[test]
fn static_problem_service_serves_and_finds_problems() {
    let service = StaticProblemService::new(vec![problem("ABC", "First")]);
    assert_eq!(service.get_problems().unwrap().len(), 1);
    assert_eq!(service.get_problem("ABC").unwrap().name, "First");
    assert_eq!(service.get_problem("ZZZ"), Err(ProblemError::NotFound));
    assert_eq!(
        find_problem(&vec![problem("ABC", "First")], "ZZZ"),
        Err(ProblemError::NotFound)
    );
}

#[test]
fn fake_contestant_service_knows_nobody() {
    let service = FakeContestantService;
    assert_eq!(service.get_contestants().unwrap().len(), 0);
    assert_eq!(
        service.get_contestant("someone"),
        Err(ContestantServiceError::NotFound)
    );
    let cs = vec![Contestant {
        name: "n".to_string(),
        display_name: "d".to_string(),
        team_id: "t1".to_string(),
        discord_id: "42".to_string(),
    }];
    assert_eq!(find_contestant(&cs, "42").unwrap().team_id, "t1");
}

#[test]
fn fake_redeploy_service_accepts_and_reports() {
    let service = FakeRedeployService;
    let job = service
        .redeploy(&RedeployTarget { team_id: "t1".to_string(), problem_id: "ABC".to_string() })
        .unwrap();
    assert_eq!(job.id, "00000000-0000-0000-0000-000000000000");
    assert_eq!(job.team_id, "t1");
    assert_eq!(job.problem_code, "ABC");
    let statuses = service.get_status("t1", 1700000000).unwrap();
    assert_eq!(statuses.len(), 3);
    assert!(!statuses[0].is_redeploying);
    assert!(statuses[1].is_redeploying);
    assert_eq!(statuses[1].last_redeploy_started_at, Some(1700000000));
    assert_eq!(statuses[2].last_redeploy_completed_at, Some(1700000000));
}

#[test]
fn rstate_failures_are_classified() {
    assert_eq!(
        classify_rstate_redeploy_failure(400, &"BadRequest!".to_string()),
        RedeployError::InvalidParameters
    );
    assert!(matches!(
        classify_rstate_redeploy_failure(400, &"job 5 running".to_string()),
        RedeployError::AnotherJobInQueue(m) if m == "job 5 running"
    ));
    assert!(matches!(
        classify_rstate_redeploy_failure(503, &"".to_string()),
        RedeployError::Unexpected(_)
    ));
}

#[test]
fn running_redeploys_are_detected() {
    let statuses = vec![
        RedeployStatus {
            team_id: "t1".to_string(),
            problem_code: "ABC".to_string(),
            is_redeploying: true,
            last_redeploy_started_at: Some(10),
            last_redeploy_completed_at: None,
        },
        RedeployStatus {
            team_id: "t1".to_string(),
            problem_code: "DEF".to_string(),
            is_redeploying: false,
            last_redeploy_started_at: Some(10),
            last_redeploy_completed_at: Some(20),
        },
    ];
    assert!(redeploy_job_exists(&statuses, &"ABC".to_string()));
    assert!(!redeploy_job_exists(&statuses, &"DEF".to_string()));
    assert!(!redeploy_job_exists(&statuses, &"GHI".to_string()));
}

#[test]
fn deployment_events_yield_latest_times() {
    let events = vec![
        DeploymentEvent { occurred_at: 5, kind: DeploymentEventKind::Creating },
        DeploymentEvent { occurred_at: 9, kind: DeploymentEventKind::Creating },
        DeploymentEvent { occurred_at: 7, kind: DeploymentEventKind::Finished },
    ];
    assert_eq!(latest_event_time(&events, DeploymentEventKind::Creating), Some(9));
    assert_eq!(latest_event_time(&events, DeploymentEventKind::Finished), Some(7));
    assert_eq!(latest_event_time(&events, DeploymentEventKind::Error), None);

    let status = status_from_deployment(
        "t1".to_string(),
        "ABC".to_string(),
        DeploymentEventKind::Creating,
        &events,
    );
    assert!(status.is_redeploying);
    assert_eq!(status.last_redeploy_started_at, Some(9));
    assert_eq!(status.last_redeploy_completed_at, Some(7));
}

#[test]
fn basic_auth_header_encodes_credentials() {
    assert_eq!(build_basic_auth_header("user", "pass"), "Basic dXNlcjpwYXNz");
}

#[test]
fn recreate_responses_are_classified() {
    assert_eq!(
        classify_recreate_response(200, "https://recreate.example/", "job/5"),
        Ok("https://recreate.example/job/5".to_string())
    );
    assert_eq!(
        classify_recreate_response(400, "https://recreate.example/", ""),
        Err(Error::UserError(UserError::RequestInQueue))
    );
    assert_eq!(
        classify_recreate_response(404, "https://recreate.example/", ""),
        Err(Error::UserError(UserError::OutOfCompetitionTime))
    );
    match classify_recreate_response(503, "https://recreate.example/", "") {
        Err(Error::SystemError(ictsc_discord_bot::error::SystemError::UnexpectedError(m))) => {
            assert!(m.starts_with("recreate server returns unexpected status code: "));
        },
        other => panic!("expected an unexpected-status error, got {:?}", other),
    }
}
