use roles_bot::autorole::{autorole_command, on_member_join, Configured, ServerSettings, AUTOROLE_LIMIT};
use roles_bot::coordinator::{Command, Coordinator, Event};
use roles_bot::error::{Error, Permission};
use roles_bot::guard::{Member, Permissions, Role, Server};

fn list(items: &[&str]) -> Vec<String> {
    items.iter().map(|s| s.to_string()).collect()
}

fn server() -> Server {
    let mut roles = vec![
        Role { id: "bot-role".to_string(), name: "Bot".to_string(), rank: 1 },
        Role { id: "mod-role".to_string(), name: "Mod".to_string(), rank: 2 },
        Role { id: "owner-role".to_string(), name: "Owner".to_string(), rank: 0 },
    ];
    for i in 0..30 {
        roles.push(Role { id: format!("r{i}"), name: format!("Role {i}"), rank: 10 + i });
    }
    Server { id: "S".to_string(), roles }
}

fn member(id: &str, roles: &[&str]) -> Member {
    Member { user_id: id.to_string(), roles: list(roles) }
}

fn bot() -> Member {
    member("bot", &["bot-role"])
}

fn granted(assign_roles: bool, manage_server: bool) -> Permissions {
    Permissions { assign_roles, manage_role: false, manage_server, send_message: true }
}

fn settings(roles: &[&str]) -> ServerSettings {
    ServerSettings { id: "S".to_string(), auto_roles: list(roles) }
}

#[test]
fn join_gives_both_configured_roles_in_one_replacement() {
    let plan = on_member_join(&settings(&["r1", "r2"]), false, &server(), &bot(), &granted(true, false));
    assert!(plan.pruned.is_none());
    let action = plan.outcome.unwrap().unwrap();
    assert_eq!(action.give, list(&["r1", "r2"]));
    assert!(action.remove.is_empty());
    // The member's roles are empty; the coordinator asks for one replacement.
    let (coordinator, command) =
        Coordinator::new().step(Event::Action { member: "new".to_string(), action });
    assert!(matches!(command, Command::Fetch(_)));
    let (coordinator, _) = coordinator.step(Event::Roles(Vec::new()));
    let (coordinator, _) = coordinator.step(Event::Empty);
    let (coordinator, command) = coordinator.step(Event::Roles(Vec::new()));
    match command {
        Command::Replace(target, roles) => {
            assert_eq!(target, "new");
            assert_eq!(roles, list(&["r1", "r2"]));
        }
        _ => panic!("expected a replacement"),
    }
    let (coordinator, command) = coordinator.step(Event::Edited);
    assert!(matches!(command, Command::Receive));
    assert_eq!(coordinator.pending(), 0);
}

#[test]
fn join_drops_a_role_that_the_server_lost() {
    let plan = on_member_join(&settings(&["r1", "gone", "r2"]), false, &server(), &bot(), &granted(true, false));
    let pruned = plan.pruned.unwrap();
    assert_eq!(pruned.id, "S");
    assert_eq!(pruned.auto_roles, list(&["r1", "r2"]));
    assert_eq!(plan.outcome.unwrap().unwrap().give, list(&["r1", "r2"]));
}

#[test]
fn join_with_only_lost_roles_prunes_and_gives_nothing() {
    let plan = on_member_join(&settings(&["gone"]), false, &server(), &bot(), &granted(true, false));
    assert!(plan.pruned.unwrap().auto_roles.is_empty());
    assert!(matches!(plan.outcome, Ok(None)));
}

#[test]
fn join_of_a_bot_or_without_settings_does_nothing() {
    let plan = on_member_join(&settings(&["r1", "gone"]), true, &server(), &bot(), &granted(true, false));
    assert!(plan.pruned.is_none());
    assert!(matches!(plan.outcome, Ok(None)));
    let plan = on_member_join(&settings(&[]), false, &server(), &bot(), &granted(false, false));
    assert!(plan.pruned.is_none());
    assert!(matches!(plan.outcome, Ok(None)));
}

#[test]
fn join_needs_permission_and_rank() {
    let plan = on_member_join(&settings(&["r1", "gone"]), false, &server(), &bot(), &granted(false, false));
    assert_eq!(plan.pruned.unwrap().auto_roles, list(&["r1"]));
    assert!(matches!(plan.outcome, Err(Error::Missing(Permission::AssignRoles))));
    let plan = on_member_join(&settings(&["r1", "owner-role"]), false, &server(), &bot(), &granted(true, false));
    assert!(plan.pruned.is_none());
    match plan.outcome {
        Err(Error::RoleRankTooHigh(name)) => assert_eq!(name, "Owner"),
        _ => panic!("expected RoleRankTooHigh"),
    }
}

#[test]
fn command_stores_the_roles_by_identifier() {
    let person = member("admin", &["mod-role"]);
    let out = autorole_command(
        &server(),
        &bot(),
        &granted(true, false),
        &person,
        &granted(true, true),
        &list(&["Role 3", "r1", "role 2"]),
    );
    match out.unwrap() {
        Configured::Save(settings) => {
            assert_eq!(settings.id, "S");
            assert_eq!(settings.auto_roles, list(&["r3", "r1", "r2"]));
        }
        Configured::TooMany => panic!("expected settings"),
    }
}

#[test]
fn command_without_roles_clears_the_settings() {
    let person = member("admin", &["mod-role"]);
    match autorole_command(&server(), &bot(), &granted(true, false), &person, &granted(true, true), &[]).unwrap() {
        Configured::Save(settings) => assert!(settings.auto_roles.is_empty()),
        Configured::TooMany => panic!("expected settings"),
    }
}

#[test]
fn command_with_twenty_five_roles_is_stored() {
    let person = member("admin", &["mod-role"]);
    let references: Vec<String> = (0..25).map(|i| format!("r{i}")).collect();
    match autorole_command(&server(), &bot(), &granted(true, false), &person, &granted(true, true), &references)
        .unwrap()
    {
        Configured::Save(settings) => assert_eq!(settings.auto_roles.len(), AUTOROLE_LIMIT),
        Configured::TooMany => panic!("expected settings"),
    }
}

#[test]
fn command_with_twenty_six_roles_stores_nothing() {
    let person = member("admin", &["mod-role"]);
    let references: Vec<String> = (0..26).map(|i| format!("r{i}")).collect();
    let out = autorole_command(&server(), &bot(), &granted(true, false), &person, &granted(true, true), &references);
    assert!(matches!(out, Ok(Configured::TooMany)));
}

#[test]
fn command_stores_a_role_named_twice_once() {
    let person = member("admin", &["mod-role"]);
    let out = autorole_command(
        &server(),
        &bot(),
        &granted(true, false),
        &person,
        &granted(true, true),
        &list(&["r3", "Role 1", "role 3", "r1", "r2", "r3"]),
    );
    match out.unwrap() {
        Configured::Save(settings) => assert_eq!(settings.auto_roles, list(&["r3", "r1", "r2"])),
        Configured::TooMany => panic!("expected settings"),
    }
}

#[test]
fn command_counts_every_reference_towards_the_limit() {
    let person = member("admin", &["mod-role"]);
    // Twelve roles, each named by identifier and by name: twenty-four
    // references, stored as twelve roles.
    let mut references: Vec<String> = Vec::new();
    for i in 0..12 {
        references.push(format!("r{i}"));
        references.push(format!("Role {i}"));
    }
    let expected: Vec<String> = (0..12).map(|i| format!("r{i}")).collect();
    match autorole_command(&server(), &bot(), &granted(true, false), &person, &granted(true, true), &references)
        .unwrap()
    {
        Configured::Save(settings) => assert_eq!(settings.auto_roles, expected),
        Configured::TooMany => panic!("expected settings"),
    }
    // A twenty-fifth reference, to a role named before, is still within the limit.
    references.push("r0".to_string());
    match autorole_command(&server(), &bot(), &granted(true, false), &person, &granted(true, true), &references)
        .unwrap()
    {
        Configured::Save(settings) => assert_eq!(settings.auto_roles, expected),
        Configured::TooMany => panic!("expected settings"),
    }
    // A twenty-sixth is one too many, though it names no new role.
    references.push("r1".to_string());
    let out = autorole_command(&server(), &bot(), &granted(true, false), &person, &granted(true, true), &references);
    assert!(matches!(out, Ok(Configured::TooMany)));
}

#[test]
fn command_with_twenty_six_references_to_thirteen_roles_stores_nothing() {
    let person = member("admin", &["mod-role"]);
    let mut references: Vec<String> = Vec::new();
    for i in 0..13 {
        references.push(format!("r{i}"));
        references.push(format!("Role {i}"));
    }
    let out = autorole_command(&server(), &bot(), &granted(true, false), &person, &granted(true, true), &references);
    assert!(matches!(out, Ok(Configured::TooMany)));
    // Twenty-five roles and the first of them again.
    let mut references: Vec<String> = (0..25).map(|i| format!("r{i}")).collect();
    references.push("r0".to_string());
    let out = autorole_command(&server(), &bot(), &granted(true, false), &person, &granted(true, true), &references);
    assert!(matches!(out, Ok(Configured::TooMany)));
    // One role named twenty-six times.
    let references: Vec<String> = (0..26).map(|_| "r3".to_string()).collect();
    let out = autorole_command(&server(), &bot(), &granted(true, false), &person, &granted(true, true), &references);
    assert!(matches!(out, Ok(Configured::TooMany)));
    // Named twenty-five times, it is stored once.
    let references: Vec<String> = (0..25).map(|_| "r3".to_string()).collect();
    match autorole_command(&server(), &bot(), &granted(true, false), &person, &granted(true, true), &references)
        .unwrap()
    {
        Configured::Save(settings) => assert_eq!(settings.auto_roles, list(&["r3"])),
        Configured::TooMany => panic!("expected settings"),
    }
}

#[test]
fn command_checks_the_twenty_sixth_role_before_the_limit() {
    let person = member("admin", &["mod-role"]);
    let mut references: Vec<String> = (0..25).map(|i| format!("r{i}")).collect();
    references.push("nobody".to_string());
    let out = autorole_command(&server(), &bot(), &granted(true, false), &person, &granted(true, true), &references);
    match out {
        Err(Error::InvalidRole(reference)) => assert_eq!(reference, "nobody"),
        _ => panic!("expected InvalidRole"),
    }
}

#[test]
fn command_needs_permissions() {
    let person = member("admin", &["mod-role"]);
    let refs = list(&["r1"]);
    let out = autorole_command(&server(), &bot(), &granted(false, false), &person, &granted(true, true), &refs);
    assert!(matches!(out, Err(Error::Missing(Permission::AssignRoles))));
    let out = autorole_command(&server(), &bot(), &granted(true, false), &person, &granted(false, true), &refs);
    assert!(matches!(out, Err(Error::UserMissing(Permission::AssignRoles))));
    let out = autorole_command(&server(), &bot(), &granted(true, false), &person, &granted(true, false), &refs);
    assert!(matches!(out, Err(Error::UserMissing(Permission::ManageServer))));
}

#[test]
fn command_needs_both_ranks_above_each_role() {
    let person = member("admin", &["r5"]);
    let out = autorole_command(
        &server(),
        &bot(),
        &granted(true, false),
        &person,
        &granted(true, true),
        &list(&["r7", "r5", "r8"]),
    );
    match out {
        Err(Error::UserRankTooLow(name)) => assert_eq!(name, "Role 5"),
        _ => panic!("expected UserRankTooLow"),
    }
    let out = autorole_command(
        &server(),
        &bot(),
        &granted(true, false),
        &person,
        &granted(true, true),
        &list(&["r7", "Bot"]),
    );
    match out {
        Err(Error::RoleRankTooHigh(name)) => assert_eq!(name, "Bot"),
        _ => panic!("expected RoleRankTooHigh"),
    }
}
