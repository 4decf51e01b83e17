use roles_bot::error::{Error, Permission};
use roles_bot::guard::{
    check_above_role, check_above_roles, check_server_perms, Member, Permissions, Role, Server, NO_RANK,
};

fn role(id: &str, name: &str, rank: i64) -> Role {
    Role { id: id.to_string(), name: name.to_string(), rank }
}

fn server() -> Server {
    Server {
        id: "S".to_string(),
        roles: vec![
            role("r-admin", "Admin", 1),
            role("r-mod", "Mod", 5),
            role("r-dev", "Dev", 10),
            role("r-Dev", "dev", 20),
            role("Mod", "Shadow", 30),
        ],
    }
}

fn member(id: &str, roles: &[&str]) -> Member {
    Member { user_id: id.to_string(), roles: roles.iter().map(|s| s.to_string()).collect() }
}

fn none() -> Permissions {
    Permissions { assign_roles: false, manage_role: false, manage_server: false, send_message: false }
}

#[test]
fn permissions_report_the_first_missing_for_the_bot() {
    let granted = Permissions { assign_roles: true, ..none() };
    let out = check_server_perms(
        &granted,
        "bot",
        "bot",
        &[Permission::AssignRoles, Permission::ManageServer, Permission::ManageRole],
    );
    assert!(matches!(out, Err(Error::Missing(Permission::ManageServer))));
}

#[test]
fn permissions_report_the_first_missing_for_a_user() {
    let out = check_server_perms(&none(), "user", "bot", &[Permission::SendMessage, Permission::AssignRoles]);
    assert!(matches!(out, Err(Error::UserMissing(Permission::SendMessage))));
}

#[test]
fn permissions_pass_when_all_are_granted() {
    let granted = Permissions { assign_roles: true, manage_role: true, ..none() };
    assert!(check_server_perms(&granted, "user", "bot", &[Permission::AssignRoles, Permission::ManageRole]).is_ok());
    assert!(check_server_perms(&none(), "user", "bot", &[]).is_ok());
    assert!(granted.has(Permission::ManageRole));
    assert!(!granted.has(Permission::ManageServer));
}

#[test]
fn reference_resolves_by_id_before_name() {
    let server = server();
    // "Mod" is the identifier of the role named Shadow and the name of r-mod.
    let found = server.role_by_id_or_name("Mod").unwrap();
    assert_eq!(found.name, "Shadow");
    assert_eq!(server.role_by_id_or_name("Admin").unwrap().id, "r-admin");
    assert_eq!(server.role_by_id("r-dev").unwrap().name, "Dev");
    assert!(server.role_by_id("Dev").is_none());
}

#[test]
fn reference_resolves_by_exact_name_before_case_insensitive_name() {
    let server = server();
    assert_eq!(server.role_by_id_or_name("dev").unwrap().id, "r-Dev");
    assert_eq!(server.role_by_id_or_name("Dev").unwrap().id, "r-dev");
    assert_eq!(server.role_by_id_or_name("DEV").unwrap().id, "r-dev");
    assert_eq!(server.role_by_id_or_name("aDMIN").unwrap().id, "r-admin");
    assert!(server.role_by_id_or_name("Nobody").is_none());
    assert!(server.role_by_id_or_name("").is_none());
}

#[test]
fn effective_rank_is_the_lowest_rank_held() {
    let server = server();
    assert_eq!(member("u", &["r-dev", "r-mod"]).effective_rank(&server), 5);
    assert_eq!(member("u", &["r-dev"]).effective_rank(&server), 10);
    assert_eq!(member("u", &[]).effective_rank(&server), NO_RANK);
    assert_eq!(member("u", &["gone"]).effective_rank(&server), i64::MAX);
}

#[test]
fn role_at_or_above_the_bot_is_too_high() {
    let server = server();
    let bot = member("bot", &["r-mod"]);
    let out = check_above_role(&server, &bot, "bot", "r-mod");
    match out {
        Err(Error::RoleRankTooHigh(name)) => assert_eq!(name, "Mod"),
        _ => panic!("expected RoleRankTooHigh"),
    }
    let out = check_above_role(&server, &bot, "bot", "Admin");
    match out {
        Err(Error::RoleRankTooHigh(name)) => assert_eq!(name, "Admin"),
        _ => panic!("expected RoleRankTooHigh"),
    }
    assert!(check_above_role(&server, &bot, "bot", "r-dev").is_ok());
}

#[test]
fn role_at_or_above_the_user_is_too_low_a_rank() {
    let server = server();
    let user = member("user", &["r-dev"]);
    match check_above_roles(&server, &user, "bot", &["r-Dev".to_string(), "Mod".to_string(), "r-mod".to_string()]) {
        Err(Error::UserRankTooLow(name)) => assert_eq!(name, "Mod"),
        _ => panic!("expected UserRankTooLow"),
    }
    assert!(check_above_roles(&server, &user, "bot", &["r-Dev".to_string(), "Mod".to_string()]).is_ok());
    assert!(check_above_roles(&server, &user, "bot", &[]).is_ok());
}

#[test]
fn unknown_reference_is_an_invalid_role() {
    let server = server();
    let user = member("user", &["r-admin"]);
    match check_above_roles(&server, &user, "bot", &["r-dev".to_string(), "Ghost".to_string()]) {
        Err(Error::InvalidRole(reference)) => assert_eq!(reference, "Ghost"),
        _ => panic!("expected InvalidRole"),
    }
}

#[test]
fn actor_without_roles_may_touch_none() {
    let server = server();
    let user = member("user", &[]);
    match check_above_role(&server, &user, "bot", "Shadow") {
        Err(Error::UserRankTooLow(name)) => assert_eq!(name, "Shadow"),
        _ => panic!("expected UserRankTooLow"),
    }
}
