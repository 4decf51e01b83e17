use roles_bot::error::{Error, Permission};
use roles_bot::guard::{Member, Permissions, Role, Server};
use roles_bot::draft::{truncate, MESSAGE_LIMIT};
use roles_bot::reaction::{on_react, on_role_react, react_with_key, RoleReact, Target};
use roles_bot::role_message::RoleMessage;
use std::collections::BTreeSet;

const RED: &str = "01RED00000000000000000000R";
const BLUE: &str = "01B1VE0000000000000000000B";
const GREEN: &str = "01GREEN000000000000000000G";

fn set(items: &[String]) -> BTreeSet<String> {
    items.iter().cloned().collect()
}

fn names(items: &[&str]) -> BTreeSet<String> {
    items.iter().map(|s| s.to_string()).collect()
}

fn server() -> Server {
    Server {
        id: "S".to_string(),
        roles: vec![
            Role { id: "01B0T00000000000000000000B".to_string(), name: "Bot".to_string(), rank: 2 },
            Role { id: RED.to_string(), name: "Red".to_string(), rank: 10 },
            Role { id: BLUE.to_string(), name: "Blue".to_string(), rank: 11 },
            Role { id: GREEN.to_string(), name: "Green".to_string(), rank: 1 },
            Role { id: "01H1GH0000000000000000000H".to_string(), name: "High".to_string(), rank: 0 },
        ],
    }
}

fn member(id: &str, roles: &[&str]) -> Member {
    Member { user_id: id.to_string(), roles: roles.iter().map(|s| s.to_string()).collect() }
}

fn bot() -> Member {
    member("bot", &["01B0T00000000000000000000B"])
}

fn may_assign() -> Permissions {
    Permissions { assign_roles: true, manage_role: false, manage_server: false, send_message: true }
}

fn exclusive_message() -> RoleMessage {
    RoleMessage::parse(&format!(
        "[](EXCLUSIVE):red_square:[]({RED}) __Red__ :blue_square:[]({BLUE}) __Blue__ :green_square:[]({GREEN})"
    ))
    .unwrap()
}

fn open_message() -> RoleMessage {
    RoleMessage::parse(&format!(":red_square:[]({RED}) :blue_square:[]({BLUE})")).unwrap()
}

#[test]
fn role_message_parse_reads_bindings_and_marker() {
    let message = exclusive_message();
    assert!(message.is_exclusive());
    let bindings = message.bindings();
    assert_eq!(bindings.len(), 3);
    assert_eq!((bindings[0].emoji.as_str(), bindings[0].role.as_str()), ("red_square", RED));
    assert_eq!((bindings[1].emoji.as_str(), bindings[1].role.as_str()), ("blue_square", BLUE));
    assert_eq!(message.role_for("blue_square").unwrap(), BLUE);
    assert!(message.role_for("yellow_square").is_none());
    assert!(!open_message().is_exclusive());
    assert!(RoleMessage::parse("no binding here").is_none());
}

#[test]
fn role_message_later_binding_replaces_earlier_one_for_the_same_key() {
    let message = RoleMessage::parse(&format!(":a:[]({RED}) :b:[]({GREEN}) :a:[]({BLUE})")).unwrap();
    let bindings = message.bindings();
    assert_eq!(bindings.len(), 2);
    assert_eq!((bindings[0].emoji.as_str(), bindings[0].role.as_str()), ("a", BLUE));
    assert_eq!((bindings[1].emoji.as_str(), bindings[1].role.as_str()), ("b", GREEN));
}

#[test]
fn exclusive_react_removes_every_other_bound_role() {
    let action = exclusive_message().action(RED, RoleReact::React);
    assert_eq!(action.give, vec![RED.to_string()]);
    assert_eq!(set(&action.remove), names(&[BLUE, GREEN]));
}

#[test]
fn exclusive_react_on_single_role_removes_nothing() {
    let message = RoleMessage::parse(&format!("[](EXCLUSIVE):red_square:[]({RED})")).unwrap();
    let action = message.action(RED, RoleReact::React);
    assert_eq!(action.give, vec![RED.to_string()]);
    assert!(action.remove.is_empty());
}

#[test]
fn exclusive_react_with_two_keys_for_one_role_does_not_remove_it() {
    let message = RoleMessage::parse(&format!("[](EXCLUSIVE):a:[]({RED}) :b:[]({RED}) :c:[]({BLUE})")).unwrap();
    let action = message.action(RED, RoleReact::React);
    assert_eq!(set(&action.remove), names(&[BLUE]));
}

#[test]
fn open_react_removes_nothing_and_unreact_removes_the_role() {
    let action = open_message().action(RED, RoleReact::React);
    assert_eq!(action.give, vec![RED.to_string()]);
    assert!(action.remove.is_empty());
    let action = exclusive_message().action(RED, RoleReact::Unreact);
    assert!(action.give.is_empty());
    assert_eq!(action.remove, vec![RED.to_string()]);
}

#[test]
fn reaction_with_emoji_bound_to_red_gives_red_and_removes_blue() {
    let message =
        RoleMessage::parse(&format!("[](EXCLUSIVE):red_square:[]({RED}) __Red__ :blue_square:[]({BLUE}) __Blue__"))
            .unwrap();
    let user = member("user", &[BLUE]);
    let out = on_role_react(&message, &server(), &may_assign(), &bot(), &user, "🟥", RoleReact::React);
    let action = out.unwrap().unwrap();
    assert_eq!(action.give, vec![RED.to_string()]);
    assert_eq!(action.remove, vec![BLUE.to_string()]);
    let after = roles_bot::roles::apply_roles(&user.roles, &action.give, &action.remove);
    assert_eq!(after, vec![RED.to_string()]);
}

#[test]
fn reaction_with_unbound_emoji_or_by_the_bot_is_ignored() {
    let message = exclusive_message();
    let user = member("user", &[]);
    let out = on_role_react(&message, &server(), &may_assign(), &bot(), &user, "🟨", RoleReact::React);
    assert!(matches!(out, Ok(None)));
    let out = on_role_react(&message, &server(), &may_assign(), &bot(), &bot(), "🟥", RoleReact::React);
    assert!(matches!(out, Ok(None)));
    let out = react_with_key(&message, &server(), &may_assign(), &bot(), &user, "🟥", RoleReact::React);
    assert!(matches!(out, Ok(None)));
}

#[test]
fn reaction_for_a_role_that_is_gone_is_invalid() {
    let message = RoleMessage::parse(":red_square:[](01G0NE00000000000000000000)").unwrap();
    let out = react_with_key(&message, &server(), &may_assign(), &bot(), &member("u", &[]), "red_square", RoleReact::React);
    match out {
        Err(Error::InvalidRole(id)) => assert_eq!(id, "01G0NE00000000000000000000"),
        _ => panic!("expected InvalidRole"),
    }
}

#[test]
fn reaction_needs_the_bot_to_assign_roles() {
    let granted = Permissions { assign_roles: false, ..may_assign() };
    let out = react_with_key(&open_message(), &server(), &granted, &bot(), &member("u", &[]), "red_square", RoleReact::React);
    assert!(matches!(out, Err(Error::Missing(Permission::AssignRoles))));
}

#[test]
fn reaction_by_a_member_ranked_at_or_above_the_bot_is_refused() {
    let high = member("u", &["01H1GH0000000000000000000H"]);
    let out = react_with_key(&open_message(), &server(), &may_assign(), &bot(), &high, "red_square", RoleReact::React);
    assert!(matches!(out, Err(Error::MemberRankTooHigh)));
    let peer = member("u", &["01B0T00000000000000000000B"]);
    let out = react_with_key(&open_message(), &server(), &may_assign(), &bot(), &peer, "red_square", RoleReact::React);
    assert!(matches!(out, Err(Error::MemberRankTooHigh)));
}

#[test]
fn reaction_for_a_role_ranked_at_or_above_the_bot_is_refused() {
    let out = react_with_key(
        &exclusive_message(),
        &server(),
        &may_assign(),
        &bot(),
        &member("u", &[]),
        "green_square",
        RoleReact::Unreact,
    );
    match out {
        Err(Error::RoleRankTooHigh(name)) => assert_eq!(name, "Green"),
        _ => panic!("expected RoleRankTooHigh"),
    }
}

#[test]
fn reactions_are_routed_by_the_kind_of_message() {
    assert_eq!(on_react("someone", "bot", Some(true), true), Target::Nothing);
    assert_eq!(on_react("bot", "bot", None, true), Target::Nothing);
    assert_eq!(on_react("bot", "bot", Some(true), false), Target::RoleMessage);
    assert_eq!(on_react("bot", "bot", Some(true), true), Target::RoleMessage);
    assert_eq!(on_react("bot", "bot", Some(false), true), Target::SetupMessage);
    assert_eq!(on_react("bot", "bot", Some(false), false), Target::Nothing);
}

#[test]
fn truncate_keeps_short_text() {
    assert_eq!(truncate("héllo".to_string(), MESSAGE_LIMIT), "héllo");
    assert_eq!(truncate("a".repeat(2000), MESSAGE_LIMIT).len(), 2000);
    assert_eq!(truncate(String::new(), 0), "");
}

#[test]
fn truncate_counts_characters_not_bytes() {
    // 2000 characters in 4000 bytes, and in 8000 bytes.
    assert_eq!(truncate("é".repeat(2000), MESSAGE_LIMIT), "é".repeat(2000));
    assert_eq!(truncate("🛠".repeat(2000), MESSAGE_LIMIT), "🛠".repeat(2000));
    // One character more is cut off.
    assert_eq!(truncate("é".repeat(2001), MESSAGE_LIMIT), "é".repeat(2000));
    assert_eq!(truncate("🛠".repeat(2000) + "a", MESSAGE_LIMIT), "🛠".repeat(2000));
}

#[test]
fn truncate_cuts_at_the_limit_when_a_character_starts_there() {
    let text = "a".repeat(2000) + "é";
    assert_eq!(truncate(text, MESSAGE_LIMIT), "a".repeat(2000));
}

#[test]
fn truncate_never_splits_a_character() {
    // The last "é" is the character beyond the limit; the one before it stays whole.
    let text = "a".repeat(1999) + "éé";
    assert_eq!(truncate(text, MESSAGE_LIMIT), "a".repeat(1999) + "é");
    // Four-byte characters at the limit.
    for lead in 0..4 {
        let text = "a".repeat(1996 + lead) + "🛠🛠";
        let cut = truncate(text.clone(), MESSAGE_LIMIT);
        let expected = if lead == 3 { "a".repeat(1999) + "🛠" } else { text };
        assert_eq!(cut, expected);
        assert!(cut.chars().count() <= MESSAGE_LIMIT);
    }
    assert_eq!(truncate("éé".to_string(), 1), "é");
    assert_eq!(truncate("éé".to_string(), 3), "éé");
    assert_eq!(truncate("éé".to_string(), 0), "");
}
