use roles_bot::draft::{
    check_role_message, check_setup_message, collect, forgets, on_setup_react, Reaction, SetupStep,
};
use roles_bot::error::{Error, Permission};
use roles_bot::guard::{Member, Permissions, Role, Server};
use roles_bot::role_message::RoleMessage;
use roles_bot::setup::SetupMessage;

const ADMIN: &str = "01ADM1N0000000000000000000";
const DEV: &str = "01DEV000000000000000000000";

fn server() -> Server {
    Server {
        id: "S".to_string(),
        roles: vec![
            Role { id: "01B0T00000000000000000000B".to_string(), name: "Bot".to_string(), rank: 1 },
            Role { id: "01AVTH0R00000000000000000A".to_string(), name: "Author".to_string(), rank: 3 },
            Role { id: ADMIN.to_string(), name: "Admin".to_string(), rank: 5 },
            Role { id: DEV.to_string(), name: "Dev".to_string(), rank: 6 },
            Role { id: "01T0P000000000000000000000".to_string(), name: "Top".to_string(), rank: 2 },
        ],
    }
}

fn member(id: &str, roles: &[&str]) -> Member {
    Member { user_id: id.to_string(), roles: roles.iter().map(|s| s.to_string()).collect() }
}

fn bot() -> Member {
    member("bot", &["01B0T00000000000000000000B"])
}

fn author() -> Member {
    member("author", &["01AVTH0R00000000000000000A"])
}

fn reaction(emoji: &str, users: &[&str]) -> Reaction {
    Reaction { emoji: emoji.to_string(), user_ids: users.iter().map(|s| s.to_string()).collect() }
}

fn may_assign() -> Permissions {
    Permissions { assign_roles: true, manage_role: false, manage_server: false, send_message: true }
}

#[test]
fn collect_reads_the_users_emoji_in_order() {
    let reactions = [
        reaction("✅", &["bot", "author"]),
        reaction("🛠", &["other", "author"]),
        reaction("🎉", &["other"]),
        reaction("🔧", &["author"]),
        reaction("🟥", &["author"]),
    ];
    let (checked, emojis) = collect(&reactions, "author", 2);
    assert!(checked);
    assert_eq!(emojis, vec!["🛠".to_string(), "🔧".to_string()]);
    let (checked, emojis) = collect(&reactions, "other", 5);
    assert!(!checked);
    assert_eq!(emojis, vec!["🛠".to_string(), "🎉".to_string()]);
    let (checked, emojis) = collect(&[], "author", 5);
    assert!(!checked);
    assert!(emojis.is_empty());
}

#[test]
fn collect_takes_each_emoji_once() {
    let reactions = [
        reaction("🛠", &["author"]),
        reaction("🔧", &["author"]),
        reaction("🛠", &["author", "other"]),
        reaction("✅", &["author"]),
        reaction("🟥", &["author"]),
    ];
    let (checked, emojis) = collect(&reactions, "author", 3);
    assert!(checked);
    assert_eq!(emojis, vec!["🛠".to_string(), "🔧".to_string(), "🟥".to_string()]);
}

#[test]
fn setup_react_leaves_the_draft_when_an_unbound_placeholder_names_no_role() {
    let setup = SetupMessage::parse("author".to_string(), "{ROLE:Admin} {ROLE:Gone}").unwrap();
    let reactions = [reaction("🔧", &["author"])];
    assert!(matches!(
        on_setup_react(&setup, &server(), &bot(), &author(), &reactions),
        Ok(SetupStep::Unchanged)
    ));
}

#[test]
fn setup_react_by_someone_else_is_an_invalid_user() {
    let setup = SetupMessage::parse("author".to_string(), "{ROLE:Admin}").unwrap();
    let out = on_setup_react(&setup, &server(), &bot(), &member("other", &[]), &[]);
    assert!(matches!(out, Err(Error::InvalidUser)));
}

#[test]
fn setup_react_without_checkmark_edits_the_draft() {
    let setup = SetupMessage::parse("author".to_string(), "{ROLE:Admin} stuff {ROLE:Dev}").unwrap();
    let reactions = [reaction("✅", &["bot"]), reaction("🛠", &["author"])];
    match on_setup_react(&setup, &server(), &bot(), &author(), &reactions).unwrap() {
        SetupStep::Edit(content) => {
            assert_eq!(content, format!(":hammer_and_wrench:[]({ADMIN}) __Admin__ stuff {{ROLE:Dev}}"))
        }
        _ => panic!("expected an edit"),
    }
}

#[test]
fn setup_react_with_checkmark_but_unbound_placeholder_edits_the_draft() {
    let setup = SetupMessage::parse("author".to_string(), "{ROLE:Admin} stuff {ROLE:Dev}").unwrap();
    let reactions = [reaction("✅", &["bot", "author"]), reaction("🛠", &["author"])];
    assert!(matches!(
        on_setup_react(&setup, &server(), &bot(), &author(), &reactions),
        Ok(SetupStep::Edit(_))
    ));
}

#[test]
fn setup_react_finalizes_with_both_bindings_in_order() {
    let setup = SetupMessage::parse("author".to_string(), "{ROLE:Admin} stuff {ROLE:Dev}").unwrap();
    let reactions = [
        reaction("🛠", &["author"]),
        reaction("🔧", &["author"]),
        reaction("✅", &["bot", "author"]),
    ];
    match on_setup_react(&setup, &server(), &bot(), &author(), &reactions).unwrap() {
        SetupStep::Finalize { content, emojis, roles } => {
            assert_eq!(
                content,
                format!(":hammer_and_wrench:[]({ADMIN}) __Admin__ stuff :wrench:[]({DEV}) __Dev__")
            );
            assert_eq!(emojis, vec!["🛠".to_string(), "🔧".to_string()]);
            assert!(!roles.is_exclusive());
            let bindings = roles.bindings();
            assert_eq!(bindings.len(), 2);
            assert_eq!((bindings[0].emoji.as_str(), bindings[0].role.as_str()), ("hammer_and_wrench", ADMIN));
            assert_eq!((bindings[1].emoji.as_str(), bindings[1].role.as_str()), ("wrench", DEV));
        }
        _ => panic!("expected the draft to be finalized"),
    }
}

#[test]
fn setup_react_ignores_emoji_beyond_the_placeholders() {
    let setup = SetupMessage::parse("author".to_string(), "formatted exclusive {ROLE:dev}").unwrap();
    let reactions = [
        reaction("🔧", &["author"]),
        reaction("🛠", &["author"]),
        reaction("✅", &["author"]),
    ];
    match on_setup_react(&setup, &server(), &bot(), &author(), &reactions).unwrap() {
        SetupStep::Finalize { content, emojis, roles } => {
            assert_eq!(content, format!("[](EXCLUSIVE):wrench:[]({DEV})"));
            assert_eq!(emojis, vec!["🔧".to_string()]);
            assert!(roles.is_exclusive());
        }
        _ => panic!("expected the draft to be finalized"),
    }
}

#[test]
fn setup_react_leaves_the_draft_when_a_role_is_gone() {
    let setup = SetupMessage::parse("author".to_string(), "{ROLE:Gone}").unwrap();
    let reactions = [reaction("🔧", &["author"]), reaction("✅", &["author"])];
    assert!(matches!(
        on_setup_react(&setup, &server(), &bot(), &author(), &reactions),
        Ok(SetupStep::Unchanged)
    ));
}

#[test]
fn setup_react_forgets_a_complete_draft_without_readable_binding() {
    // The key "+1" is no key of the binding grammar.
    let setup = SetupMessage::parse("author".to_string(), "{ROLE:Admin}").unwrap();
    let reactions = [reaction("👍", &["author"]), reaction("✅", &["author"])];
    assert!(matches!(
        on_setup_react(&setup, &server(), &bot(), &author(), &reactions),
        Ok(SetupStep::Forget)
    ));
}

#[test]
fn setup_react_reports_the_bot_before_the_author() {
    // Top ranks above the author and below the bot; Bot ranks with the bot.
    let setup = SetupMessage::parse("author".to_string(), "{ROLE:Top} {ROLE:Bot}").unwrap();
    let reactions =
        [reaction("🔧", &["author"]), reaction("🛠", &["author"]), reaction("✅", &["author"])];
    match on_setup_react(&setup, &server(), &bot(), &author(), &reactions) {
        Err(Error::RoleRankTooHigh(name)) => assert_eq!(name, "Bot"),
        _ => panic!("expected RoleRankTooHigh"),
    }
    let setup = SetupMessage::parse("author".to_string(), "{ROLE:Top}").unwrap();
    let reactions = [reaction("🔧", &["author"]), reaction("✅", &["author"])];
    match on_setup_react(&setup, &server(), &bot(), &author(), &reactions) {
        Err(Error::UserRankTooLow(name)) => assert_eq!(name, "Top"),
        _ => panic!("expected UserRankTooLow"),
    }
}

#[test]
fn setup_react_keeps_content_of_two_thousand_characters() {
    // Rendered, the text has 2000 characters in 2001 bytes.
    let binding = format!(":wrench:[]({ADMIN}) __Admin__");
    assert_eq!(binding.len(), 48);
    let filler = "x".repeat(2000 - 1 - binding.len());
    let template = format!("{{ROLE:Admin}}{filler}é");
    let setup = SetupMessage::parse("author".to_string(), &template).unwrap();
    let reactions = [reaction("🔧", &["author"])];
    match on_setup_react(&setup, &server(), &bot(), &author(), &reactions).unwrap() {
        SetupStep::Edit(content) => {
            assert_eq!(content.len(), 2001);
            assert_eq!(content.chars().count(), 2000);
            assert_eq!(content, binding + &filler + "é");
        }
        _ => panic!("expected an edit"),
    }
}

#[test]
fn setup_react_cuts_long_content_to_two_thousand_characters() {
    // Rendered, the text has 2001 characters; the last two have two bytes each.
    let binding = format!(":wrench:[]({ADMIN}) __Admin__");
    let filler = "x".repeat(2001 - 2 - binding.len());
    let template = format!("{{ROLE:Admin}}{filler}éé");
    let setup = SetupMessage::parse("author".to_string(), &template).unwrap();
    let reactions = [reaction("🔧", &["author"])];
    match on_setup_react(&setup, &server(), &bot(), &author(), &reactions).unwrap() {
        SetupStep::Edit(content) => {
            assert_eq!(content.chars().count(), 2000);
            assert_eq!(content, binding + &filler + "é");
        }
        _ => panic!("expected an edit"),
    }
}

#[test]
fn check_setup_message_asks_permissions_then_ranks() {
    let setup = SetupMessage::parse("author".to_string(), "{ROLE:Dev} {ROLE:Top}").unwrap();
    let none = Permissions { assign_roles: false, ..may_assign() };
    let out = check_setup_message(&server(), &bot(), &none, &author(), &none, &setup);
    assert!(matches!(out, Err(Error::Missing(Permission::AssignRoles))));
    let out = check_setup_message(&server(), &bot(), &may_assign(), &author(), &none, &setup);
    assert!(matches!(out, Err(Error::UserMissing(Permission::AssignRoles))));
    match check_setup_message(&server(), &bot(), &may_assign(), &author(), &may_assign(), &setup) {
        Err(Error::UserRankTooLow(name)) => assert_eq!(name, "Top"),
        _ => panic!("expected UserRankTooLow"),
    }
    let setup = SetupMessage::parse("author".to_string(), "{ROLE:Dev} {ROLE:admin}").unwrap();
    assert!(check_setup_message(&server(), &bot(), &may_assign(), &author(), &may_assign(), &setup).is_ok());
    let setup = SetupMessage::parse("author".to_string(), "{ROLE:Dev} {ROLE:Nobody}").unwrap();
    match check_setup_message(&server(), &bot(), &may_assign(), &author(), &may_assign(), &setup) {
        Err(Error::InvalidRole(reference)) => assert_eq!(reference, "Nobody"),
        _ => panic!("expected InvalidRole"),
    }
}

#[test]
fn check_role_message_asks_the_bot_then_the_author() {
    let message = RoleMessage::parse(&format!(":a:[]({DEV}) :b:[](01T0P000000000000000000000)")).unwrap();
    match check_role_message(&server(), &bot(), &author(), &message) {
        Err(Error::UserRankTooLow(name)) => assert_eq!(name, "Top"),
        _ => panic!("expected UserRankTooLow"),
    }
    match check_role_message(&server(), &author(), &author(), &message) {
        Err(Error::RoleRankTooHigh(name)) => assert_eq!(name, "Top"),
        _ => panic!("expected RoleRankTooHigh"),
    }
    let message = RoleMessage::parse(&format!(":a:[]({DEV})")).unwrap();
    assert!(check_role_message(&server(), &bot(), &author(), &message).is_ok());
}

#[test]
fn a_draft_is_forgotten_once_it_was_complete() {
    let setup = SetupMessage::parse("author".to_string(), "{ROLE:Admin} stuff {ROLE:Dev}").unwrap();
    // Still being filled: kept.
    let filling = [reaction("🛠", &["author"]), reaction("✅", &["author"])];
    let step = on_setup_react(&setup, &server(), &bot(), &author(), &filling);
    assert!(matches!(step, Ok(SetupStep::Edit(_))));
    assert!(!forgets(&step));
    // Somebody else reacted: kept.
    let step = on_setup_react(&setup, &server(), &bot(), &member("other", &[]), &filling);
    assert!(matches!(step, Err(Error::InvalidUser)));
    assert!(!forgets(&step));
    // A placeholder names no role: kept.
    let lost = SetupMessage::parse("author".to_string(), "{ROLE:Nobody}").unwrap();
    let done = [reaction("🔧", &["author"]), reaction("✅", &["author"])];
    let step = on_setup_react(&lost, &server(), &bot(), &author(), &done);
    assert!(matches!(step, Ok(SetupStep::Unchanged)));
    assert!(!forgets(&step));
    // Complete and finalized: forgotten.
    let complete = [reaction("🛠", &["author"]), reaction("🔧", &["author"]), reaction("✅", &["author"])];
    let step = on_setup_react(&setup, &server(), &bot(), &author(), &complete);
    assert!(matches!(step, Ok(SetupStep::Finalize { .. })));
    assert!(forgets(&step));
    // Complete and refused by the guard: forgotten.
    let top = SetupMessage::parse("author".to_string(), "{ROLE:Top}").unwrap();
    let step = on_setup_react(&top, &server(), &bot(), &author(), &done);
    assert!(matches!(step, Err(Error::UserRankTooLow(_))));
    assert!(forgets(&step));
    // Complete and unreadable: forgotten.
    assert!(forgets(&Ok(SetupStep::Forget)));
}
