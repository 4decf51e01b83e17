use roles_bot::guard::{Role, Server};
use roles_bot::role_message::RoleMessage;
use roles_bot::setup::SetupMessage;

fn server() -> Server {
    Server {
        id: "S".to_string(),
        roles: vec![
            Role { id: "01ADMIN0000000000000000000".to_string(), name: "Admin".to_string(), rank: 1 },
            Role { id: "01DEV000000000000000000000".to_string(), name: "Dev".to_string(), rank: 2 },
        ],
    }
}

#[test]
fn parse_finds_two_placeholders_in_order() {
    let setup = SetupMessage::parse("author".to_string(), "{ROLE:Admin} stuff {ROLE:Dev}").unwrap();
    assert_eq!(setup.content(), "{ROLE:Admin} stuff {ROLE:Dev}");
    let slots = setup.role_slots();
    assert_eq!(slots.len(), 2);
    assert_eq!((slots[0].start, slots[0].end, slots[0].role.as_str()), (0, 12, "Admin"));
    assert_eq!((slots[1].start, slots[1].end, slots[1].role.as_str()), (19, 29, "Dev"));
    assert!(!setup.is_exclusive());
    assert!(!setup.is_formatted());
}

#[test]
fn parse_without_placeholder_is_none() {
    assert!(SetupMessage::parse("a".to_string(), "hello world").is_none());
    assert!(SetupMessage::parse("a".to_string(), "").is_none());
    assert!(SetupMessage::parse("a".to_string(), "{ROLE:}").is_none());
    assert!(SetupMessage::parse("a".to_string(), "exclusive formatted").is_none());
}

#[test]
fn parse_strips_keywords_and_marks_exclusive() {
    let setup = SetupMessage::parse("a".to_string(), "  Exclusive  FORMATTED {role:Red} x ").unwrap();
    assert!(setup.is_exclusive());
    assert!(setup.is_formatted());
    assert_eq!(setup.content(), "[](EXCLUSIVE){role:Red} x");
    assert_eq!(setup.role_slots()[0].start, 13);
    assert_eq!(setup.role_slots()[0].role, "Red");
}

#[test]
fn with_emojis_binds_in_order() {
    let setup = SetupMessage::parse("author".to_string(), "{ROLE:Admin} stuff {ROLE:Dev}").unwrap();
    let out = setup.with_emojis(&["🛠", "🔧"], &server()).unwrap();
    assert_eq!(
        out,
        ":hammer_and_wrench:[](01ADMIN0000000000000000000) __Admin__ stuff :wrench:[](01DEV000000000000000000000) __Dev__"
    );
}

#[test]
fn with_emojis_leaves_unbound_placeholders() {
    let setup = SetupMessage::parse("author".to_string(), "formatted a {ROLE:admin} b {ROLE:Dev} c").unwrap();
    assert_eq!(setup.with_emojis(&[], &server()).unwrap(), "a {ROLE:admin} b {ROLE:Dev} c");
    assert_eq!(
        setup.with_emojis(&["01GAR9TW0FGMH680JM2C0P0Y02"], &server()).unwrap(),
        "a :01GAR9TW0FGMH680JM2C0P0Y02:[](01ADMIN0000000000000000000) b {ROLE:Dev} c"
    );
}

#[test]
fn with_emojis_fails_on_unknown_role() {
    let setup = SetupMessage::parse("author".to_string(), "{ROLE:Nobody} {ROLE:Dev}").unwrap();
    assert!(!setup.resolves(&server()));
    assert!(setup.with_emojis(&["🔧"], &server()).is_none());
    assert!(setup.with_emojis(&["🔧", "🛠"], &server()).is_none());
}

#[test]
fn with_emojis_fails_on_unknown_role_that_gets_no_emoji() {
    let setup = SetupMessage::parse("author".to_string(), "{ROLE:Dev} {ROLE:Nobody}").unwrap();
    assert!(setup.with_emojis(&["🔧"], &server()).is_none());
    assert!(setup.with_emojis(&[], &server()).is_none());
    assert!(setup.render(&[], &server()).is_none());
    let known = SetupMessage::parse("author".to_string(), "{ROLE:Dev} {ROLE:admin}").unwrap();
    assert!(known.resolves(&server()));
    assert_eq!(known.with_emojis(&[], &server()).unwrap(), "{ROLE:Dev} {ROLE:admin}");
}

#[test]
fn parse_takes_each_keyword_once() {
    let setup = SetupMessage::parse("u1".to_string(), "exclusive exclusive {ROLE:a}").unwrap();
    assert!(setup.is_exclusive());
    assert!(!setup.is_formatted());
    assert_eq!(setup.content(), "[](EXCLUSIVE)exclusive {ROLE:a}");
    let slots = setup.role_slots();
    assert_eq!(slots.len(), 1);
    assert_eq!((slots[0].start, slots[0].end, slots[0].role.as_str()), (23, 31, "a"));

    let setup = SetupMessage::parse("u1".to_string(), "Formatted exclusive FORMATTED {ROLE:a}").unwrap();
    assert!(setup.is_exclusive());
    assert!(setup.is_formatted());
    assert_eq!(setup.content(), "[](EXCLUSIVE)FORMATTED {ROLE:a}");
}

#[test]
fn parsing_twice_gives_the_same_slots() {
    let template = "  exclusive {ROLE:Admin} é {role:Développeur} {ROLE:} {ROLE:x}";
    let first = SetupMessage::parse("author".to_string(), template).unwrap();
    let second = SetupMessage::parse("author".to_string(), template).unwrap();
    assert_eq!(first.content(), second.content());
    let slots = |setup: &SetupMessage| -> Vec<(usize, usize, String)> {
        setup.role_slots().iter().map(|s| (s.start, s.end, s.role.clone())).collect()
    };
    assert_eq!(slots(&first), slots(&second));
    assert_eq!(
        slots(&first),
        vec![
            (13, 25, "Admin".to_string()),
            (29, 48, "Développeur".to_string()),
            (57, 65, "x".to_string()),
        ]
    );
    let copy = first.clone();
    assert_eq!(slots(&copy), slots(&first));
    assert_eq!(copy.content(), first.content());
    assert_eq!(copy.is_exclusive(), first.is_exclusive());
}

#[test]
fn render_takes_keys_as_they_are() {
    let setup = SetupMessage::parse("author".to_string(), "formatted {ROLE:Dev}!").unwrap();
    let out = setup.render(&["🔧".to_string(), "unused".to_string()], &server()).unwrap();
    assert_eq!(out, ":🔧:[](01DEV000000000000000000000)!");
}

#[test]
fn emoji_key_is_the_short_code_or_the_text_itself() {
    assert_eq!(roles_bot::emoji::emoji_key("🔧"), "wrench");
    assert_eq!(roles_bot::emoji::emoji_key("✅"), "white_check_mark");
    assert_eq!(roles_bot::emoji::emoji_key("01GAR9TW0FGMH680JM2C0P0Y02"), "01GAR9TW0FGMH680JM2C0P0Y02");
    assert_eq!(roles_bot::emoji::emoji_key(""), "");
}

/// A server whose role identifiers have the form that a binding is read with.
fn server_with_readable_ids() -> Server {
    Server {
        id: "S".to_string(),
        roles: vec![
            Role { id: "01ADM1N0000000000000000000".to_string(), name: "Admin".to_string(), rank: 1 },
            Role { id: "01DEV000000000000000000000".to_string(), name: "Dev".to_string(), rank: 2 },
        ],
    }
}

#[test]
fn an_exclusive_draft_reads_back_as_exclusive() {
    let server = server_with_readable_ids();
    for template in ["exclusive {ROLE:Admin}", "exclusive text {ROLE:Admin} and {ROLE:Dev}", "formatted exclusive {ROLE:dev}"] {
        let setup = SetupMessage::parse("u1".to_string(), template).unwrap();
        assert!(setup.is_exclusive());
        let text = setup.with_emojis(&["🔧", "🛠"], &server).unwrap();
        assert!(text.starts_with("[](EXCLUSIVE)"));
        assert!(RoleMessage::parse(&text).unwrap().is_exclusive());
        // With no emoji yet the marker is there already.
        assert!(setup.with_emojis(&[], &server).unwrap().starts_with("[](EXCLUSIVE)"));
    }
    let setup = SetupMessage::parse("u1".to_string(), "{ROLE:Admin}").unwrap();
    let text = setup.with_emojis(&["🔧"], &server).unwrap();
    assert!(!RoleMessage::parse(&text).unwrap().is_exclusive());
}

#[test]
fn a_template_that_begins_with_the_marker_reads_back_as_exclusive() {
    let setup = SetupMessage::parse("u1".to_string(), "[](EXCLUSIVE){ROLE:Admin}").unwrap();
    assert!(!setup.is_exclusive());
    let text = setup.with_emojis(&["🔧"], &server_with_readable_ids()).unwrap();
    assert_eq!(text, "[](EXCLUSIVE):wrench:[](01ADM1N0000000000000000000) __Admin__");
    assert!(RoleMessage::parse(&text).unwrap().is_exclusive());
}
