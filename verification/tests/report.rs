use roles_bot::command::recover_setup;
use roles_bot::error::{Error, Permission};
use roles_bot::report::{
    on_message_denied, on_message_error, on_react_denied, on_react_error, permission_name, Report,
};

fn reply(report: Report) -> String {
    match report {
        Report::Reply(text) => text,
        _ => panic!("expected a reply"),
    }
}

fn direct(report: Report) -> String {
    match report {
        Report::Direct(text) => text,
        _ => panic!("expected a direct message"),
    }
}

#[test]
fn message_errors_are_answered_in_the_channel() {
    assert_eq!(reply(on_message_error(&Error::Custom("as it is".to_string()), "Home")), "as it is");
    assert_eq!(reply(on_message_error(&Error::InvalidRole("Nobody".to_string()), "Home")), "Role not found!\nNobody");
    assert_eq!(
        reply(on_message_error(&Error::Missing(Permission::AssignRoles), "Home")),
        "I don't have `AssignRoles` permissions!"
    );
    assert_eq!(
        reply(on_message_error(&Error::UserMissing(Permission::ManageServer), "Home")),
        "You don't have `ManageServer` permissions!"
    );
    assert_eq!(
        reply(on_message_error(&Error::RoleRankTooHigh("Admin".to_string()), "Home")),
        "I can only assign roles below my own!\nAdmin"
    );
    assert_eq!(
        reply(on_message_error(&Error::UserRankTooLow("Admin".to_string()), "Home")),
        "You can only assign roles below your own!\nAdmin"
    );
}

#[test]
fn missing_send_message_is_told_directly() {
    assert_eq!(
        direct(on_message_error(&Error::Missing(Permission::SendMessage), "Home")),
        "Server: Home\nError: I don't have `SendMessage` permissions!"
    );
}

#[test]
fn message_errors_of_other_flows_are_passed_over() {
    assert!(matches!(on_message_error(&Error::MemberRankTooHigh, "Home"), Report::Silent));
    assert!(matches!(on_message_error(&Error::InvalidUser, "Home"), Report::Silent));
}

#[test]
fn reaction_errors_are_told_directly() {
    assert_eq!(direct(on_react_error(&Error::Custom("text".to_string()), "Home")), "Server: Home\nError: text");
    assert_eq!(
        direct(on_react_error(&Error::InvalidRole("x".to_string()), "Home")),
        "Server: Home\nError: Role doesn't exist"
    );
    assert_eq!(
        direct(on_react_error(&Error::Missing(Permission::ManageRole), "Unknown")),
        "Server: Unknown\nError: I don't have `ManageRole` permissions!"
    );
    assert_eq!(
        direct(on_react_error(&Error::MemberRankTooHigh, "Home")),
        "Server: Home\nError: I can't assign roles to members ranked above me!"
    );
    assert_eq!(
        direct(on_react_error(&Error::RoleRankTooHigh("Red".to_string()), "Home")),
        "Server: Home\nError: I can only assign roles below my own!\nRed"
    );
}

#[test]
fn reaction_errors_about_the_person_are_passed_over() {
    assert!(matches!(on_react_error(&Error::InvalidUser, "Home"), Report::Silent));
    assert!(matches!(on_react_error(&Error::UserMissing(Permission::AssignRoles), "Home"), Report::Silent));
    assert!(matches!(on_react_error(&Error::UserRankTooLow("x".to_string()), "Home"), Report::Silent));
}

#[test]
fn permissions_have_their_names() {
    assert_eq!(permission_name(Permission::AssignRoles), "AssignRoles");
    assert_eq!(permission_name(Permission::ManageRole), "ManageRole");
    assert_eq!(permission_name(Permission::ManageServer), "ManageServer");
    assert_eq!(permission_name(Permission::SendMessage), "SendMessage");
}

#[test]
fn draft_is_recovered_from_the_message_it_was_made_from() {
    let setup = recover_setup("u".to_string(), "<@bot>", "<@bot> formatted {ROLE:Red}").unwrap();
    assert_eq!(setup.author_id(), "u");
    assert!(setup.is_formatted());
    assert_eq!(setup.content(), "{ROLE:Red}");
    assert!(recover_setup("u".to_string(), "<@bot>", "formatted {ROLE:Red}").is_none());
    assert!(recover_setup("u".to_string(), "<@bot>", "<@bot> help").is_none());
    // A command word is no command here: the text is read as a template.
    assert!(recover_setup("u".to_string(), "<@bot>", "<@bot> help {ROLE:Red}").is_some());
}

#[test]
fn a_permission_that_the_remote_found_missing_is_told_by_its_name() {
    assert_eq!(reply(on_message_denied("KickMembers")), "I don't have `KickMembers` permissions!");
    assert_eq!(
        direct(on_react_denied("KickMembers", "Home")),
        "Server: Home\nError: I don't have `KickMembers` permissions!"
    );
    // The same words as for a permission that the library lists.
    assert_eq!(
        reply(on_message_denied("AssignRoles")),
        reply(on_message_error(&Error::Missing(Permission::AssignRoles), "Home"))
    );
}
