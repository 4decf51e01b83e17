//! How a refusal is told.
//!
//! A refusal that follows a message is answered where the message was sent,
//! unless the bot may not send messages there: then the author is told
//! directly. A refusal that follows a reaction is always told directly. Some
//! refusals are passed over in silence.

use crate::error::{Error, ErrorView, Permission};
use crate::text::{push_text, utf8};
use vstd::prelude::*;

verus! {

/// Where a refusal is told, and in which words.
pub enum Report {
    /// Nobody is told.
    Silent,
    /// The text answers the message where it was sent.
    Reply(String),
    /// The text goes to the person directly.
    Direct(String),
}

/// A report over texts.
pub enum ReportView {
    Silent,
    Reply(Seq<u8>),
    Direct(Seq<u8>),
}

impl View for Report {
    type V = ReportView;

    open spec fn view(&self) -> ReportView {
        match *self {
            Report::Silent => ReportView::Silent,
            Report::Reply(text) => ReportView::Reply(utf8(text@)),
            Report::Direct(text) => ReportView::Direct(utf8(text@)),
        }
    }
}

/// The name of a permission.
pub open spec fn name_of(permission: Permission) -> Seq<char> {
    match permission {
        Permission::AssignRoles => "AssignRoles"@,
        Permission::ManageRole => "ManageRole"@,
        Permission::ManageServer => "ManageServer"@,
        Permission::SendMessage => "SendMessage"@,
    }
}

/// That the bot lacks the permission of the name `name`.
pub open spec fn bot_lacks_named(name: Seq<char>) -> Seq<u8> {
    utf8("I don't have `"@) + utf8(name) + utf8("` permissions!"@)
}

/// That the bot lacks a permission.
pub open spec fn bot_lacks(permission: Permission) -> Seq<u8> {
    bot_lacks_named(name_of(permission))
}

/// That the person lacks a permission.
pub open spec fn person_lacks(permission: Permission) -> Seq<u8> {
    utf8("You don't have `"@) + utf8(name_of(permission)) + utf8("` permissions!"@)
}

/// A text for the person directly: it names the server first.
pub open spec fn direct(server: Seq<char>, text: Seq<u8>) -> Seq<u8> {
    utf8("Server: "@) + utf8(server) + utf8("\nError: "@) + text
}

/// How a refusal that follows a message is told. Refusals that no message
/// leads to are passed over.
pub open spec fn message_report(error: ErrorView, server: Seq<char>) -> ReportView {
    match error {
        ErrorView::Custom(text) => ReportView::Reply(utf8(text)),
        ErrorView::InvalidRole(reference) => ReportView::Reply(
            utf8("Role not found!\n"@) + utf8(reference),
        ),
        ErrorView::Missing(permission) => if permission == Permission::SendMessage {
            ReportView::Direct(direct(server, bot_lacks(permission)))
        } else {
            ReportView::Reply(bot_lacks(permission))
        },
        ErrorView::UserMissing(permission) => ReportView::Reply(person_lacks(permission)),
        ErrorView::RoleRankTooHigh(name) => ReportView::Reply(
            utf8("I can only assign roles below my own!\n"@) + utf8(name),
        ),
        ErrorView::UserRankTooLow(name) => ReportView::Reply(
            utf8("You can only assign roles below your own!\n"@) + utf8(name),
        ),
        ErrorView::MemberRankTooHigh => ReportView::Silent,
        ErrorView::InvalidUser => ReportView::Silent,
    }
}

/// What a refusal that follows a reaction is told as, `None` where it is
/// passed over: a reaction by somebody else than a draft's author, and
/// refusals that no reaction leads to.
pub open spec fn reaction_text(error: ErrorView) -> Option<Seq<u8>> {
    match error {
        ErrorView::Custom(text) => Some(utf8(text)),
        ErrorView::InvalidRole(_) => Some(utf8("Role doesn't exist"@)),
        ErrorView::Missing(permission) => Some(bot_lacks(permission)),
        ErrorView::MemberRankTooHigh => Some(
            utf8("I can't assign roles to members ranked above me!"@),
        ),
        ErrorView::RoleRankTooHigh(name) => Some(
            utf8("I can only assign roles below my own!\n"@) + utf8(name),
        ),
        ErrorView::UserMissing(_) => None,
        ErrorView::UserRankTooLow(_) => None,
        ErrorView::InvalidUser => None,
    }
}

/// How a refusal that follows a reaction is told.
pub open spec fn reaction_report(error: ErrorView, server: Seq<char>) -> ReportView {
    match reaction_text(error) {
        Some(text) => ReportView::Direct(direct(server, text)),
        None => ReportView::Silent,
    }
}

/// The name of a permission.
pub fn permission_name(permission: Permission) -> (name: &'static str)
    ensures
        name@ == name_of(permission),
{
    match permission {
        Permission::AssignRoles => "AssignRoles",
        Permission::ManageRole => "ManageRole",
        Permission::ManageServer => "ManageServer",
        Permission::SendMessage => "SendMessage",
    }
}

/// `before`, `name`, `after`.
fn lacks_named(before: &str, name: &str, after: &str) -> (text: String)
    ensures
        utf8(text@) == utf8(before@) + utf8(name@) + utf8(after@),
{
    let mut text = String::from_str(before);
    push_text(&mut text, name);
    push_text(&mut text, after);
    text
}

/// `before`, the permission's name, `after`.
fn lacks(before: &str, permission: Permission, after: &str) -> (text: String)
    ensures
        utf8(text@) == utf8(before@) + utf8(name_of(permission)) + utf8(after@),
{
    lacks_named(before, permission_name(permission), after)
}

/// `before` followed by `after`.
fn join(before: &str, after: &str) -> (text: String)
    ensures
        utf8(text@) == utf8(before@) + utf8(after@),
{
    let mut text = String::from_str(before);
    push_text(&mut text, after);
    text
}

/// `text` for the person directly.
fn directly(server: &str, text: &str) -> (out: String)
    ensures
        utf8(out@) == direct(server@, utf8(text@)),
{
    let mut out = String::from_str("Server: ");
    push_text(&mut out, server);
    push_text(&mut out, "\nError: ");
    push_text(&mut out, text);
    out
}

/// How the refusal `error`, which follows a message on the server named
/// `server`, is told.
pub fn on_message_error(error: &Error, server: &str) -> (report: Report)
    ensures
        report@ == message_report(error@, server@),
{
    match error {
        Error::Custom(text) => Report::Reply(text.clone()),
        Error::InvalidRole(reference) => Report::Reply(join("Role not found!\n", reference.as_str())),
        Error::Missing(permission) => {
            let text = lacks("I don't have `", *permission, "` permissions!");
            match permission {
                Permission::SendMessage => Report::Direct(directly(server, text.as_str())),
                _ => Report::Reply(text),
            }
        },
        Error::UserMissing(permission) => Report::Reply(
            lacks("You don't have `", *permission, "` permissions!"),
        ),
        Error::RoleRankTooHigh(name) => Report::Reply(
            join("I can only assign roles below my own!\n", name.as_str()),
        ),
        Error::UserRankTooLow(name) => Report::Reply(
            join("You can only assign roles below your own!\n", name.as_str()),
        ),
        Error::MemberRankTooHigh => Report::Silent,
        Error::InvalidUser => Report::Silent,
    }
}

/// How it is told, after a message, that the remote found the bot to lack
/// the permission of the name `permission`. This is for a permission that
/// `Permission` does not list; one that it lists is told as `Error::Missing`.
pub fn on_message_denied(permission: &str) -> (report: Report)
    ensures
        report@ == ReportView::Reply(bot_lacks_named(permission@)),
{
    Report::Reply(lacks_named("I don't have `", permission, "` permissions!"))
}

/// How it is told, after a reaction on the server named `server`, that the
/// remote found the bot to lack the permission of the name `permission`.
pub fn on_react_denied(permission: &str, server: &str) -> (report: Report)
    ensures
        report@ == ReportView::Direct(direct(server@, bot_lacks_named(permission@))),
{
    let text = lacks_named("I don't have `", permission, "` permissions!");
    Report::Direct(directly(server, text.as_str()))
}

/// How the refusal `error`, which follows a reaction on the server named
/// `server`, is told.
pub fn on_react_error(error: &Error, server: &str) -> (report: Report)
    ensures
        report@ == reaction_report(error@, server@),
{
    let text = match error {
        Error::Custom(text) => text.clone(),
        Error::InvalidRole(_) => String::from_str("Role doesn't exist"),
        Error::Missing(permission) => lacks("I don't have `", *permission, "` permissions!"),
        Error::MemberRankTooHigh => String::from_str(
            "I can't assign roles to members ranked above me!",
        ),
        Error::RoleRankTooHigh(name) => join("I can only assign roles below my own!\n", name.as_str()),
        Error::UserMissing(_) => {
            return Report::Silent;
        },
        Error::UserRankTooLow(_) => {
            return Report::Silent;
        },
        Error::InvalidUser => {
            return Report::Silent;
        },
    };
    Report::Direct(directly(server, text.as_str()))
}

} // verus!
