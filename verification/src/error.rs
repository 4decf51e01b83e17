//! Why a request was turned down.

use vstd::prelude::*;

verus! {

/// A permission that a rule of this library asks for.
#[derive(Clone, Copy, Debug, PartialEq, Eq, Structural)]
pub enum Permission {
    AssignRoles,
    ManageRole,
    ManageServer,
    SendMessage,
}

/// Why a request was turned down. The bot and the person who asked are told
/// apart: `Missing`, `RoleRankTooHigh` and `MemberRankTooHigh` are about the
/// bot, `UserMissing`, `UserRankTooLow` and `InvalidUser` about the person.
#[derive(Debug)]
pub enum Error {
    /// A message for the person who asked.
    Custom(String),
    /// The role reference names no role of the server.
    InvalidRole(String),
    /// The bot lacks the permission.
    Missing(Permission),
    /// The member whose roles should change does not rank below the bot.
    MemberRankTooHigh,
    /// The named role does not rank below the bot.
    RoleRankTooHigh(String),
    /// The person lacks the permission.
    UserMissing(Permission),
    /// The named role does not rank below the person.
    UserRankTooLow(String),
    /// Somebody other than the draft's author reacted to it.
    InvalidUser,
}

/// An error over texts.
pub enum ErrorView {
    Custom(Seq<char>),
    InvalidRole(Seq<char>),
    Missing(Permission),
    MemberRankTooHigh,
    RoleRankTooHigh(Seq<char>),
    UserMissing(Permission),
    UserRankTooLow(Seq<char>),
    InvalidUser,
}

impl View for Error {
    type V = ErrorView;

    open spec fn view(&self) -> ErrorView {
        match *self {
            Error::Custom(text) => ErrorView::Custom(text@),
            Error::InvalidRole(reference) => ErrorView::InvalidRole(reference@),
            Error::Missing(permission) => ErrorView::Missing(permission),
            Error::MemberRankTooHigh => ErrorView::MemberRankTooHigh,
            Error::RoleRankTooHigh(name) => ErrorView::RoleRankTooHigh(name@),
            Error::UserMissing(permission) => ErrorView::UserMissing(permission),
            Error::UserRankTooLow(name) => ErrorView::UserRankTooLow(name@),
            Error::InvalidUser => ErrorView::InvalidUser,
        }
    }
}

} // verus!
