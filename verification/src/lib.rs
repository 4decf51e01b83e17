//! Role automation for a group-chat server: the rules that decide which roles
//! a member should hold, kept apart from the transport that applies them.
//!
//! Members choose roles by reacting to a message, and new members receive the
//! roles that their server has configured.
//!
//! - The guard (`guard`) checks permissions and role ranks.
//! - The reaction-role protocol turns a template into a draft (`template`,
//!   `setup`), binds emoji to the draft's placeholders as its author reacts
//!   (`draft`), and reads the finalized message back so that reactions on it
//!   become role actions (`role_message`, `reaction`). `protocol` states that
//!   what a draft writes is what a finalized message reads.
//! - The coordinator (`coordinator`) batches role actions for each server and
//!   reconciles them with the remote membership, over a pending edit map
//!   (`pending`); `convergence` states what a flush achieves, and `run` what
//!   a whole run does: every member ends with the roles that its actions ask
//!   for, whatever rate limits the remote sets on the way.
//! - `command`, `autorole`, `colour` and `report` decide what a message to
//!   the bot asks for and how a refusal is told.
//!
//! Nothing here waits or performs input or output: each function takes what
//! the caller has fetched and returns what the caller has to do.

pub mod text;
pub mod error;
pub mod keyed;
pub mod roles;
pub mod guard;
pub mod emoji;
pub mod template;
pub mod setup;
pub mod role_message;
pub mod reaction;
pub mod draft;
pub mod protocol;
pub mod command;
pub mod autorole;
pub mod colour;
pub mod report;
pub mod pending;
pub mod coordinator;
pub mod convergence;
pub mod run;

pub use crate::autorole::ServerSettings;
pub use crate::coordinator::Coordinator;
pub use crate::error::Error;
pub use crate::reaction::RoleReact;
pub use crate::role_message::RoleMessage;
pub use crate::roles::RoleAction;
pub use crate::setup::SetupMessage;
