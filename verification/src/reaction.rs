//! Reactions on a finalized message.
//!
//! A member who reacts with a bound emoji asks for the role bound to it; a
//! member who takes the reaction back gives the role up. On an exclusive
//! message, asking for one role gives up the others.

use crate::emoji::{emoji_key, key_of};
use crate::error::{Error, ErrorView, Permission};
use crate::guard::{
    index_named, lowest_rank, named, Member, Naming, Permissions, Role, Server,
};
use crate::keyed::{has_key, index_of};
use crate::role_message::{
    bound_roles, pairs_of, roles_of, Binding, Pair, RoleMessage, RoleView,
};
use crate::roles::{lemma_filter_holds, role_set, ActionView, RoleAction};
use crate::text::{same_text, texts};
use vstd::prelude::*;

verus! {

/// Whether a reaction was added or taken back.
#[derive(Clone, Copy, Debug, PartialEq, Eq, Structural)]
pub enum RoleReact {
    React,
    Unreact,
}

/// Whether a role is another one than `role`.
pub open spec fn differs_from(role: Seq<char>) -> spec_fn(Seq<char>) -> bool {
    |other: Seq<char>| other != role
}

/// The roles that `pairs` bind, in their order, but for `role`.
pub open spec fn other_roles(pairs: Seq<Pair>, role: Seq<char>) -> Seq<Seq<char>> {
    roles_of(pairs).filter(differs_from(role))
}

/// The action that a reaction for `role` asks for. Adding the reaction gives
/// the role and, on an exclusive message, removes every other role that the
/// message binds; taking it back removes the role.
pub open spec fn action_for(message: RoleView, role: Seq<char>, react: RoleReact) -> ActionView {
    match react {
        RoleReact::React => ActionView {
            give: seq![role],
            remove: if message.exclusive {
                other_roles(message.roles, role)
            } else {
                Seq::empty()
            },
        },
        RoleReact::Unreact => ActionView { give: Seq::empty(), remove: seq![role] },
    }
}

/// On an exclusive message, a reaction for a role removes the roles that the
/// message binds, all but that role and no other.
pub proof fn lemma_exclusive_removes_the_others(message: RoleView, role: Seq<char>)
    requires
        message.exclusive,
    ensures
        action_for(message, role, RoleReact::React).give == seq![role],
        action_for(message, role, RoleReact::React).remove.to_set() == bound_roles(
            message.roles,
        ).remove(role),
{
    let all = roles_of(message.roles);
    let rest = other_roles(message.roles, role);
    assert forall|other: Seq<char>| rest.contains(other) <==> (bound_roles(message.roles).contains(
        other,
    ) && other != role) by {
        lemma_filter_holds(all, differs_from(role), other);
        if all.contains(other) {
            let i = choose|i: int| 0 <= i < all.len() && all[i] == other;
            assert(message.roles[i].1 == other);
        }
        if bound_roles(message.roles).contains(other) {
            let i = choose|i: int| 0 <= i < message.roles.len() && (#[trigger] message.roles[i]).1 == other;
            assert(all[i] == other);
        }
    }
    assert(rest.to_set() =~= bound_roles(message.roles).remove(role));
}

/// On a message that binds one role, a reaction for that role removes
/// nothing.
pub proof fn lemma_single_role_removes_nothing(message: RoleView)
    requires
        message.roles.len() == 1,
    ensures
        action_for(message, message.roles[0].1, RoleReact::React).remove == Seq::<Seq<char>>::empty(),
{
    reveal_with_fuel(Seq::filter, 2);
    let all = roles_of(message.roles);
    assert(all.drop_last() =~= Seq::<Seq<char>>::empty());
    assert(all.last() == message.roles[0].1);
}

/// A list that holds `role` alone.
fn only(role: &str) -> (out: Vec<String>)
    ensures
        texts(out@) == seq![role@],
{
    let mut out: Vec<String> = Vec::new();
    out.push(String::from_str(role));
    assert(texts(out@) =~= seq![role@]);
    out
}

/// The roles that `bindings` bind, but for `role`.
fn others(bindings: &Vec<Binding>, role: &str) -> (out: Vec<String>)
    ensures
        texts(out@) == other_roles(pairs_of(bindings@), role@),
{
    let mut out: Vec<String> = Vec::new();
    let ghost all = roles_of(pairs_of(bindings@));
    let ghost differs = differs_from(role@);
    let mut i: usize = 0;
    assert(texts(out@) =~= all.take(0).filter(differs));
    while i < bindings.len()
        invariant
            i <= bindings.len(),
            all == roles_of(pairs_of(bindings@)),
            differs == differs_from(role@),
            texts(out@) == all.take(i as int).filter(differs),
        decreases bindings.len() - i,
    {
        proof {
            assert(all.take(i + 1).drop_last() =~= all.take(i as int));
            assert(all.take(i + 1).last() == bindings@[i as int].role@);
            reveal(Seq::filter);
        }
        if !same_text(bindings[i].role.as_str(), role) {
            let ghost before = texts(out@);
            out.push(bindings[i].role.clone());
            assert(texts(out@) =~= before.push(bindings@[i as int].role@));
        }
        i += 1;
    }
    assert(all.take(bindings.len() as int) =~= all);
    out
}

impl RoleMessage {
    /// The action that a reaction for the role `role` asks for.
    pub fn action(&self, role: &str, react: RoleReact) -> (out: RoleAction)
        ensures
            out@ == action_for(self@, role@, react),
    {
        let out = match react {
            RoleReact::React => {
                let remove = if self.is_exclusive() {
                    others(self.bindings(), role)
                } else {
                    Vec::new()
                };
                assert(!self@.exclusive ==> texts(remove@) =~= Seq::<Seq<char>>::empty());
                RoleAction { give: only(role), remove }
            },
            RoleReact::Unreact => {
                let give: Vec<String> = Vec::new();
                assert(texts(give@) =~= Seq::<Seq<char>>::empty());
                RoleAction { give, remove: only(role) }
            },
        };
        out
    }
}

/// Where a reaction belongs.
#[derive(Clone, Copy, Debug, PartialEq, Eq, Structural)]
pub enum Target {
    /// The message is none of the bot's, or it takes no reactions.
    Nothing,
    /// The message is a finalized reaction-role message.
    RoleMessage,
    /// The message is a draft.
    SetupMessage,
}

/// Where a reaction on a message belongs. `restricted` says whether the
/// message restricts reactions to a set of emoji, `None` where it offers no
/// reactions at all; `is_reply` says whether it replies to another message.
pub open spec fn target_of(by_bot: bool, restricted: Option<bool>, is_reply: bool) -> Target {
    if !by_bot {
        Target::Nothing
    } else {
        match restricted {
            None => Target::Nothing,
            Some(true) => Target::RoleMessage,
            Some(false) => if is_reply {
                Target::SetupMessage
            } else {
                Target::Nothing
            },
        }
    }
}

/// Where a reaction on the message written by `author_id` belongs, `my_id`
/// being the bot.
pub fn on_react(author_id: &str, my_id: &str, restricted: Option<bool>, is_reply: bool) -> (target:
    Target)
    ensures
        target == target_of(author_id@ == my_id@, restricted, is_reply),
{
    if !same_text(author_id, my_id) {
        return Target::Nothing;
    }
    match restricted {
        None => Target::Nothing,
        Some(true) => Target::RoleMessage,
        Some(false) => if is_reply {
            Target::SetupMessage
        } else {
            Target::Nothing
        },
    }
}

/// What a member's reaction with the key `key` on a finalized message leads
/// to. The bot's own reactions and keys that the message does not bind lead
/// to nothing. Otherwise the role must exist on the server, the bot must be
/// allowed to assign roles, and the member and the role must both rank below
/// the bot.
pub open spec fn role_reaction(
    message: RoleView,
    roles: Seq<Role>,
    granted: Permissions,
    bot_rank: int,
    member_rank: int,
    by_bot: bool,
    key: Seq<char>,
    react: RoleReact,
) -> Result<Option<ActionView>, ErrorView> {
    if by_bot || !has_key(message.roles, key) {
        Ok(None)
    } else {
        let role = message.roles[index_of(message.roles, key)].1;
        if !named(roles, role, Naming::Id) {
            Err(ErrorView::InvalidRole(role))
        } else if !granted.assign_roles {
            Err(ErrorView::Missing(Permission::AssignRoles))
        } else if bot_rank >= member_rank {
            Err(ErrorView::MemberRankTooHigh)
        } else if bot_rank >= roles[index_named(roles, role, Naming::Id)].rank {
            Err(ErrorView::RoleRankTooHigh(roles[index_named(roles, role, Naming::Id)].name@))
        } else {
            Ok(Some(action_for(message, role, react)))
        }
    }
}

/// Whether `out` is what `wanted` describes.
pub open spec fn is_reaction(
    out: Result<Option<RoleAction>, Error>,
    wanted: Result<Option<ActionView>, ErrorView>,
) -> bool {
    match out {
        Ok(None) => wanted == Ok::<Option<ActionView>, ErrorView>(None),
        Ok(Some(action)) => wanted == Ok::<Option<ActionView>, ErrorView>(Some(action@)),
        Err(error) => wanted == Err::<Option<ActionView>, ErrorView>(error@),
    }
}

/// What the reaction of `member` with the emoji key `key` on a finalized
/// message leads to: the action to queue for the member, nothing, or the
/// reason why the bot cannot act.
pub fn react_with_key(
    message: &RoleMessage,
    server: &Server,
    granted: &Permissions,
    bot: &Member,
    member: &Member,
    key: &str,
    react: RoleReact,
) -> (out: Result<Option<RoleAction>, Error>)
    ensures
        is_reaction(
            out,
            role_reaction(
                message@,
                server.roles@,
                *granted,
                lowest_rank(server.roles@, role_set(bot.roles@)),
                lowest_rank(server.roles@, role_set(member.roles@)),
                member.user_id@ == bot.user_id@,
                key@,
                react,
            ),
        ),
{
    if same_text(member.user_id.as_str(), bot.user_id.as_str()) {
        return Ok(None);
    }
    let role_id = match message.role_for(key) {
        Some(role_id) => role_id,
        None => {
            return Ok(None);
        },
    };
    let role = match server.role_by_id(role_id.as_str()) {
        Some(role) => role,
        None => {
            return Err(Error::InvalidRole(role_id.clone()));
        },
    };
    if !granted.has(Permission::AssignRoles) {
        return Err(Error::Missing(Permission::AssignRoles));
    }
    let bot_rank = bot.effective_rank(server);
    let member_rank = member.effective_rank(server);
    if bot_rank >= member_rank {
        return Err(Error::MemberRankTooHigh);
    }
    if bot_rank >= role.rank {
        return Err(Error::RoleRankTooHigh(role.name.clone()));
    }
    Ok(Some(message.action(role_id.as_str(), react)))
}

/// What the reaction of `member` with `emoji_id` on a finalized message
/// leads to. The emoji is known by its key.
pub fn on_role_react(
    message: &RoleMessage,
    server: &Server,
    granted: &Permissions,
    bot: &Member,
    member: &Member,
    emoji_id: &str,
    react: RoleReact,
) -> (out: Result<Option<RoleAction>, Error>)
    ensures
        is_reaction(
            out,
            role_reaction(
                message@,
                server.roles@,
                *granted,
                lowest_rank(server.roles@, role_set(bot.roles@)),
                lowest_rank(server.roles@, role_set(member.roles@)),
                member.user_id@ == bot.user_id@,
                key_of(emoji_id@),
                react,
            ),
        ),
{
    let key = emoji_key(emoji_id);
    react_with_key(message, server, granted, bot, member, key.as_str(), react)
}

} // verus!
