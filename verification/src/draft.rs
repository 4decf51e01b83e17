//! Reactions on a draft.
//!
//! The author of a draft binds emoji to its placeholders by reacting: the
//! first emoji goes to the first placeholder, and so on. Each reaction has
//! the draft rendered again. The checkmark finalizes the draft once every
//! placeholder has its emoji.

use crate::emoji::{emoji_key, key_of};
use crate::error::{Error, ErrorView, Permission};
use crate::guard::{
    both_refusal, check_above_roles, check_server_perms, first_missing, first_refusal, is_refusal,
    lowest_rank, missing, refusal, Member, Permissions, Role, Server,
};
use crate::role_message::{pairs_of, roles_of, RoleMessage, RoleView};
use crate::roles::role_set;
use crate::setup::{rendered, SetupMessage, SetupView};
use crate::text::{
    copy_texts, lemma_boundary, lemma_prefix_boundary, lemma_utf8_join, same_text, texts, utf8,
};
use vstd::prelude::*;
use vstd::utf8::{
    decode_utf8, decode_utf8_encode_utf8, encode_utf8_decode_utf8, encode_utf8_valid_utf8,
    is_char_boundary, valid_utf8,
};

verus! {

/// The most characters that the text of a message may have.
pub const MESSAGE_LIMIT: usize = 2000;

/// An emoji on a message and the users who reacted with it.
#[derive(Debug)]
pub struct Reaction {
    pub emoji: String,
    pub user_ids: Vec<String>,
}

impl Clone for Reaction {
    fn clone(&self) -> (out: Self)
        ensures
            out.emoji@ == self.emoji@,
            texts(out.user_ids@) == texts(self.user_ids@),
    {
        Reaction { emoji: self.emoji.clone(), user_ids: copy_texts(&self.user_ids) }
    }
}

/// The emoji that finalizes a draft.
pub open spec fn checkmark() -> Seq<char> {
    "✅"@
}

/// Whether `user` is among those who reacted.
pub open spec fn reacted(reaction: Reaction, user: Seq<char>) -> bool {
    texts(reaction.user_ids@).contains(user)
}

/// Whether `user` reacted with the checkmark.
pub open spec fn checked(reactions: Seq<Reaction>, user: Seq<char>) -> bool {
    exists|i: int|
        0 <= i < reactions.len() && reacted(#[trigger] reactions[i], user) && reactions[i].emoji@
            == checkmark()
}

/// The distinct emoji that `user` reacted with, the checkmark apart, in the
/// order in which `reactions` lists them first; an emoji that is chosen
/// already is passed over, and so are all once `limit` are found.
pub open spec fn chosen(reactions: Seq<Reaction>, user: Seq<char>, limit: nat) -> Seq<Seq<char>>
    decreases reactions.len(),
{
    if reactions.len() == 0 {
        Seq::empty()
    } else {
        let before = chosen(reactions.drop_last(), user, limit);
        let last = reactions.last();
        if reacted(last, user) && last.emoji@ != checkmark() && !before.contains(last.emoji@)
            && before.len() < limit {
            before.push(last.emoji@)
        } else {
            before
        }
    }
}

/// No emoji is chosen twice, and no more than the limit are chosen.
pub proof fn lemma_chosen_distinct(reactions: Seq<Reaction>, user: Seq<char>, limit: nat)
    ensures
        chosen(reactions, user, limit).no_duplicates(),
        chosen(reactions, user, limit).len() <= limit,
        !chosen(reactions, user, limit).contains(checkmark()),
    decreases reactions.len(),
{
    if reactions.len() > 0 {
        lemma_chosen_distinct(reactions.drop_last(), user, limit);
    }
}

/// Whether `user` is among `users`.
fn among(users: &Vec<String>, user: &str) -> (yes: bool)
    ensures
        yes == texts(users@).contains(user@),
{
    let mut i: usize = 0;
    while i < users.len()
        invariant
            i <= users.len(),
            forall|j: int| 0 <= j < i ==> (#[trigger] texts(users@)[j]) != user@,
        decreases users.len() - i,
    {
        if same_text(users[i].as_str(), user) {
            assert(texts(users@)[i as int] == user@);
            return true;
        }
        i += 1;
    }
    false
}

/// Reads the reactions of `user_id`: whether the checkmark is among them,
/// and the other emoji, each once, in their order, `limit` of them at most.
pub fn collect(reactions: &[Reaction], user_id: &str, limit: usize) -> (out: (bool, Vec<String>))
    ensures
        out.0 == checked(reactions@, user_id@),
        texts(out.1@) == chosen(reactions@, user_id@, limit as nat),
        texts(out.1@).no_duplicates(),
        out.1@.len() <= limit,
{
    proof {
        lemma_chosen_distinct(reactions@, user_id@, limit as nat);
    }
    let mut is_checked = false;
    let mut emojis: Vec<String> = Vec::new();
    let mut i: usize = 0;
    assert(texts(emojis@) =~= chosen(reactions@.take(0), user_id@, limit as nat));
    while i < reactions.len()
        invariant
            i <= reactions.len(),
            is_checked == checked(reactions@.take(i as int), user_id@),
            texts(emojis@) == chosen(reactions@.take(i as int), user_id@, limit as nat),
        decreases reactions.len() - i,
    {
        let reaction = &reactions[i];
        let ghost before = reactions@.take(i as int);
        let ghost after = reactions@.take(i + 1);
        proof {
            assert(after.drop_last() =~= before);
            assert(after.last() == reactions@[i as int]);
            assert(checked(after, user_id@) == (checked(before, user_id@) || (reacted(
                *reaction,
                user_id@,
            ) && reaction.emoji@ == checkmark()))) by {
                if checked(before, user_id@) {
                    let k = choose|k: int|
                        0 <= k < before.len() && reacted(#[trigger] before[k], user_id@)
                            && before[k].emoji@ == checkmark();
                    assert(after[k] == before[k]);
                }
                if checked(after, user_id@) {
                    let k = choose|k: int|
                        0 <= k < after.len() && reacted(#[trigger] after[k], user_id@)
                            && after[k].emoji@ == checkmark();
                    if k < i {
                        assert(before[k] == after[k]);
                    }
                }
                if reacted(*reaction, user_id@) && reaction.emoji@ == checkmark() {
                    assert(after[i as int] == *reaction);
                }
            }
        }
        if among(&reaction.user_ids, user_id) {
            if same_text(reaction.emoji.as_str(), "✅") {
                is_checked = true;
            } else if emojis.len() < limit && !among(&emojis, reaction.emoji.as_str()) {
                let ghost held = texts(emojis@);
                emojis.push(reaction.emoji.clone());
                assert(texts(emojis@) =~= held.push(reaction.emoji@));
            }
        }
        i += 1;
    }
    assert(reactions@.take(reactions.len() as int) =~= reactions@);
    (is_checked, emojis)
}

/// The text cut to at most `limit` characters: a text of no more
/// characters is left as it is, a longer one keeps its first `limit`
/// characters.
pub open spec fn truncated(text: Seq<u8>, limit: int) -> Seq<u8> {
    if decode_utf8(text).len() <= limit {
        text
    } else {
        utf8(decode_utf8(text).take(limit))
    }
}

/// The cut keeps a prefix of whole characters that is as long as the limit
/// allows: what stays ends where a character ends, holds the first
/// characters of the text, never more than the limit, and all of them that
/// the limit allows.
pub proof fn lemma_truncated(text: Seq<u8>, limit: int)
    requires
        valid_utf8(text),
        0 <= limit,
    ensures
        truncated(text, limit).is_prefix_of(text),
        valid_utf8(truncated(text, limit)),
        is_char_boundary(text, truncated(text, limit).len() as int),
        decode_utf8(truncated(text, limit)).is_prefix_of(decode_utf8(text)),
        decode_utf8(truncated(text, limit)).len() <= limit,
        decode_utf8(text).len() <= limit ==> truncated(text, limit) == text,
        decode_utf8(text).len() > limit ==> decode_utf8(truncated(text, limit)).len() == limit,
{
    let chars = decode_utf8(text);
    decode_utf8_encode_utf8(text);
    if chars.len() > limit {
        let kept = chars.take(limit);
        assert(chars =~= kept + chars.skip(limit));
        lemma_utf8_join(kept, chars.skip(limit));
        encode_utf8_valid_utf8(kept);
        encode_utf8_decode_utf8(kept);
        lemma_prefix_boundary(text, utf8(kept));
    } else {
        lemma_boundary(text, text.len() as int);
    }
}

/// `content` cut to at most `limit` characters.
pub fn truncate(content: String, limit: usize) -> (out: String)
    ensures
        utf8(out@) == truncated(utf8(content@), limit as int),
        out@.len() <= limit,
        out@.is_prefix_of(content@),
        content@.len() <= limit ==> out@ == content@,
        content@.len() > limit ==> out@ == content@.take(limit as int),
{
    proof {
        encode_utf8_decode_utf8(content@);
    }
    if content.as_str().unicode_len() <= limit {
        return content;
    }
    String::from_str(content.as_str().substring_char(0, limit))
}

/// What follows a reaction on a draft.
pub enum SetupStep {
    /// A placeholder names no role: the draft stays as it is.
    Unchanged,
    /// The draft's message takes the text.
    Edit(String),
    /// The draft is complete, but no binding can be read from its text: the
    /// draft is forgotten.
    Forget,
    /// The draft is complete: it is deleted, and a new message carries the
    /// text, takes reactions with `emojis` only, and is known as `roles`.
    Finalize { content: String, emojis: Vec<String>, roles: RoleMessage },
}

/// A step over texts.
pub enum StepView {
    Unchanged,
    Edit(Seq<u8>),
    Forget,
    Finalize { content: Seq<u8>, emojis: Seq<Seq<char>>, roles: RoleView },
}

impl View for SetupStep {
    type V = StepView;

    open spec fn view(&self) -> StepView {
        match *self {
            SetupStep::Unchanged => StepView::Unchanged,
            SetupStep::Edit(content) => StepView::Edit(utf8(content@)),
            SetupStep::Forget => StepView::Forget,
            SetupStep::Finalize { content, emojis, roles } => StepView::Finalize {
                content: utf8(content@),
                emojis: texts(emojis@),
                roles: roles@,
            },
        }
    }
}

/// What follows once the author's reactions are read: `emojis` are the
/// emoji chosen, `keys` their keys, `is_checked` says whether the checkmark
/// is set. The draft is rendered and cut to the limit. It is complete where
/// the checkmark is set and every placeholder has its emoji; then the
/// bindings are read back and the guard is asked about each role bound.
pub open spec fn setup_step(
    draft: SetupView,
    roles: Seq<Role>,
    bot_rank: int,
    author_rank: int,
    author_is_bot: bool,
    emojis: Seq<Seq<char>>,
    keys: Seq<Seq<char>>,
    is_checked: bool,
) -> Result<StepView, ErrorView> {
    match rendered(draft, roles, keys) {
        None => Ok(StepView::Unchanged),
        Some(text) => {
            let content = truncated(text, MESSAGE_LIMIT as int);
            if !(is_checked && emojis.len() == draft.spans().len()) {
                Ok(StepView::Edit(content))
            } else {
                match crate::role_message::parsed(content) {
                    None => Ok(StepView::Forget),
                    Some(message) => match both_refusal(
                        roles,
                        bot_rank,
                        author_rank,
                        author_is_bot,
                        roles_of(message.roles),
                    ) {
                        Some(error) => Err(error),
                        None => Ok(StepView::Finalize { content, emojis, roles: message }),
                    },
                }
            }
        },
    }
}

/// Whether `out` is what `wanted` describes.
pub open spec fn is_step(out: Result<SetupStep, Error>, wanted: Result<StepView, ErrorView>) -> bool {
    match out {
        Ok(step) => wanted == Ok::<StepView, ErrorView>(step@),
        Err(error) => wanted == Err::<StepView, ErrorView>(error@),
    }
}

/// The roles that a message binds, in the order of its bindings.
fn bound_ids(message: &RoleMessage) -> (ids: Vec<String>)
    ensures
        texts(ids@) == roles_of(message@.roles),
{
    let bindings = message.bindings();
    let mut ids: Vec<String> = Vec::new();
    let mut i: usize = 0;
    while i < bindings.len()
        invariant
            i <= bindings.len(),
            ids@.len() == i,
            forall|j: int| 0 <= j < i ==> (#[trigger] ids@[j])@ == bindings@[j].role@,
        decreases bindings.len() - i,
    {
        ids.push(bindings[i].role.clone());
        i += 1;
    }
    assert(texts(ids@) =~= roles_of(pairs_of(bindings@)));
    ids
}

/// Checks that the bot and then `author` rank above every role that the
/// message binds.
pub fn check_role_message(server: &Server, bot: &Member, author: &Member, message: &RoleMessage) -> (out:
    Result<(), Error>)
    ensures
        is_refusal(
            out,
            both_refusal(
                server.roles@,
                lowest_rank(server.roles@, role_set(bot.roles@)),
                lowest_rank(server.roles@, role_set(author.roles@)),
                author.user_id@ == bot.user_id@,
                roles_of(message@.roles),
            ),
        ),
{
    let ids = bound_ids(message);
    let my_id = bot.user_id.as_str();
    match check_above_roles(server, bot, my_id, ids.as_slice()) {
        Err(error) => Err(error),
        Ok(_) => check_above_roles(server, author, my_id, ids.as_slice()),
    }
}

/// Why a draft may not be set up, `None` where it may: the bot and then the
/// author must be allowed to assign roles, and the bot and then the author
/// must rank above every role that the draft refers to.
pub open spec fn setup_refusal(
    draft: SetupView,
    roles: Seq<Role>,
    bot_granted: Permissions,
    author_granted: Permissions,
    bot_rank: int,
    author_rank: int,
    author_is_bot: bool,
) -> Option<ErrorView> {
    if !bot_granted.assign_roles {
        Some(ErrorView::Missing(Permission::AssignRoles))
    } else if !author_granted.assign_roles {
        Some(missing(author_is_bot, Permission::AssignRoles))
    } else {
        both_refusal(roles, bot_rank, author_rank, author_is_bot, draft.references())
    }
}

/// The references of a draft, from left to right.
fn references(setup: &SetupMessage) -> (out: Vec<String>)
    ensures
        texts(out@) == setup@.references(),
{
    let slots = setup.role_slots();
    let mut out: Vec<String> = Vec::new();
    let mut i: usize = 0;
    while i < slots.len()
        invariant
            i <= slots.len(),
            out@.len() == i,
            slots@.len() == setup@.spans().len(),
            forall|at: int|
                0 <= at < slots@.len() ==> (#[trigger] slots@[at]).role@ == setup@.reference(at),
            forall|j: int| 0 <= j < i ==> (#[trigger] out@[j])@ == setup@.reference(j),
        decreases slots.len() - i,
    {
        out.push(slots[i].role.clone());
        i += 1;
    }
    assert(texts(out@) =~= setup@.references());
    out
}

/// Checks that a draft may be set up by its author.
pub fn check_setup_message(
    server: &Server,
    bot: &Member,
    bot_granted: &Permissions,
    author: &Member,
    author_granted: &Permissions,
    setup: &SetupMessage,
) -> (out: Result<(), Error>)
    ensures
        is_refusal(
            out,
            setup_refusal(
                setup@,
                server.roles@,
                *bot_granted,
                *author_granted,
                lowest_rank(server.roles@, role_set(bot.roles@)),
                lowest_rank(server.roles@, role_set(author.roles@)),
                author.user_id@ == bot.user_id@,
            ),
        ),
{
    let my_id = bot.user_id.as_str();
    let wanted = [Permission::AssignRoles];
    proof {
        reveal_with_fuel(first_missing, 2);
        assert(wanted@.len() == 1);
        assert(wanted@[0] == Permission::AssignRoles);
        assert(wanted@.drop_first().len() == 0);
    }
    match check_server_perms(bot_granted, my_id, my_id, wanted.as_slice()) {
        Err(error) => {
            return Err(error);
        },
        Ok(_) => {},
    }
    match check_server_perms(author_granted, author.user_id.as_str(), my_id, wanted.as_slice()) {
        Err(error) => {
            return Err(error);
        },
        Ok(_) => {},
    }
    let refs = references(setup);
    match check_above_roles(server, bot, my_id, refs.as_slice()) {
        Err(error) => Err(error),
        Ok(_) => check_above_roles(server, author, my_id, refs.as_slice()),
    }
}

/// What follows once the author's reactions are read.
pub fn finish_setup(
    setup: &SetupMessage,
    server: &Server,
    bot: &Member,
    author: &Member,
    emojis: Vec<String>,
    keys: &[String],
    is_checked: bool,
) -> (out: Result<SetupStep, Error>)
    ensures
        is_step(
            out,
            setup_step(
                setup@,
                server.roles@,
                lowest_rank(server.roles@, role_set(bot.roles@)),
                lowest_rank(server.roles@, role_set(author.roles@)),
                author.user_id@ == bot.user_id@,
                texts(emojis@),
                texts(keys@),
                is_checked,
            ),
        ),
{
    let text = match setup.render(keys, server) {
        Some(text) => text,
        None => {
            return Ok(SetupStep::Unchanged);
        },
    };
    let content = truncate(text, MESSAGE_LIMIT);
    let complete = is_checked && emojis.len() == setup.role_slots().len();
    if !complete {
        return Ok(SetupStep::Edit(content));
    }
    let roles = match RoleMessage::parse(content.as_str()) {
        Some(roles) => roles,
        None => {
            return Ok(SetupStep::Forget);
        },
    };
    match check_role_message(server, bot, author, &roles) {
        Err(error) => Err(error),
        Ok(_) => Ok(SetupStep::Finalize { content, emojis, roles }),
    }
}

/// The keys of a list of emoji.
pub open spec fn keys(emojis: Seq<Seq<char>>) -> Seq<Seq<char>> {
    Seq::new(emojis.len(), |i: int| key_of(emojis[i]))
}

/// What follows the reaction of the user `user` on a draft whose message has
/// the reactions `reactions`: somebody other than the author is turned away;
/// the author's emoji are read, up to one for each placeholder, and the draft
/// goes on from them.
pub open spec fn draft_reaction(
    draft: SetupView,
    roles: Seq<Role>,
    bot_rank: int,
    user_rank: int,
    user: Seq<char>,
    user_is_bot: bool,
    reactions: Seq<Reaction>,
) -> Result<StepView, ErrorView> {
    if draft.author != user {
        Err(ErrorView::InvalidUser)
    } else {
        setup_step(
            draft,
            roles,
            bot_rank,
            user_rank,
            user_is_bot,
            chosen(reactions, user, draft.spans().len()),
            keys(chosen(reactions, user, draft.spans().len())),
            checked(reactions, user),
        )
    }
}

/// What follows the reaction of `user` on a draft, given all the reactions
/// that the draft's message has now. Only the draft's author may react.
pub fn on_setup_react(
    setup: &SetupMessage,
    server: &Server,
    bot: &Member,
    user: &Member,
    reactions: &[Reaction],
) -> (out: Result<SetupStep, Error>)
    ensures
        is_step(
            out,
            draft_reaction(
                setup@,
                server.roles@,
                lowest_rank(server.roles@, role_set(bot.roles@)),
                lowest_rank(server.roles@, role_set(user.roles@)),
                user.user_id@,
                user.user_id@ == bot.user_id@,
                reactions@,
            ),
        ),
{
    if !same_text(setup.author_id(), user.user_id.as_str()) {
        return Err(Error::InvalidUser);
    }
    let (is_checked, emojis) = collect(reactions, user.user_id.as_str(), setup.role_slots().len());
    let mut found: Vec<String> = Vec::new();
    let mut i: usize = 0;
    while i < emojis.len()
        invariant
            i <= emojis.len(),
            found@.len() == i,
            forall|j: int| 0 <= j < i ==> (#[trigger] found@[j])@ == key_of(emojis@[j]@),
        decreases emojis.len() - i,
    {
        found.push(emoji_key(emojis[i].as_str()));
        i += 1;
    }
    assert(texts(found@) =~= keys(texts(emojis@)));
    finish_setup(setup, server, bot, user, emojis, found.as_slice(), is_checked)
}

/// Whether a draft is forgotten once a reaction on it has led to `out`. A
/// draft that was complete is forgotten, whatever came of it: finalized,
/// unreadable, or refused by the guard. It is read anew from its template
/// when it is reacted to again. A draft that is still being filled is kept,
/// and so is one that somebody other than its author reacted to.
pub open spec fn forgotten(out: Result<StepView, ErrorView>) -> bool {
    match out {
        Ok(StepView::Unchanged) => false,
        Ok(StepView::Edit(_)) => false,
        Ok(StepView::Forget) => true,
        Ok(StepView::Finalize { .. }) => true,
        Err(ErrorView::InvalidUser) => false,
        Err(_) => true,
    }
}

/// Whether the reactions of `user` complete the draft: the user is its
/// author, every placeholder names a role and has its emoji, and the
/// checkmark is set.
pub open spec fn completes(
    draft: SetupView,
    roles: Seq<Role>,
    user: Seq<char>,
    reactions: Seq<Reaction>,
) -> bool {
    &&& draft.author == user
    &&& rendered(draft, roles, keys(chosen(reactions, user, draft.spans().len()))) is Some
    &&& checked(reactions, user)
    &&& chosen(reactions, user, draft.spans().len()).len() == draft.spans().len()
}

/// The guard never answers that the user is the wrong one.
proof fn lemma_refusal_names_a_role(
    roles: Seq<Role>,
    rank: int,
    is_bot: bool,
    references: Seq<Seq<char>>,
)
    ensures
        first_refusal(roles, rank, is_bot, references) != Some(ErrorView::InvalidUser),
    decreases references.len(),
{
    if references.len() > 0 && refusal(roles, rank, is_bot, references[0]) is None {
        lemma_refusal_names_a_role(roles, rank, is_bot, references.drop_first());
    }
}

/// A draft is forgotten exactly where the reaction completed it.
pub proof fn lemma_forgotten_when_complete(
    draft: SetupView,
    roles: Seq<Role>,
    bot_rank: int,
    user_rank: int,
    user: Seq<char>,
    user_is_bot: bool,
    reactions: Seq<Reaction>,
)
    ensures
        forgotten(
            draft_reaction(draft, roles, bot_rank, user_rank, user, user_is_bot, reactions),
        ) == completes(draft, roles, user, reactions),
{
    let emojis = chosen(reactions, user, draft.spans().len());
    if draft.author == user {
        match rendered(draft, roles, keys(emojis)) {
            Some(text) => {
                match crate::role_message::parsed(truncated(text, MESSAGE_LIMIT as int)) {
                    Some(message) => {
                        let bound = roles_of(message.roles);
                        lemma_refusal_names_a_role(roles, bot_rank, true, bound);
                        lemma_refusal_names_a_role(roles, user_rank, user_is_bot, bound);
                    },
                    None => {},
                }
            },
            None => {},
        }
    }
}

/// Whether the draft is forgotten once a reaction on it has led to `out`.
pub fn forgets(out: &Result<SetupStep, Error>) -> (yes: bool)
    ensures
        yes == match *out {
            Ok(step) => forgotten(Ok(step@)),
            Err(error) => forgotten(Err(error@)),
        },
{
    match out {
        Ok(SetupStep::Unchanged) => false,
        Ok(SetupStep::Edit(_)) => false,
        Ok(SetupStep::Forget) => true,
        Ok(SetupStep::Finalize { .. }) => true,
        Err(Error::InvalidUser) => false,
        Err(_) => true,
    }
}

} // verus!
