//! What a message to the bot asks for.
//!
//! A message concerns the bot where it starts with the bot's mention. Its
//! first word may name a command, in any case; any other message is read as
//! a template.

use crate::error::{Error, ErrorView, Permission};
use crate::guard::Permissions;
use crate::setup::{parsed, SetupMessage, SetupView};
use crate::template::{
    lemma_skip_spaces_boundary, lemma_word_end, skip_spaces, skip_spaces_from, trim, trimmed,
    word_end, word_end_from,
};
use crate::text::{
    lemma_boundary, lemma_prefix_boundary, same_ignoring_case, same_text, slice, spells,
    starts_with, utf8,
};
use vstd::prelude::*;
use vstd::utf8::encode_utf8_valid_utf8;

verus! {

/// What a message asks for.
pub enum Request {
    /// The message does not concern the bot, or it is no template.
    Ignore,
    /// The help text.
    Help,
    /// The roles for new members: what follows the command word.
    Autorole(String),
    /// A role's colour: what follows the command word.
    Colour(String),
    /// A draft of a reaction-role message.
    Setup(SetupMessage),
}

/// A request over texts.
pub enum RequestView {
    Ignore,
    Help,
    Autorole(Seq<u8>),
    Colour(Seq<u8>),
    Setup(SetupView),
}

impl View for Request {
    type V = RequestView;

    open spec fn view(&self) -> RequestView {
        match *self {
            Request::Ignore => RequestView::Ignore,
            Request::Help => RequestView::Help,
            Request::Autorole(rest) => RequestView::Autorole(utf8(rest@)),
            Request::Colour(rest) => RequestView::Colour(utf8(rest@)),
            Request::Setup(setup) => RequestView::Setup(setup@),
        }
    }
}

/// Whether `word` is `name` but for the case of ASCII letters.
pub open spec fn is_word(word: Seq<u8>, name: Seq<char>) -> bool {
    same_ignoring_case(word, utf8(name))
}

/// What the text behind the mention asks for. The text is trimmed; its first
/// word names the command, and what follows the white space behind that word
/// goes to the command. No word at all asks for help. A first word that
/// names no command makes the whole trimmed text a template, which is
/// ignored where it holds no placeholder.
pub open spec fn routed(author: Seq<char>, text: Seq<u8>) -> RequestView {
    let body = trimmed(text);
    let stop = word_end(body, 0);
    let word = body.subrange(0, stop);
    let rest = body.subrange(skip_spaces(body, stop), body.len() as int);
    if stop == 0 || is_word(word, "help"@) {
        RequestView::Help
    } else if is_word(word, "auto"@) || is_word(word, "autorole"@) {
        RequestView::Autorole(rest)
    } else if is_word(word, "color"@) || is_word(word, "colour"@) {
        RequestView::Colour(rest)
    } else {
        match parsed(author, body) {
            Some(setup) => RequestView::Setup(setup),
            None => RequestView::Ignore,
        }
    }
}

/// What a message asks for. The bot's own messages, messages that do not
/// start with the mention and messages of other bots are ignored. Then the
/// bot must be allowed to send messages where the message was sent.
pub open spec fn requested(
    author: Seq<char>,
    my_id: Seq<char>,
    mention: Seq<u8>,
    author_is_bot: bool,
    granted: Permissions,
    text: Seq<u8>,
) -> Result<RequestView, ErrorView> {
    if author == my_id || !mention.is_prefix_of(text) || author_is_bot {
        Ok(RequestView::Ignore)
    } else if !granted.send_message {
        Err(ErrorView::Missing(Permission::SendMessage))
    } else {
        Ok(routed(author, text.subrange(mention.len() as int, text.len() as int)))
    }
}

/// Whether `out` is what `wanted` describes.
pub open spec fn is_request(out: Result<Request, Error>, wanted: Result<RequestView, ErrorView>) -> bool {
    match out {
        Ok(request) => wanted == Ok::<RequestView, ErrorView>(request@),
        Err(error) => wanted == Err::<RequestView, ErrorView>(error@),
    }
}

/// What the text behind the mention asks for.
pub fn route(author_id: String, text: &str) -> (request: Request)
    ensures
        request@ == routed(author_id@, utf8(text@)),
{
    broadcast use encode_utf8_valid_utf8;

    let body = trim(text);
    let bytes = body.as_bytes();
    let stop = word_end_from(bytes, 0);
    if stop == 0 || spells(bytes, 0, stop, "help".as_bytes()) {
        return Request::Help;
    }
    let auto = spells(bytes, 0, stop, "auto".as_bytes()) || spells(
        bytes,
        0,
        stop,
        "autorole".as_bytes(),
    );
    let colour = spells(bytes, 0, stop, "color".as_bytes()) || spells(
        bytes,
        0,
        stop,
        "colour".as_bytes(),
    );
    if auto || colour {
        let from = skip_spaces_from(bytes, stop);
        proof {
            let all = utf8(body@);
            lemma_word_end(all, 0);
            lemma_boundary(all, stop as int);
            lemma_skip_spaces_boundary(all, stop as int);
            lemma_boundary(all, all.len() as int);
        }
        let rest = String::from_str(slice(body, from, bytes.len()));
        return if auto {
            Request::Autorole(rest)
        } else {
            Request::Colour(rest)
        };
    }
    match SetupMessage::parse(author_id, body) {
        Some(setup) => Request::Setup(setup),
        None => Request::Ignore,
    }
}

/// Whether a message concerns the bot: it is not the bot's own and starts
/// with the bot's mention. Any other message is ignored, whatever else holds
/// of it.
pub fn concerns(author_id: &str, my_id: &str, mention: &str, content: &str) -> (yes: bool)
    ensures
        yes == (author_id@ != my_id@ && utf8(mention@).is_prefix_of(utf8(content@))),
{
    !same_text(author_id, my_id) && starts_with(content.as_bytes(), mention.as_bytes())
}

/// The draft that a message stands for: the message must start with the
/// mention, and what follows it must be a template.
pub open spec fn recovered(author: Seq<char>, mention: Seq<u8>, text: Seq<u8>) -> Option<SetupView> {
    if mention.is_prefix_of(text) {
        parsed(author, text.subrange(mention.len() as int, text.len() as int))
    } else {
        None
    }
}

/// Reads the draft again from the message that it was made from, for a
/// draft that is no longer known.
pub fn recover_setup(author_id: String, mention: &str, content: &str) -> (out: Option<SetupMessage>)
    ensures
        match out {
            Some(setup) => recovered(author_id@, utf8(mention@), utf8(content@)) == Some(setup@),
            None => recovered(author_id@, utf8(mention@), utf8(content@)) is None,
        },
{
    broadcast use encode_utf8_valid_utf8;

    let bytes = content.as_bytes();
    let prefix = mention.as_bytes();
    if !starts_with(bytes, prefix) {
        return None;
    }
    proof {
        lemma_prefix_boundary(utf8(content@), utf8(mention@));
        lemma_boundary(utf8(content@), utf8(content@).len() as int);
    }
    SetupMessage::parse(author_id, slice(content, prefix.len(), bytes.len()))
}

/// What the message `content` of `author_id` asks for. `my_id` and `mention`
/// are the bot's identifier and mention, `author_is_bot` says whether the
/// author is a bot, and `granted` is what the bot may do where the message
/// was sent.
pub fn on_message(
    author_id: String,
    my_id: &str,
    mention: &str,
    author_is_bot: bool,
    granted: &Permissions,
    content: &str,
) -> (out: Result<Request, Error>)
    ensures
        is_request(
            out,
            requested(author_id@, my_id@, utf8(mention@), author_is_bot, *granted, utf8(content@)),
        ),
{
    broadcast use encode_utf8_valid_utf8;

    if same_text(author_id.as_str(), my_id) {
        return Ok(Request::Ignore);
    }
    let bytes = content.as_bytes();
    let prefix = mention.as_bytes();
    if !starts_with(bytes, prefix) || author_is_bot {
        return Ok(Request::Ignore);
    }
    if !granted.has(Permission::SendMessage) {
        return Err(Error::Missing(Permission::SendMessage));
    }
    proof {
        lemma_prefix_boundary(utf8(content@), utf8(mention@));
        lemma_boundary(utf8(content@), utf8(content@).len() as int);
    }
    let text = slice(content, prefix.len(), bytes.len());
    Ok(route(author_id, text))
}

} // verus!
