//! Emoji keys.
//!
//! A finalized message binds roles to emoji by a key: the emoji's short code
//! where the `emojis` crate lists one, the emoji's own text otherwise (a
//! custom emoji is known by its identifier alone).

use vstd::prelude::*;

verus! {

/// The first short code that the `emojis` crate lists for `emoji`, `None`
/// where it does not know the emoji or lists no short code for it. The crate
/// looks the text up in a table that is fixed when it is compiled.
pub uninterp spec fn shortcode_of(emoji: Seq<char>) -> Option<Seq<char>>;

/// `emojis::get` followed by `Emoji::shortcode`: the table's entry for the
/// text, then the first of the entry's short codes.
#[verifier::external_body]
fn shortcode(emoji: &str) -> (found: Option<&'static str>)
    ensures
        match found {
            Some(code) => shortcode_of(emoji@) == Some(code@),
            None => shortcode_of(emoji@) is None,
        },
{
    emojis::get(emoji).and_then(emojis::Emoji::shortcode)
}

/// The key of `emoji`: its short code where it has one, else the text itself.
pub open spec fn key_of(emoji: Seq<char>) -> Seq<char> {
    match shortcode_of(emoji) {
        Some(code) => code,
        None => emoji,
    }
}

/// The key under which `emoji` is bound to a role.
pub fn emoji_key(emoji: &str) -> (key: String)
    ensures
        key@ == key_of(emoji@),
{
    match shortcode(emoji) {
        Some(code) => String::from_str(code),
        None => String::from_str(emoji),
    }
}

} // verus!
