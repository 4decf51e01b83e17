//! The colour of a role.
//!
//! A colour is given as free text. Where the text is two or more simple
//! colours (a name or a hexadecimal number, as `red` or `#C10417`), they
//! become a gradient from left to right; any other text is taken as it is.

use crate::error::{Error, ErrorView, Permission};
use crate::guard::{
    both_refusal, check_above_role, first_refusal, lowest_rank, missing, resolve, Member,
    Permissions, Role, Server,
};
use crate::role_message::is_digit;
use crate::roles::role_set;
use crate::template::{
    lemma_skip_spaces, lemma_skip_spaces_boundary, lemma_word_end, skip_spaces, skip_spaces_from,
    trim, trimmed, word_end, word_end_from,
};
use crate::text::{
    folded_width, folded_width_at, lemma_boundary, lower, lower_byte, push_text, slice, utf8,
};
use vstd::prelude::*;
use vstd::utf8::{decode_utf8, encode_utf8_decode_utf8, encode_utf8_valid_utf8, valid_utf8};

verus! {

/// The most bytes that a colour may have.
pub const COLOUR_LIMIT: usize = 128;

/// `#`
pub const HASH: u8 = 0x23;

/// The width in bytes of the letter or digit that starts at `at`, 0 where
/// none starts there. The letters are those of ASCII in either case and the
/// two characters that fold to one of them, U+017F and U+212A.
pub open spec fn colour_width(word: Seq<u8>, at: int) -> int {
    if 0 <= at < word.len() && (is_digit(word[at]) || 0x61 <= lower(word[at]) <= 0x7a) {
        1
    } else {
        folded_width(word, at)
    }
}

/// The end of the longest run of letters and digits from `at` on.
pub open spec fn colour_end(word: Seq<u8>, at: int) -> int
    decreases word.len() - at,
{
    if colour_width(word, at) > 0 {
        colour_end(word, at + colour_width(word, at))
    } else {
        at
    }
}

/// Whether the word is a simple colour: one or more letters and digits,
/// which `#` may precede.
pub open spec fn is_colour(word: Seq<u8>) -> bool {
    let start: int = if word.len() > 0 && word[0] == HASH {
        1
    } else {
        0
    };
    start < word.len() && colour_end(word, start) == word.len()
}

/// The words of a trimmed text from `at` on.
pub open spec fn words(text: Seq<u8>, at: int) -> Seq<Seq<u8>>
    decreases text.len() - at,
    via words_decreases
{
    let stop = word_end(text, at);
    if at < 0 || stop <= at {
        Seq::empty()
    } else {
        seq![text.subrange(at, stop)] + words(text, skip_spaces(text, stop))
    }
}

#[via_fn]
proof fn words_decreases(text: Seq<u8>, at: int) {
    if 0 <= at <= text.len() {
        lemma_word_end(text, at);
        lemma_skip_spaces(text, word_end(text, at));
    }
}

/// The words, with a comma between each two.
pub open spec fn joined(words: Seq<Seq<u8>>) -> Seq<u8>
    decreases words.len(),
{
    if words.len() == 0 {
        Seq::empty()
    } else if words.len() == 1 {
        words[0]
    } else {
        joined(words.drop_last()) + utf8(","@) + words.last()
    }
}

/// Whether every word is a simple colour.
pub open spec fn all_colours(words: Seq<Seq<u8>>) -> bool {
    forall|i: int| 0 <= i < words.len() ==> is_colour(#[trigger] words[i])
}

/// The colour that a text stands for: a gradient where the trimmed text is
/// two or more simple colours, else the trimmed text.
pub open spec fn colours(text: Seq<u8>) -> Seq<u8> {
    let body = trimmed(text);
    let all = words(body, 0);
    if all.len() > 1 && all_colours(all) {
        utf8("linear-gradient(to right,"@) + joined(all) + utf8(")"@)
    } else {
        body
    }
}

/// Whether the word is a simple colour.
pub fn is_colour_word(word: &[u8]) -> (yes: bool)
    ensures
        yes == is_colour(word@),
{
    let len = word.len();
    let start: usize = if len > 0 && word[0] == HASH {
        1
    } else {
        0
    };
    if start >= len {
        return false;
    }
    let mut at = start;
    loop
        invariant
            len == word@.len(),
            start < len,
            start <= at <= len,
            start == 1 <==> word@[0] == HASH,
            start == 0 || start == 1,
            colour_end(word@, start as int) == colour_end(word@, at as int),
        decreases len - at,
    {
        let width = if at < len && ((0x30 <= word[at] && word[at] <= 0x39) || (0x61 <= lower_byte(
            word[at],
        ) && lower_byte(word[at]) <= 0x7a)) {
            1
        } else {
            folded_width_at(word, at)
        };
        if width == 0 {
            assert(colour_end(word@, at as int) == at);
            return at == len;
        }
        at += width;
    }
}

/// The bytes of a list of texts.
pub open spec fn bytes_of(pieces: Seq<&str>) -> Seq<Seq<u8>> {
    Seq::new(pieces.len(), |i: int| utf8(pieces[i]@))
}

/// The colour that a text stands for.
pub fn parse_colours(colours: &str) -> (out: String)
    ensures
        utf8(out@) == self::colours(utf8(colours@)),
{
    broadcast use encode_utf8_valid_utf8;

    let body = trim(colours);
    let bytes = body.as_bytes();
    let ghost text = utf8(body@);
    let mut pieces: Vec<&str> = Vec::new();
    let mut simple = true;
    let mut at: usize = 0;
    proof {
        lemma_boundary(text, 0);
        assert(bytes_of(pieces@) =~= Seq::<Seq<u8>>::empty());
    }
    loop
        invariant
            text == utf8(body@),
            bytes@ == text,
            valid_utf8(text),
            at <= text.len(),
            vstd::utf8::is_char_boundary(text, at as int),
            words(text, 0) == bytes_of(pieces@) + words(text, at as int),
            simple == all_colours(bytes_of(pieces@)),
        ensures
            words(text, 0) == bytes_of(pieces@),
        decreases text.len() - at,
    {
        let stop = word_end_from(bytes, at);
        if stop <= at {
            assert(words(text, at as int) =~= Seq::<Seq<u8>>::empty());
            assert(bytes_of(pieces@) + Seq::<Seq<u8>>::empty() =~= bytes_of(pieces@));
            break ;
        }
        proof {
            lemma_word_end(text, at as int);
            lemma_boundary(text, stop as int);
            lemma_skip_spaces(text, stop as int);
            lemma_skip_spaces_boundary(text, stop as int);
        }
        let word = slice(body, at, stop);
        if !is_colour_word(word.as_bytes()) {
            simple = false;
        }
        let ghost before = bytes_of(pieces@);
        pieces.push(word);
        proof {
            assert(bytes_of(pieces@) =~= before.push(utf8(word@)));
            assert(before.push(utf8(word@)) + words(text, skip_spaces(text, stop as int)) =~= before
                + (seq![utf8(word@)] + words(text, skip_spaces(text, stop as int))));
            assert(all_colours(bytes_of(pieces@)) == (all_colours(before) && is_colour(
                utf8(word@),
            ))) by {
                let all = bytes_of(pieces@);
                if all_colours(all) {
                    assert forall|i: int| 0 <= i < before.len() implies is_colour(
                        #[trigger] before[i],
                    ) by {
                        assert(all[i] == before[i]);
                    }
                    assert(all[before.len() as int] == utf8(word@));
                }
            }
        }
        at = skip_spaces_from(bytes, stop);
    }
    if !(simple && pieces.len() > 1) {
        return String::from_str(body);
    }
    let mut out = String::from_str("linear-gradient(to right,");
    push_text(&mut out, pieces[0]);
    let mut i: usize = 1;
    assert(bytes_of(pieces@).take(1) =~= seq![utf8(pieces@[0]@)]);
    while i < pieces.len()
        invariant
            1 <= i <= pieces.len(),
            utf8(out@) == utf8("linear-gradient(to right,"@) + joined(bytes_of(pieces@).take(i as int)),
        decreases pieces.len() - i,
    {
        let ghost held = utf8(out@);
        push_text(&mut out, ",");
        push_text(&mut out, pieces[i]);
        proof {
            let all = bytes_of(pieces@);
            assert(all.take(i + 1).drop_last() =~= all.take(i as int));
            assert(all.take(i + 1).last() == utf8(pieces@[i as int]@));
            assert(utf8(out@) =~= utf8("linear-gradient(to right,"@) + joined(all.take(i + 1)));
        }
        i += 1;
    }
    assert(bytes_of(pieces@).take(pieces.len() as int) =~= bytes_of(pieces@));
    push_text(&mut out, ")");
    out
}

/// A change of a role's colour.
pub enum ColourEdit {
    /// The role loses its colour.
    Remove { role_id: String },
    /// The role takes the colour.
    Paint { role_id: String, colour: String },
}

/// A change over texts.
pub enum EditView {
    Remove { role_id: Seq<char> },
    Paint { role_id: Seq<char>, colour: Seq<u8> },
}

impl View for ColourEdit {
    type V = EditView;

    open spec fn view(&self) -> EditView {
        match *self {
            ColourEdit::Remove { role_id } => EditView::Remove { role_id: role_id@ },
            ColourEdit::Paint { role_id, colour } => EditView::Paint {
                role_id: role_id@,
                colour: utf8(colour@),
            },
        }
    }
}

/// What a colour that is too long is answered with.
pub open spec fn too_long(colour: Seq<u8>) -> ErrorView {
    ErrorView::Custom(decode_utf8(utf8("Colour must be 128 characters or less!\n"@) + colour))
}

/// What a command to colour the role `reference` with `rest` leads to. The
/// reference must stand for a role; the bot and then the person must be
/// allowed to manage roles and must rank above the role; the colour must fit
/// the limit. An empty colour takes the role's colour away.
pub open spec fn colour_request(
    roles: Seq<Role>,
    bot_granted: Permissions,
    person_granted: Permissions,
    bot_rank: int,
    person_rank: int,
    person_is_bot: bool,
    reference: Seq<char>,
    rest: Seq<u8>,
) -> Result<EditView, ErrorView> {
    match resolve(roles, reference) {
        None => Err(ErrorView::InvalidRole(reference)),
        Some(at) => if !bot_granted.manage_role {
            Err(ErrorView::Missing(Permission::ManageRole))
        } else if !person_granted.manage_role {
            Err(missing(person_is_bot, Permission::ManageRole))
        } else {
            match both_refusal(roles, bot_rank, person_rank, person_is_bot, seq![reference]) {
                Some(error) => Err(error),
                None => {
                    let colour = colours(rest);
                    if colour.len() > COLOUR_LIMIT {
                        Err(too_long(colour))
                    } else if colour.len() == 0 {
                        Ok(EditView::Remove { role_id: roles[at].id@ })
                    } else {
                        Ok(EditView::Paint { role_id: roles[at].id@, colour })
                    }
                },
            }
        },
    }
}

/// Whether `out` is what `wanted` describes.
pub open spec fn is_edit(out: Result<ColourEdit, Error>, wanted: Result<EditView, ErrorView>) -> bool {
    match out {
        Ok(edit) => wanted == Ok::<EditView, ErrorView>(edit@),
        Err(error) => wanted == Err::<EditView, ErrorView>(error@),
    }
}

/// What the command of `person` to colour the role `reference` with `rest`
/// leads to.
pub fn colour_command(
    server: &Server,
    bot: &Member,
    bot_granted: &Permissions,
    person: &Member,
    person_granted: &Permissions,
    reference: &str,
    rest: &str,
) -> (out: Result<ColourEdit, Error>)
    ensures
        is_edit(
            out,
            colour_request(
                server.roles@,
                *bot_granted,
                *person_granted,
                lowest_rank(server.roles@, role_set(bot.roles@)),
                lowest_rank(server.roles@, role_set(person.roles@)),
                person.user_id@ == bot.user_id@,
                reference@,
                utf8(rest@),
            ),
        ),
{
    let role = match server.role_by_id_or_name(reference) {
        Some(role) => role,
        None => {
            return Err(Error::InvalidRole(String::from_str(reference)));
        },
    };
    if !bot_granted.has(Permission::ManageRole) {
        return Err(Error::Missing(Permission::ManageRole));
    }
    let my_id = bot.user_id.as_str();
    if !person_granted.has(Permission::ManageRole) {
        return if crate::text::same_text(person.user_id.as_str(), my_id) {
            Err(Error::Missing(Permission::ManageRole))
        } else {
            Err(Error::UserMissing(Permission::ManageRole))
        };
    }
    proof {
        reveal_with_fuel(first_refusal, 2);
        assert(seq![reference@].drop_first().len() == 0);
    }
    match check_above_role(server, bot, my_id, reference) {
        Err(error) => {
            return Err(error);
        },
        Ok(_) => {},
    }
    match check_above_role(server, person, my_id, reference) {
        Err(error) => {
            return Err(error);
        },
        Ok(_) => {},
    }
    let colour = parse_colours(rest);
    let length = colour.as_str().as_bytes().len();
    if length > COLOUR_LIMIT {
        let mut message = String::from_str("Colour must be 128 characters or less!\n");
        push_text(&mut message, colour.as_str());
        proof {
            encode_utf8_decode_utf8(message@);
        }
        return Err(Error::Custom(message));
    }
    if length == 0 {
        Ok(ColourEdit::Remove { role_id: role.id.clone() })
    } else {
        Ok(ColourEdit::Paint { role_id: role.id.clone(), colour })
    }
}

} // verus!
