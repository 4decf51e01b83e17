//! The grammar of a template, over its UTF-8 bytes.
//!
//! A template is trimmed; leading keywords (`exclusive`, `formatted`, in any
//! order and any case, each at most once) are taken off one word at a time;
//! what is left is the content, in which each `{ROLE:<name>}` is a
//! placeholder. The name has 1 to
//! 32 characters, none of them a brace, and `ROLE` may be in any case.

use crate::text::{
    char_count, lemma_boundary, lemma_char_count_grows, lemma_next_boundary, lower, lower_byte,
    same_ignoring_case, slice, spells, utf8, BRACE_CLOSE, BRACE_OPEN, COLON,
};
use vstd::prelude::*;
use vstd::utf8::{
    encode_utf8_valid_utf8, is_char_boundary, length_of_first_scalar, valid_utf8,
};

verus! {

/// Whether the byte is an ASCII white-space character: U+0009 to U+000D, or
/// a space.
pub open spec fn is_ascii_space(byte: u8) -> bool {
    (0x09 <= byte <= 0x0d) || byte == 0x20
}

/// Whether the three bytes encode one of the white-space characters U+1680,
/// U+2000 to U+200A, U+2028, U+2029, U+202F, U+205F, U+3000.
pub open spec fn is_wide_space(first: u8, second: u8, third: u8) -> bool {
    ||| first == 0xe1 && second == 0x9a && third == 0x80
    ||| first == 0xe2 && second == 0x80 && (0x80 <= third <= 0x8a || third == 0xa8 || third == 0xa9
        || third == 0xaf)
    ||| first == 0xe2 && second == 0x81 && third == 0x9f
    ||| first == 0xe3 && second == 0x80 && third == 0x80
}

/// The width in bytes of the white-space character that starts at `at`, 0
/// where none starts there. Besides the ASCII ones and the three-byte ones,
/// U+0085 and U+00A0 are white space.
pub open spec fn space_width(text: Seq<u8>, at: int) -> int {
    if at < 0 || at >= text.len() {
        0
    } else if is_ascii_space(text[at]) {
        1
    } else if at + 1 < text.len() && text[at] == 0xc2 && (text[at + 1] == 0x85 || text[at + 1]
        == 0xa0) {
        2
    } else if at + 2 < text.len() && is_wide_space(text[at], text[at + 1], text[at + 2]) {
        3
    } else {
        0
    }
}

/// The width in bytes of the white-space character that ends at `end`, 0
/// where none ends there.
pub open spec fn space_before(text: Seq<u8>, end: int) -> int {
    if space_width(text, end - 1) == 1 {
        1
    } else if space_width(text, end - 2) == 2 {
        2
    } else if space_width(text, end - 3) == 3 {
        3
    } else {
        0
    }
}

/// The first place from `at` on where no white space starts.
pub open spec fn skip_spaces(text: Seq<u8>, at: int) -> int
    decreases text.len() - at,
{
    if space_width(text, at) > 0 {
        skip_spaces(text, at + space_width(text, at))
    } else {
        at
    }
}

/// The last place up to `end` where no white space ends.
pub open spec fn drop_spaces(text: Seq<u8>, end: int) -> int
    decreases end,
{
    if space_before(text, end) > 0 {
        drop_spaces(text, end - space_before(text, end))
    } else {
        end
    }
}

/// The text without the white space at its two ends.
pub open spec fn trimmed(text: Seq<u8>) -> Seq<u8> {
    let from = skip_spaces(text, 0);
    let to = drop_spaces(text, text.len() as int);
    if from < to {
        text.subrange(from, to)
    } else {
        Seq::empty()
    }
}

/// The end of the word that starts at `at`: the first place from `at` on
/// where white space starts or the text ends.
pub open spec fn word_end(text: Seq<u8>, at: int) -> int
    decreases text.len() - at,
{
    if 0 <= at < text.len() && space_width(text, at) == 0 {
        word_end(text, at + 1)
    } else {
        at
    }
}

/// The keyword that asks for an exclusive message.
pub open spec fn exclusive_word() -> Seq<u8> {
    utf8("exclusive"@)
}

/// The keyword that asks for bindings without role names.
pub open spec fn formatted_word() -> Seq<u8> {
    utf8("formatted"@)
}

/// The marker that the content of an exclusive message starts with.
pub open spec fn exclusive_marker() -> Seq<u8> {
    utf8("[](EXCLUSIVE)"@)
}

/// Where the content starts and which keywords came before it.
pub struct Head {
    pub at: int,
    pub exclusive: bool,
    pub formatted: bool,
}

/// Takes keywords off a trimmed text from `at` on: while the word at `at` is
/// a keyword whose flag is not set yet, the flag is set and the text goes on
/// after the word and the white space behind it. Each keyword is taken once:
/// where it stands again, it is the first word of the content.
pub open spec fn strip_keywords(text: Seq<u8>, at: int, exclusive: bool, formatted: bool) -> Head
    decreases text.len() - at,
    via strip_keywords_decreases
{
    let stop = word_end(text, at);
    let word = text.subrange(at, stop);
    if 0 <= at < stop && !exclusive && same_ignoring_case(word, exclusive_word()) {
        strip_keywords(text, skip_spaces(text, stop), true, formatted)
    } else if 0 <= at < stop && !formatted && same_ignoring_case(word, formatted_word()) {
        strip_keywords(text, skip_spaces(text, stop), exclusive, true)
    } else {
        Head { at, exclusive, formatted }
    }
}

#[via_fn]
proof fn strip_keywords_decreases(text: Seq<u8>, at: int, exclusive: bool, formatted: bool) {
    if 0 <= at <= text.len() {
        lemma_word_end(text, at);
        lemma_skip_spaces(text, word_end(text, at));
    }
}

/// `skip_spaces` moves forward and stays inside the text.
pub proof fn lemma_skip_spaces(text: Seq<u8>, at: int)
    ensures
        at <= skip_spaces(text, at),
        at <= text.len() ==> skip_spaces(text, at) <= text.len(),
        space_width(text, skip_spaces(text, at)) == 0,
    decreases text.len() - at,
{
    if space_width(text, at) > 0 {
        lemma_skip_spaces(text, at + space_width(text, at));
    }
}

/// `word_end` moves forward, stays inside the text, and no white space
/// starts inside the word.
pub proof fn lemma_word_end(text: Seq<u8>, at: int)
    requires
        0 <= at <= text.len(),
    ensures
        at <= word_end(text, at) <= text.len(),
        forall|k: int| at <= k < word_end(text, at) ==> space_width(text, k) == 0,
        word_end(text, at) == text.len() || space_width(text, word_end(text, at)) > 0,
    decreases text.len() - at,
{
    if at < text.len() && space_width(text, at) == 0 {
        lemma_word_end(text, at + 1);
    }
}

/// The content of a template and the keywords it began with.
pub struct Draft {
    pub content: Seq<u8>,
    pub exclusive: bool,
    pub formatted: bool,
}

/// Reads a template: trims it, takes the keywords off, and puts the marker
/// before the content of an exclusive one.
pub open spec fn draft(text: Seq<u8>) -> Draft {
    let body = trimmed(text);
    let head = strip_keywords(body, 0, false, false);
    let rest = body.subrange(head.at, body.len() as int);
    Draft {
        content: if head.exclusive {
            exclusive_marker() + rest
        } else {
            rest
        },
        exclusive: head.exclusive,
        formatted: head.formatted,
    }
}

/// The width in bytes of the white-space character that starts at `at`.
pub fn space_width_at(text: &[u8], at: usize) -> (width: usize)
    ensures
        width == space_width(text@, at as int),
        width <= 3,
        width > 0 ==> at + width <= text@.len(),
{
    let len = text.len();
    if at >= len {
        return 0;
    }
    let first = text[at];
    if (0x09 <= first && first <= 0x0d) || first == 0x20 {
        return 1;
    }
    if len - at >= 2 && first == 0xc2 {
        let second = text[at + 1];
        if second == 0x85 || second == 0xa0 {
            return 2;
        }
    }
    if len - at >= 3 {
        let second = text[at + 1];
        let third = text[at + 2];
        let wide = (first == 0xe1 && second == 0x9a && third == 0x80) || (first == 0xe2 && second
            == 0x80 && ((0x80 <= third && third <= 0x8a) || third == 0xa8 || third == 0xa9 || third
            == 0xaf)) || (first == 0xe2 && second == 0x81 && third == 0x9f) || (first == 0xe3
            && second == 0x80 && third == 0x80);
        if wide {
            return 3;
        }
    }
    0
}

/// The width in bytes of the white-space character that ends at `end`.
pub(crate) fn space_width_before(text: &[u8], end: usize) -> (width: usize)
    requires
        end <= text@.len(),
    ensures
        width == space_before(text@, end as int),
        width <= end,
{
    if end >= 1 && space_width_at(text, end - 1) == 1 {
        1
    } else if end >= 2 && space_width_at(text, end - 2) == 2 {
        2
    } else if end >= 3 && space_width_at(text, end - 3) == 3 {
        3
    } else {
        0
    }
}

/// The first place from `at` on where no white space starts.
pub(crate) fn skip_spaces_from(text: &[u8], at: usize) -> (stop: usize)
    requires
        at <= text@.len(),
    ensures
        stop == skip_spaces(text@, at as int),
        at <= stop <= text@.len(),
{
    let len = text.len();
    let mut i = at;
    loop
        invariant
            len == text@.len(),
            at <= i <= text@.len(),
            skip_spaces(text@, at as int) == skip_spaces(text@, i as int),
        decreases text@.len() - i,
    {
        let width = space_width_at(text, i);
        if width == 0 {
            return i;
        }
        i += width;
    }
}

/// The last place up to `end` where no white space ends.
pub(crate) fn drop_spaces_to(text: &[u8], end: usize) -> (stop: usize)
    requires
        end <= text@.len(),
    ensures
        stop == drop_spaces(text@, end as int),
        stop <= end,
{
    let mut i = end;
    loop
        invariant
            i <= end <= text@.len(),
            drop_spaces(text@, end as int) == drop_spaces(text@, i as int),
        decreases i,
    {
        let width = space_width_before(text, i);
        if width == 0 {
            return i;
        }
        i -= width;
    }
}

/// The end of the word that starts at `at`.
pub(crate) fn word_end_from(text: &[u8], at: usize) -> (stop: usize)
    requires
        at <= text@.len(),
    ensures
        stop == word_end(text@, at as int),
        at <= stop <= text@.len(),
{
    let mut i = at;
    while i < text.len() && space_width_at(text, i) == 0
        invariant
            at <= i <= text@.len(),
            word_end(text@, at as int) == word_end(text@, i as int),
        decreases text@.len() - i,
    {
        i += 1;
    }
    i
}

/// Where the content of a trimmed text starts, and the keywords before it:
/// the place, whether `exclusive` was among them, whether `formatted` was.
pub fn strip_keywords_from(text: &[u8]) -> (head: (usize, bool, bool))
    ensures
        head.0 <= text@.len(),
        strip_keywords(text@, 0, false, false) == (Head {
            at: head.0 as int,
            exclusive: head.1,
            formatted: head.2,
        }),
{
    let mut at: usize = 0;
    let mut exclusive = false;
    let mut formatted = false;
    loop
        invariant
            at <= text@.len(),
            strip_keywords(text@, 0, false, false) == strip_keywords(
                text@,
                at as int,
                exclusive,
                formatted,
            ),
        decreases text@.len() - at,
    {
        let stop = word_end_from(text, at);
        if at < stop && !exclusive && spells(text, at, stop, "exclusive".as_bytes()) {
            exclusive = true;
        } else if at < stop && !formatted && spells(text, at, stop, "formatted".as_bytes()) {
            formatted = true;
        } else {
            return (at, exclusive, formatted);
        }
        at = skip_spaces_from(text, stop);
    }
}

/// White space is skipped from one character boundary to another.
pub proof fn lemma_skip_spaces_boundary(text: Seq<u8>, at: int)
    requires
        valid_utf8(text),
        0 <= at <= text.len(),
        is_char_boundary(text, at),
    ensures
        is_char_boundary(text, skip_spaces(text, at)),
    decreases text.len() - at,
{
    let width = space_width(text, at);
    if width > 0 {
        vstd::utf8::is_char_boundary_iff_not_is_continuation_byte(text, at);
        lemma_next_boundary(text, at);
        assert(length_of_first_scalar(text.subrange(at, text.len() as int)) == width) by {
            assert(text.subrange(at, text.len() as int)[0] == text[at]);
        }
        lemma_skip_spaces_boundary(text, at + width);
    }
}

/// White space is dropped back to a character boundary.
pub proof fn lemma_drop_spaces_boundary(text: Seq<u8>, end: int)
    requires
        valid_utf8(text),
        0 <= end <= text.len(),
        is_char_boundary(text, end),
    ensures
        is_char_boundary(text, drop_spaces(text, end)),
    decreases end,
{
    let width = space_before(text, end);
    if width > 0 {
        lemma_boundary(text, end - width);
        lemma_drop_spaces_boundary(text, end - width);
    }
}

/// A word ends at a character boundary.
pub proof fn lemma_word_end_boundary(text: Seq<u8>, at: int)
    requires
        valid_utf8(text),
        0 <= at <= text.len(),
    ensures
        is_char_boundary(text, word_end(text, at)),
{
    lemma_word_end(text, at);
    lemma_boundary(text, word_end(text, at));
}

/// Keywords are taken off up to a character boundary inside the text.
pub proof fn lemma_strip_keywords_boundary(text: Seq<u8>, at: int, exclusive: bool, formatted: bool)
    requires
        valid_utf8(text),
        0 <= at <= text.len(),
        is_char_boundary(text, at),
    ensures
        0 <= strip_keywords(text, at, exclusive, formatted).at <= text.len(),
        is_char_boundary(text, strip_keywords(text, at, exclusive, formatted).at),
    decreases text.len() - at,
{
    let stop = word_end(text, at);
    lemma_word_end(text, at);
    lemma_word_end_boundary(text, at);
    lemma_skip_spaces(text, stop);
    if at < stop {
        lemma_skip_spaces_boundary(text, stop);
        let next = skip_spaces(text, stop);
        lemma_strip_keywords_boundary(text, next, true, formatted);
        lemma_strip_keywords_boundary(text, next, exclusive, true);
    }
}

/// The text without the white space at its two ends.
pub fn trim(text: &str) -> (body: &str)
    ensures
        utf8(body@) == trimmed(utf8(text@)),
{
    broadcast use encode_utf8_valid_utf8;

    let bytes = text.as_bytes();
    let from = skip_spaces_from(bytes, 0);
    let to = drop_spaces_to(bytes, bytes.len());
    proof {
        let all = utf8(text@);
        lemma_boundary(all, 0);
        lemma_boundary(all, all.len() as int);
        lemma_skip_spaces_boundary(all, 0);
        lemma_drop_spaces_boundary(all, all.len() as int);
    }
    let body = if from < to {
        slice(text, from, to)
    } else {
        slice(text, 0, 0)
    };
    assert(utf8(body@) =~= trimmed(utf8(text@)));
    body
}

/// The longest name that a placeholder can hold, in characters.
pub const NAME_LIMIT: usize = 32;

/// The width of `{ROLE:` in bytes.
pub const OPENING: usize = 6;

/// A place in a text: the bytes from `start` up to `end`.
pub struct Span {
    pub start: int,
    pub end: int,
}

/// Whether `{ROLE:` starts at `at`, its letters in any case.
pub open spec fn opens_placeholder(text: Seq<u8>, at: int) -> bool {
    &&& 0 <= at
    &&& at + OPENING <= text.len()
    &&& text[at] == BRACE_OPEN
    &&& lower(text[at + 1]) == 0x72
    &&& lower(text[at + 2]) == 0x6f
    &&& lower(text[at + 3]) == 0x6c
    &&& lower(text[at + 4]) == 0x65
    &&& text[at + 5] == COLON
}

/// The first place from `at` on where a brace stands or the text ends.
pub open spec fn name_end(text: Seq<u8>, at: int) -> int
    decreases text.len() - at,
{
    if 0 <= at < text.len() && text[at] != BRACE_OPEN && text[at] != BRACE_CLOSE {
        name_end(text, at + 1)
    } else {
        at
    }
}

/// The end of the placeholder that starts at `at`, 0 where none starts
/// there. A placeholder is `{ROLE:`, a name of 1 to 32 characters without a
/// brace, and `}`.
pub open spec fn placeholder_end(text: Seq<u8>, at: int) -> int {
    let stop = name_end(text, at + OPENING);
    if opens_placeholder(text, at) && stop < text.len() && text[stop] == BRACE_CLOSE && 1
        <= char_count(text, at + OPENING, stop) <= NAME_LIMIT {
        stop + 1
    } else {
        0
    }
}

/// The placeholders of a text from `at` on, from left to right: the first
/// one that starts at or after `at`, then those that follow its end.
pub open spec fn placeholders(text: Seq<u8>, at: int) -> Seq<Span>
    decreases text.len() - at,
    via placeholders_decreases
{
    if at < 0 || at >= text.len() {
        Seq::empty()
    } else if placeholder_end(text, at) > 0 {
        seq![Span { start: at, end: placeholder_end(text, at) }] + placeholders(
            text,
            placeholder_end(text, at),
        )
    } else {
        placeholders(text, at + 1)
    }
}

#[via_fn]
proof fn placeholders_decreases(text: Seq<u8>, at: int) {
    if 0 <= at {
        lemma_name_end(text, at + OPENING);
    }
}

/// `name_end` moves forward, and no brace stands before it.
pub proof fn lemma_name_end(text: Seq<u8>, at: int)
    requires
        0 <= at,
    ensures
        at <= name_end(text, at),
        at <= text.len() ==> name_end(text, at) <= text.len(),
        forall|k: int|
            at <= k < name_end(text, at) ==> #[trigger] text[k] != BRACE_OPEN && text[k]
                != BRACE_CLOSE,
    decreases text.len() - at,
{
    if at < text.len() && text[at] != BRACE_OPEN && text[at] != BRACE_CLOSE {
        lemma_name_end(text, at + 1);
    }
}

/// What holds of the placeholders of a text: each lies inside the text, opens
/// with `{` and closes with `}`, is the placeholder that starts at its start,
/// and ends before the next one starts.
pub proof fn lemma_placeholders(text: Seq<u8>, at: int)
    requires
        0 <= at,
    ensures
        forall|i: int|
            0 <= i < placeholders(text, at).len() ==> {
                let span = #[trigger] placeholders(text, at)[i];
                &&& at <= span.start
                &&& span.start + OPENING + 2 <= span.end <= text.len()
                &&& span.end == placeholder_end(text, span.start)
                &&& text[span.start] == BRACE_OPEN
                &&& text[span.start + 5] == COLON
                &&& text[span.end - 1] == BRACE_CLOSE
            },
        forall|i: int, j: int|
            0 <= i < j < placeholders(text, at).len() ==> (#[trigger] placeholders(text, at)[i]).end
                <= (#[trigger] placeholders(text, at)[j]).start,
    decreases text.len() - at,
{
    if at < text.len() {
        let end = placeholder_end(text, at);
        if end > 0 {
            lemma_name_end(text, at + OPENING);
            lemma_placeholders(text, end);
            let first = Span { start: at, end };
            let rest = placeholders(text, end);
            let all = placeholders(text, at);
            assert(all == seq![first] + rest);
            assert(char_count(text, at + OPENING, at + OPENING) == 0);
            assert forall|i: int| 0 <= i < all.len() implies {
                let span = #[trigger] all[i];
                &&& at <= span.start
                &&& span.start + OPENING + 2 <= span.end <= text.len()
                &&& span.end == placeholder_end(text, span.start)
                &&& text[span.start] == BRACE_OPEN
                &&& text[span.start + 5] == COLON
                &&& text[span.end - 1] == BRACE_CLOSE
            } by {
                if i > 0 {
                    assert(all[i] == rest[i - 1]);
                }
            }
            assert forall|i: int, j: int| 0 <= i < j < all.len() implies (#[trigger] all[i]).end <= (
            #[trigger] all[j]).start by {
                assert(all[j] == rest[j - 1]);
                if i > 0 {
                    assert(all[i] == rest[i - 1]);
                }
            }
        } else {
            lemma_placeholders(text, at + 1);
            assert(placeholders(text, at) == placeholders(text, at + 1));
        }
    } else {
        assert(placeholders(text, at).len() == 0);
    }
}

/// The end of the placeholder that starts at `at`, 0 where none starts there.
pub fn placeholder_end_at(text: &[u8], at: usize) -> (end: usize)
    ensures
        end == placeholder_end(text@, at as int),
        end > 0 ==> at + OPENING + 2 <= end <= text@.len(),
{
    let len = text.len();
    if len < OPENING || at > len - OPENING {
        return 0;
    }
    let opens = text[at] == BRACE_OPEN && lower_byte(text[at + 1]) == 0x72 && lower_byte(
        text[at + 2],
    ) == 0x6f && lower_byte(text[at + 3]) == 0x6c && lower_byte(text[at + 4]) == 0x65 && text[at
        + 5] == COLON;
    if !opens {
        return 0;
    }
    let from = at + OPENING;
    let mut stop = from;
    let mut count: usize = 0;
    while stop < len && text[stop] != BRACE_OPEN && text[stop] != BRACE_CLOSE && count <= NAME_LIMIT
        invariant
            len == text@.len(),
            from == at + OPENING,
            from <= stop <= len,
            name_end(text@, from as int) == name_end(text@, stop as int),
            count == char_count(text@, from as int, stop as int),
            count <= NAME_LIMIT + 1,
        decreases len - stop,
    {
        if !(0x80 <= text[stop] && text[stop] <= 0xbf) {
            count += 1;
        }
        stop += 1;
    }
    proof {
        lemma_name_end(text@, stop as int);
        lemma_char_count_grows(text@, from as int, stop as int, name_end(text@, from as int));
    }
    if stop < len && text[stop] == BRACE_CLOSE && 1 <= count && count <= NAME_LIMIT {
        stop + 1
    } else {
        0
    }
}

/// The places of a list of spans given as pairs.
pub open spec fn spans_of(pairs: Seq<(usize, usize)>) -> Seq<Span> {
    Seq::new(pairs.len(), |i: int| Span { start: pairs[i].0 as int, end: pairs[i].1 as int })
}

/// The placeholders of a text, from left to right.
pub fn find_placeholders(text: &[u8]) -> (found: Vec<(usize, usize)>)
    ensures
        spans_of(found@) == placeholders(text@, 0),
{
    let len = text.len();
    let mut found: Vec<(usize, usize)> = Vec::new();
    let mut at: usize = 0;
    while at < len
        invariant
            len == text@.len(),
            at <= len,
            placeholders(text@, 0) == spans_of(found@) + placeholders(text@, at as int),
        decreases len - at,
    {
        let end = placeholder_end_at(text, at);
        if end > 0 {
            proof {
                let span = Span { start: at as int, end: end as int };
                assert(spans_of(found@.push((at, end))) =~= spans_of(found@).push(span));
                assert(spans_of(found@).push(span) + placeholders(text@, end as int) =~= spans_of(
                    found@,
                ) + (seq![span] + placeholders(text@, end as int)));
            }
            found.push((at, end));
            at = end;
        } else {
            at += 1;
        }
    }
    assert(spans_of(found@) + Seq::<Span>::empty() =~= spans_of(found@));
    found
}

} // verus!
