//! Text as UTF-8 bytes.
//!
//! The grammars of this library are stated over the bytes of a text, because
//! the places they name are byte offsets. This file connects those bytes with
//! `str` and `String`: cutting a `str` at offsets, joining pieces, comparing.

use vstd::prelude::*;
use vstd::string::StringSliceAdditionalSpecFns;
use vstd::utf8::*;

verus! {

/// `{`
pub const BRACE_OPEN: u8 = 0x7b;

/// `}`
pub const BRACE_CLOSE: u8 = 0x7d;

/// `:`
pub const COLON: u8 = 0x3a;

/// `[`
pub const BRACKET_OPEN: u8 = 0x5b;

/// `]`
pub const BRACKET_CLOSE: u8 = 0x5d;

/// `(`
pub const PAREN_OPEN: u8 = 0x28;

/// `)`
pub const PAREN_CLOSE: u8 = 0x29;

/// The UTF-8 bytes of a text.
pub open spec fn utf8(text: Seq<char>) -> Seq<u8> {
    encode_utf8(text)
}

/// The texts of a list of strings, in the list's order.
pub open spec fn texts(list: Seq<String>) -> Seq<Seq<char>> {
    Seq::new(list.len(), |i: int| list[i]@)
}

/// The lower-case form of an ASCII letter; any other byte is left alone.
pub open spec fn lower(byte: u8) -> u8 {
    if 0x41 <= byte <= 0x5a {
        (byte + 0x20) as u8
    } else {
        byte
    }
}

/// Whether two byte strings are equal once ASCII letters are lower-cased.
pub open spec fn same_ignoring_case(left: Seq<u8>, right: Seq<u8>) -> bool {
    &&& left.len() == right.len()
    &&& forall|i: int| 0 <= i < left.len() ==> lower(#[trigger] left[i]) == lower(right[i])
}

/// The width in bytes of U+017F (long s) or U+212A (the Kelvin sign) where
/// one of them starts at `at`, else 0. Where the case of letters is ignored
/// beyond ASCII, these two count as `s` and `k`.
pub open spec fn folded_width(text: Seq<u8>, at: int) -> int {
    if 0 <= at && at + 1 < text.len() && text[at] == 0xc5 && text[at + 1] == 0xbf {
        2
    } else if 0 <= at && at + 2 < text.len() && text[at] == 0xe2 && text[at + 1] == 0x84 && text[at
        + 2] == 0xaa {
        3
    } else {
        0
    }
}

/// The number of characters that start in `text` between `from` and `to`:
/// every byte but a continuation byte starts one.
pub open spec fn char_count(text: Seq<u8>, from: int, to: int) -> nat
    decreases to - from,
{
    if from >= to {
        0
    } else if is_continuation_byte(text[to - 1]) {
        char_count(text, from, to - 1)
    } else {
        char_count(text, from, to - 1) + 1
    }
}

/// Extending a range adds the characters that start in the extension.
pub proof fn lemma_char_count_grows(text: Seq<u8>, from: int, to: int, further: int)
    requires
        to <= further,
    ensures
        char_count(text, from, to) <= char_count(text, from, further),
    decreases further - to,
{
    if to < further {
        lemma_char_count_grows(text, from, to, further - 1);
    }
}

/// The bytes of a joined text are the joined bytes.
pub proof fn lemma_utf8_join(left: Seq<char>, right: Seq<char>)
    ensures
        utf8(left + right) == utf8(left) + utf8(right),
    decreases left.len(),
{
    if left.len() == 0 {
        assert(left + right =~= right);
        assert(utf8(left) + utf8(right) =~= utf8(right));
    } else {
        assert((left + right).drop_first() =~= left.drop_first() + right);
        lemma_utf8_join(left.drop_first(), right);
        assert(utf8(left + right) =~= utf8(left) + utf8(right));
    }
}

/// Two texts with the same bytes are the same text.
pub proof fn lemma_utf8_unique(left: Seq<char>, right: Seq<char>)
    requires
        utf8(left) == utf8(right),
    ensures
        left == right,
{
    encode_utf8_decode_utf8(left);
    encode_utf8_decode_utf8(right);
}

/// In valid UTF-8 a character starts at every byte that is not a
/// continuation byte, and at the end.
pub proof fn lemma_boundary(text: Seq<u8>, at: int)
    requires
        valid_utf8(text),
        0 <= at <= text.len(),
        at < text.len() ==> !is_continuation_byte(text[at]),
    ensures
        is_char_boundary(text, at),
{
    if at < text.len() {
        is_char_boundary_iff_not_is_continuation_byte(text, at);
    } else {
        is_char_boundary_start_end_of_seq(text);
    }
}

/// In valid UTF-8 the character that starts at `at` is as wide as its first
/// byte says, and another character, or the end, follows it.
pub proof fn lemma_next_boundary(text: Seq<u8>, at: int)
    requires
        valid_utf8(text),
        0 <= at < text.len(),
        !is_continuation_byte(text[at]),
    ensures
        at + length_of_first_scalar(text.subrange(at, text.len() as int)) <= text.len(),
        is_char_boundary(
            text,
            at + length_of_first_scalar(text.subrange(at, text.len() as int)),
        ),
        forall|k: int|
            at < k < at + length_of_first_scalar(text.subrange(at, text.len() as int))
                ==> is_continuation_byte(#[trigger] text[k]),
{
    lemma_boundary(text, at);
    valid_utf8_split(text, at);
    let tail = text.subrange(at, text.len() as int);
    let width = length_of_first_scalar(tail);
    assert(valid_first_scalar(tail));
    let after = pop_first_scalar(tail);
    assert(valid_utf8(after));
    assert forall|k: int| at < k < at + width implies is_continuation_byte(#[trigger] text[k]) by {
        assert(text[k] == tail[k - at]);
    }
    if at + width < text.len() {
        assert(after.len() > 0);
        assert(valid_first_scalar(after));
        assert(after[0] == text[at + width]);
        is_char_boundary_iff_not_is_continuation_byte(text, at + width);
    } else {
        is_char_boundary_start_end_of_seq(text);
    }
}

/// A text that starts with another text has a character boundary where the
/// other text ends.
pub proof fn lemma_prefix_boundary(text: Seq<u8>, prefix: Seq<u8>)
    requires
        valid_utf8(text),
        valid_utf8(prefix),
        prefix.is_prefix_of(text),
    ensures
        is_char_boundary(text, prefix.len() as int),
    decreases prefix.len(),
{
    if prefix.len() > 0 {
        assert(prefix[0] == text[0]);
        let width = length_of_first_scalar(prefix);
        assert(width == length_of_first_scalar(text));
        assert forall|k: int| 0 <= k < width implies prefix[k] == text[k] by {}
        let shorter = pop_first_scalar(prefix);
        let rest = pop_first_scalar(text);
        assert(shorter.is_prefix_of(rest)) by {
            assert(shorter =~= rest.subrange(0, shorter.len() as int));
        }
        lemma_prefix_boundary(rest, shorter);
    }
}

/// The bytes of `text` from `from` up to `to`, as a `str`.
pub(crate) fn slice(text: &str, from: usize, to: usize) -> (piece: &str)
    requires
        from <= to <= utf8(text@).len(),
        is_char_boundary(utf8(text@), from as int),
        is_char_boundary(utf8(text@), to as int),
    ensures
        utf8(piece@) == utf8(text@).subrange(from as int, to as int),
{
    broadcast use encode_utf8_valid_utf8;

    let (head, _) = text.split_at(to);
    proof {
        let bytes = utf8(text@);
        let front = bytes.subrange(0, to as int);
        assert(head.spec_bytes() == front);
        if from < to {
            is_char_boundary_iff_not_is_continuation_byte(bytes, from as int);
            assert(front[from as int] == bytes[from as int]);
        }
        lemma_boundary(front, from as int);
    }
    let (_, piece) = head.split_at(from);
    assert(utf8(piece@) =~= utf8(text@).subrange(from as int, to as int));
    piece
}

/// Appends `piece` to `out`.
pub fn push_text(out: &mut String, piece: &str)
    ensures
        final(out)@ == old(out)@ + piece@,
        utf8(final(out)@) == utf8(old(out)@) + utf8(piece@),
{
    proof {
        lemma_utf8_join(out@, piece@);
    }
    out.append(piece);
}

/// A copy of a list of texts.
pub fn copy_texts(list: &Vec<String>) -> (out: Vec<String>)
    ensures
        texts(out@) == texts(list@),
{
    let mut out: Vec<String> = Vec::new();
    let mut i: usize = 0;
    while i < list.len()
        invariant
            i <= list.len(),
            out@.len() == i,
            forall|j: int| 0 <= j < i ==> (#[trigger] out@[j])@ == list@[j]@,
        decreases list.len() - i,
    {
        out.push(list[i].clone());
        i += 1;
    }
    assert(texts(out@) =~= texts(list@));
    out
}

/// Whether the two texts are the same.
pub fn same_text(left: &str, right: &str) -> (same: bool)
    ensures
        same == (left@ == right@),
{
    let a = left.as_bytes();
    let b = right.as_bytes();
    if a.len() != b.len() {
        return false;
    }
    let mut i: usize = 0;
    while i < a.len()
        invariant
            i <= a.len(),
            a.len() == b.len(),
            a@ == utf8(left@),
            b@ == utf8(right@),
            forall|j: int| 0 <= j < i ==> a@[j] == b@[j],
        decreases a.len() - i,
    {
        if a[i] != b[i] {
            return false;
        }
        i += 1;
    }
    proof {
        assert(a@ =~= b@);
        lemma_utf8_unique(left@, right@);
    }
    true
}

/// The lower-case form of an ASCII letter; any other byte is left alone.
pub fn lower_byte(byte: u8) -> (out: u8)
    ensures
        out == lower(byte),
{
    if 0x41 <= byte && byte <= 0x5a {
        byte + 0x20
    } else {
        byte
    }
}

/// Whether the bytes of `text` from `from` up to `to` spell `word` once ASCII
/// letters are lower-cased.
pub(crate) fn spells(text: &[u8], from: usize, to: usize, word: &[u8]) -> (same: bool)
    requires
        from <= to <= text@.len(),
    ensures
        same == same_ignoring_case(text@.subrange(from as int, to as int), word@),
{
    if to - from != word.len() {
        return false;
    }
    let ghost part = text@.subrange(from as int, to as int);
    let mut i: usize = 0;
    while i < word.len()
        invariant
            i <= word.len(),
            from <= to <= text@.len(),
            to - from == word.len(),
            part == text@.subrange(from as int, to as int),
            forall|j: int| 0 <= j < i ==> lower(#[trigger] part[j]) == lower(word@[j]),
        decreases word.len() - i,
    {
        if lower_byte(text[from + i]) != lower_byte(word[i]) {
            assert(part[i as int] == text@[from + i]);
            return false;
        }
        assert(part[i as int] == text@[from + i]);
        i += 1;
    }
    true
}

/// Whether `text` starts with `prefix`.
pub fn starts_with(text: &[u8], prefix: &[u8]) -> (yes: bool)
    ensures
        yes == prefix@.is_prefix_of(text@),
{
    if prefix.len() > text.len() {
        return false;
    }
    let mut i: usize = 0;
    while i < prefix.len()
        invariant
            i <= prefix.len() <= text.len(),
            forall|j: int| 0 <= j < i ==> text@[j] == prefix@[j],
        decreases prefix.len() - i,
    {
        if text[i] != prefix[i] {
            assert(text@.subrange(0, prefix@.len() as int)[i as int] != prefix@[i as int]);
            return false;
        }
        i += 1;
    }
    assert(text@.subrange(0, prefix@.len() as int) =~= prefix@);
    true
}

/// The width in bytes of U+017F or U+212A where one of them starts at `at`,
/// else 0.
pub fn folded_width_at(text: &[u8], at: usize) -> (width: usize)
    ensures
        width == folded_width(text@, at as int),
        width > 0 ==> at + width <= text@.len(),
{
    let len = text.len();
    if at >= len {
        return 0;
    }
    if len - at >= 2 && text[at] == 0xc5 && text[at + 1] == 0xbf {
        2
    } else if len - at >= 3 && text[at] == 0xe2 && text[at + 1] == 0x84 && text[at + 2] == 0xaa {
        3
    } else {
        0
    }
}

} // verus!
