//! The two grammars agree: the bindings that a draft writes are the bindings
//! that a finalized message reads, in the order of the placeholders.
//!
//! Nothing here runs. The law holds of a draft whose content has no `:`
//! outside its placeholders, whose keys are keys and whose roles have
//! identifiers of the due form. A content with a `:` of its own can hold a
//! binding of its own, which is read as well, so no more holds in general.
//! An exclusive draft is read back as exclusive; a draft that is not can be
//! read back as exclusive too, where its template begins with the marker.

use crate::draft::{setup_step, truncated, StepView, MESSAGE_LIMIT};
use crate::error::ErrorView;
use crate::guard::{both_refusal, resolve, Role};
use crate::keyed::{bind, distinct_keys, has_key};
use crate::role_message::{
    binding_end, bonds, id_end, id_width, is_key_byte, key_end, key_width, lemma_bonds,
    lemma_id_end, lemma_key_end, links, parsed, roles_of, table, Bond, Pair, RoleView, ID_LENGTH,
};
use crate::setup::{binding, bindings, bound, filled, rendered, replaced, resolvable, SetupView};
use crate::template::{exclusive_marker, lemma_placeholders, Span};
use crate::text::{
    utf8, BRACE_OPEN, BRACKET_CLOSE, BRACKET_OPEN, COLON, PAREN_CLOSE, PAREN_OPEN,
};
use vstd::prelude::*;
use vstd::utf8::{decode_utf8, encode_utf8_decode_utf8, is_ascii_chars_encode_utf8};

verus! {

/// Whether the bytes are a key: one or more key characters and nothing else.
pub open spec fn is_key(key: Seq<u8>) -> bool {
    key.len() > 0 && key_end(key, 0) == key.len()
}

/// Whether the bytes are a role identifier: as many identifier characters as
/// an identifier has, and nothing else.
pub open spec fn is_id(id: Seq<u8>) -> bool {
    id_end(id, 0, ID_LENGTH as nat) == id.len()
}

/// The bytes of the three fixed parts of a binding.
proof fn lemma_fixed_parts()
    ensures
        utf8(":"@) == seq![COLON],
        utf8(":[]("@) == seq![COLON, BRACKET_OPEN, BRACKET_CLOSE, PAREN_OPEN],
        utf8(")"@) == seq![PAREN_CLOSE],
        exclusive_marker().len() > 0,
        exclusive_marker()[0] == BRACKET_OPEN,
{
    reveal_strlit(":");
    reveal_strlit(":[](");
    reveal_strlit(")");
    reveal_strlit("[](EXCLUSIVE)");
    is_ascii_chars_encode_utf8(":"@);
    is_ascii_chars_encode_utf8(":[]("@);
    is_ascii_chars_encode_utf8(")"@);
    is_ascii_chars_encode_utf8("[](EXCLUSIVE)"@);
    assert(utf8(":"@) =~= seq![COLON]);
    assert(utf8(":[]("@) =~= seq![COLON, BRACKET_OPEN, BRACKET_CLOSE, PAREN_OPEN]);
    assert(utf8(")"@) =~= seq![PAREN_CLOSE]);
}

/// A run of key characters that fills `part` is the same run where `part`
/// stands in a text before a byte of ASCII that is no key character.
proof fn lemma_key_embedded(text: Seq<u8>, part: Seq<u8>, offset: int, at: int)
    requires
        0 <= offset,
        0 <= at <= part.len(),
        offset + part.len() < text.len(),
        text.subrange(offset, offset + part.len()) == part,
        text[offset + part.len()] < 0x80,
        !is_key_byte(text[offset + part.len()]),
        key_end(part, at) == part.len(),
    ensures
        key_end(text, offset + at) == offset + part.len(),
    decreases part.len() - at,
{
    assert forall|k: int| 0 <= k < part.len() implies text[offset + k] == #[trigger] part[k] by {
        assert(text.subrange(offset, offset + part.len())[k] == text[offset + k]);
    }
    if at < part.len() {
        let width = key_width(part, at);
        assert(width > 0);
        assert(key_width(text, offset + at) == width);
        lemma_key_embedded(text, part, offset, at + width);
    } else {
        assert(key_width(text, offset + at) == 0);
    }
}

/// A run of identifier characters that fills `part` is the same run where
/// `part` stands in a text before a byte of ASCII.
proof fn lemma_id_embedded(text: Seq<u8>, part: Seq<u8>, offset: int, at: int, count: nat)
    requires
        0 <= offset,
        0 <= at <= part.len(),
        offset + part.len() < text.len(),
        text.subrange(offset, offset + part.len()) == part,
        text[offset + part.len()] < 0x80,
        id_end(part, at, count) == part.len(),
    ensures
        id_end(text, offset + at, count) == offset + part.len(),
    decreases count,
{
    assert forall|k: int| 0 <= k < part.len() implies text[offset + k] == #[trigger] part[k] by {
        assert(text.subrange(offset, offset + part.len())[k] == text[offset + k]);
    }
    if count > 0 {
        let width = id_width(part, at);
        assert(width > 0);
        assert(at + width <= part.len());
        assert(id_width(text, offset + at) == width);
        lemma_id_embedded(text, part, offset, at + width, (count - 1) as nat);
    }
}

/// The place of a binding that opens a text: its key ends behind the key's
/// bytes, and the binding ends behind `:[](`, the identifier and `)`.
pub open spec fn opening_bond(key: Seq<u8>, id: Seq<u8>) -> Bond {
    Bond { at: 0, key_end: key.len() as int + 1, end: key.len() as int + id.len() as int + 6 }
}

/// A binding that a draft writes for a key and a role, whether with the
/// role's name or without, and with any text behind it, is read back first,
/// at the place where it was written and with the same key and role, and the
/// reading goes on behind it.
pub proof fn lemma_binding_reads_back(key: Seq<char>, role: Role, formatted: bool, rest: Seq<u8>)
    requires
        is_key(utf8(key)),
        is_id(utf8(role.id@)),
    ensures
        ({
            let text = binding(key, role, formatted) + rest;
            let bond = opening_bond(utf8(key), utf8(role.id@));
            &&& bonds(text, 0) == seq![bond] + bonds(text, bond.end)
            &&& bond.key(text) == key
            &&& bond.role(text) == role.id@
        }),
{
    lemma_fixed_parts();
    let k = utf8(key);
    let id = utf8(role.id@);
    let bare = seq![COLON] + k + seq![COLON, BRACKET_OPEN, BRACKET_CLOSE, PAREN_OPEN] + id
        + seq![PAREN_CLOSE];
    let text = binding(key, role, formatted) + rest;
    let bond = opening_bond(k, id);
    let behind = text.subrange(bond.end, text.len() as int);
    assert(text =~= bare + behind);
    assert(text[0] == COLON);
    assert(text.subrange(1, bond.key_end) =~= k);
    assert(text[bond.key_end] == COLON);
    lemma_key_embedded(text, k, 1, 0);
    assert(links(text, bond.key_end));
    assert(text.subrange(bond.key_end + 4, bond.key_end + 4 + id.len()) =~= id);
    assert(text[bond.key_end + 4 + id.len()] == PAREN_CLOSE);
    lemma_id_embedded(text, id, bond.key_end + 4, 0, ID_LENGTH as nat);
    assert(binding_end(text, 0) == bond.end);
    encode_utf8_decode_utf8(key);
    encode_utf8_decode_utf8(role.id@);
}

/// A text that is one formatted binding is read as that binding alone, and
/// not as exclusive.
pub proof fn lemma_single_binding(key: Seq<char>, role: Role)
    requires
        is_key(utf8(key)),
        is_id(utf8(role.id@)),
    ensures
        parsed(binding(key, role, true)) == Some(
            RoleView { exclusive: false, roles: seq![(key, role.id@)] },
        ),
{
    lemma_fixed_parts();
    let text = binding(key, role, true);
    let bond = opening_bond(utf8(key), utf8(role.id@));
    lemma_binding_reads_back(key, role, true, Seq::empty());
    assert(text + Seq::<u8>::empty() =~= text);
    assert(bond.end == text.len());
    assert(bonds(text, bond.end) =~= Seq::<Bond>::empty());
    let found = bonds(text, 0);
    assert(found =~= seq![bond]);
    reveal_with_fuel(table, 2);
    let none = Seq::<Pair>::empty();
    assert(table(text, found, 0) == none);
    assert(!has_key(none, key));
    assert(table(text, found, 1) =~= seq![(key, role.id@)]);
    assert(text[0] == COLON);
    assert(!exclusive_marker().is_prefix_of(text)) by {
        if exclusive_marker().is_prefix_of(text) {
            assert(text.subrange(0, exclusive_marker().len() as int)[0] == text[0]);
        }
    }
}

/// The bindings of a text from `at` on, each as its key and its role, from
/// left to right.
pub open spec fn pairs_read(text: Seq<u8>, at: int) -> Seq<Pair> {
    Seq::new(
        bonds(text, at).len(),
        |i: int| (bonds(text, at)[i].key(text), bonds(text, at)[i].role(text)),
    )
}

/// Whether no `:` stands in the text.
pub open spec fn no_colon(text: Seq<u8>) -> bool {
    forall|i: int| 0 <= i < text.len() ==> #[trigger] text[i] != COLON
}

/// The bonds moved `by` bytes to the right.
pub open spec fn moved(found: Seq<Bond>, by: int) -> Seq<Bond> {
    Seq::new(
        found.len(),
        |i: int| Bond { at: found[i].at + by, key_end: found[i].key_end + by, end: found[i].end + by },
    )
}

/// A run of key characters reads the same behind any text.
proof fn lemma_key_end_moved(before: Seq<u8>, text: Seq<u8>, at: int)
    requires
        0 <= at,
    ensures
        key_end(before + text, before.len() + at) == before.len() + key_end(text, at),
    decreases text.len() - at,
{
    let whole = before + text;
    let by = before.len() as int;
    assert forall|k: int| 0 <= k < text.len() implies whole[by + k] == #[trigger] text[k] by {}
    assert(key_width(whole, by + at) == key_width(text, at));
    if key_width(text, at) > 0 {
        lemma_key_end_moved(before, text, at + key_width(text, at));
    }
}

/// A run of identifier characters reads the same behind any text.
proof fn lemma_id_end_moved(before: Seq<u8>, text: Seq<u8>, at: int, count: nat)
    requires
        0 <= at,
    ensures
        id_end(before + text, before.len() + at, count) == (if id_end(text, at, count) == -1 {
            -1
        } else {
            before.len() + id_end(text, at, count)
        }),
        id_end(text, at, count) == -1 || id_end(text, at, count) >= at + count,
    decreases count,
{
    let whole = before + text;
    let by = before.len() as int;
    assert forall|k: int| 0 <= k < text.len() implies whole[by + k] == #[trigger] text[k] by {}
    assert(id_width(whole, by + at) == id_width(text, at));
    if count > 0 && id_width(text, at) > 0 {
        lemma_id_end_moved(before, text, at + id_width(text, at), (count - 1) as nat);
    }
}

/// A binding reads the same behind any text.
proof fn lemma_binding_end_moved(before: Seq<u8>, text: Seq<u8>, at: int)
    requires
        0 <= at,
    ensures
        binding_end(before + text, before.len() + at) == (if binding_end(text, at) > 0 {
            before.len() + binding_end(text, at)
        } else {
            0
        }),
        key_end(before + text, before.len() + at + 1) == before.len() + key_end(text, at + 1),
        binding_end(text, at) > 0 ==> at < binding_end(text, at) <= text.len(),
{
    let whole = before + text;
    let by = before.len() as int;
    assert forall|k: int| 0 <= k < text.len() implies whole[by + k] == #[trigger] text[k] by {}
    lemma_key_end_moved(before, text, at + 1);
    let key_stop = key_end(text, at + 1);
    lemma_key_end(text, at + 1);
    lemma_id_end_moved(before, text, key_stop + 4, ID_LENGTH as nat);
    lemma_id_end(text, key_stop + 4, ID_LENGTH as nat);
    assert(links(whole, by + key_stop) == links(text, key_stop));
}

/// The bindings of a text read the same behind any text, further to the
/// right by the length of what stands before.
proof fn lemma_bonds_moved(before: Seq<u8>, text: Seq<u8>, at: int)
    requires
        0 <= at,
    ensures
        bonds(before + text, before.len() + at) == moved(bonds(text, at), before.len() as int),
        pairs_read(before + text, before.len() + at) == pairs_read(text, at),
    decreases text.len() - at,
{
    let whole = before + text;
    let by = before.len() as int;
    lemma_binding_end_moved(before, text, at);
    if at < text.len() {
        let end = binding_end(text, at);
        if end > 0 {
            lemma_bonds_moved(before, text, end);
            let first = Bond { at, key_end: key_end(text, at + 1), end };
            assert(bonds(text, at) == seq![first] + bonds(text, end));
            assert(bonds(whole, by + at) =~= moved(bonds(text, at), by));
        } else {
            lemma_bonds_moved(before, text, at + 1);
            assert(bonds(text, at) == bonds(text, at + 1));
            assert(bonds(whole, by + at) == bonds(whole, by + at + 1));
        }
    } else {
        assert(bonds(text, at) =~= Seq::<Bond>::empty());
        assert(bonds(whole, by + at) =~= Seq::<Bond>::empty());
        assert(bonds(whole, by + at) =~= moved(bonds(text, at), by));
    }
    lemma_bonds(text, at);
    assert forall|i: int| 0 <= i < bonds(text, at).len() implies (#[trigger] pairs_read(
        whole,
        by + at,
    )[i]) == pairs_read(text, at)[i] by {
        let bond = bonds(text, at)[i];
        let there = bonds(whole, by + at)[i];
        assert(there == Bond { at: bond.at + by, key_end: bond.key_end + by, end: bond.end + by });
        assert(whole.subrange(there.at + 1, there.key_end) =~= text.subrange(
            bond.at + 1,
            bond.key_end,
        ));
        assert(whole.subrange(there.id_start(), there.end - 1) =~= text.subrange(
            bond.id_start(),
            bond.end - 1,
        ));
    }
    assert(pairs_read(whole, by + at) =~= pairs_read(text, at));
}

/// No binding starts in a text without `:`: what stands behind such a text
/// is read as if it stood alone.
proof fn lemma_skips_plain(before: Seq<u8>, text: Seq<u8>, at: int)
    requires
        no_colon(before),
        0 <= at <= before.len(),
    ensures
        bonds(before + text, at) == bonds(before + text, before.len() as int),
        at == 0 ==> pairs_read(before + text, 0) == pairs_read(text, 0),
    decreases before.len() - at,
{
    let whole = before + text;
    if at < before.len() {
        assert(whole[at] == before[at]);
        assert(binding_end(whole, at) == 0);
        lemma_skips_plain(before, text, at + 1);
        assert(bonds(whole, at) == bonds(whole, at + 1));
    }
    if at == 0 {
        lemma_bonds_moved(before, text, 0);
        assert(pairs_read(whole, 0) =~= pairs_read(whole, before.len() as int));
    }
}

/// Whether a binding for `key` and `role` can be read back: the key is a
/// key, the role's identifier is an identifier, and the role's name, where
/// it is written, holds no `:`.
pub open spec fn readable(key: Seq<char>, role: Role, formatted: bool) -> bool {
    &&& is_key(utf8(key))
    &&& is_id(utf8(role.id@))
    &&& formatted || no_colon(utf8(role.name@))
}

/// What a binding writes behind the identifier: nothing where the draft is
/// formatted, else the role's name between underscores.
pub open spec fn name_part(role: Role, formatted: bool) -> Seq<u8> {
    if formatted {
        Seq::empty()
    } else {
        utf8(" __"@) + utf8(role.name@) + utf8("__"@)
    }
}

/// A binding is its bare form and the name part, and the name part holds no
/// `:` where the name holds none.
proof fn lemma_name_part(key: Seq<char>, role: Role, formatted: bool)
    requires
        formatted || no_colon(utf8(role.name@)),
    ensures
        binding(key, role, formatted) == binding(key, role, true) + name_part(role, formatted),
        no_colon(name_part(role, formatted)),
        binding(key, role, true).len() == utf8(key).len() + utf8(role.id@).len() + 6,
{
    lemma_fixed_parts();
    reveal_strlit(" __");
    reveal_strlit("__");
    is_ascii_chars_encode_utf8(" __"@);
    is_ascii_chars_encode_utf8("__"@);
    assert(binding(key, role, formatted) =~= binding(key, role, true) + name_part(
        role,
        formatted,
    ));
    let before = utf8(" __"@);
    let name = utf8(role.name@);
    let after = utf8("__"@);
    if !formatted {
        assert forall|i: int| 0 <= i < name_part(role, formatted).len() implies #[trigger] name_part(
            role,
            formatted,
        )[i] != COLON by {
            let part = before + name + after;
            if i < before.len() {
                assert(part[i] == before[i]);
            } else if i < before.len() + name.len() {
                assert(part[i] == name[i - before.len()]);
            } else {
                assert(part[i] == after[i - before.len() - name.len()]);
            }
        }
    }
}

/// A text that opens with a bond is read as the bond's pair, then as the
/// pairs from the bond's end on.
proof fn lemma_pairs_unfold(text: Seq<u8>, bond: Bond)
    requires
        bonds(text, 0) == seq![bond] + bonds(text, bond.end),
    ensures
        pairs_read(text, 0) == seq![(bond.key(text), bond.role(text))] + pairs_read(text, bond.end),
{
    let all = bonds(text, 0);
    let tail = bonds(text, bond.end);
    assert forall|i: int| 0 <= i < all.len() implies #[trigger] pairs_read(text, 0)[i] == (seq![
        (bond.key(text), bond.role(text)),
    ] + pairs_read(text, bond.end))[i] by {
        if i > 0 {
            assert(all[i] == tail[i - 1]);
        }
    }
    assert(pairs_read(text, 0) =~= seq![(bond.key(text), bond.role(text))] + pairs_read(
        text,
        bond.end,
    ));
}

/// A bare binding, with any text behind it, is read as its key and role,
/// followed by what the text behind it is read as.
proof fn lemma_bare_then(key: Seq<char>, role: Role, rest: Seq<u8>)
    requires
        is_key(utf8(key)),
        is_id(utf8(role.id@)),
    ensures
        pairs_read(binding(key, role, true) + rest, 0) == seq![(key, role.id@)] + pairs_read(
            rest,
            0,
        ),
{
    let bare = binding(key, role, true);
    let text = bare + rest;
    let bond = opening_bond(utf8(key), utf8(role.id@));
    lemma_binding_reads_back(key, role, true, rest);
    lemma_name_part(key, role, true);
    assert(bond.end == bare.len());
    lemma_pairs_unfold(text, bond);
    lemma_bonds_moved(bare, rest, 0);
}

/// A binding that a draft writes, with any text behind it, is read as its
/// key and role, followed by what the text behind it is read as.
pub proof fn lemma_binding_then(key: Seq<char>, role: Role, formatted: bool, rest: Seq<u8>)
    requires
        readable(key, role, formatted),
    ensures
        pairs_read(binding(key, role, formatted) + rest, 0) == seq![(key, role.id@)] + pairs_read(
            rest,
            0,
        ),
{
    let bare = binding(key, role, true);
    let name = name_part(role, formatted);
    lemma_name_part(key, role, formatted);
    lemma_bare_then(key, role, name + rest);
    lemma_skips_plain(name, rest, 0);
    assert(binding(key, role, formatted) + rest =~= bare + (name + rest));
}

/// Where the text before the placeholder `at` starts: at the end of the
/// placeholder before it.
pub open spec fn gap_start(spans: Seq<Span>, at: int) -> int {
    if at <= 0 {
        0
    } else {
        spans[at - 1].end
    }
}

/// The text between the placeholder before `at` and the placeholder `at`;
/// behind the last placeholder, the text up to the end.
pub open spec fn gap(content: Seq<u8>, spans: Seq<Span>, at: int) -> Seq<u8> {
    content.subrange(
        gap_start(spans, at),
        if at < spans.len() {
            spans[at].start
        } else {
            content.len() as int
        },
    )
}

/// The rendered content from the text before the placeholder `from` on: that
/// text, the binding, and what follows.
pub open spec fn written(
    content: Seq<u8>,
    spans: Seq<Span>,
    bindings: Seq<Seq<u8>>,
    from: int,
) -> Seq<u8>
    decreases spans.len() - from,
{
    if from >= spans.len() {
        gap(content, spans, from)
    } else {
        gap(content, spans, from) + bindings[from] + written(content, spans, bindings, from + 1)
    }
}

/// A content whose placeholders are all replaced is what stands before the
/// placeholder `at`, replaced, and what is written from there on.
proof fn lemma_replaced_is_written(
    content: Seq<u8>,
    spans: Seq<Span>,
    bindings: Seq<Seq<u8>>,
    at: int,
)
    requires
        0 <= at <= spans.len(),
    ensures
        replaced(content, spans, bindings, spans.len() as int) == filled(
            content,
            spans,
            bindings,
            at,
        ) + written(content, spans, bindings, at),
    decreases spans.len() - at,
{
    let count = spans.len() as int;
    if at == count {
        assert(written(content, spans, bindings, at) == gap(content, spans, at));
    } else {
        lemma_replaced_is_written(content, spans, bindings, at + 1);
        let before = filled(content, spans, bindings, at);
        let here = gap(content, spans, at);
        let after = written(content, spans, bindings, at + 1);
        assert(filled(content, spans, bindings, at + 1) == before + here + bindings[at]);
        assert((before + here + bindings[at]) + after =~= before + (here + bindings[at] + after));
    }
}

/// What is written from the placeholder `from` on is read as the pairs of
/// the bindings written, where the text between them holds no `:`.
proof fn lemma_written_reads(
    content: Seq<u8>,
    spans: Seq<Span>,
    bindings: Seq<Seq<u8>>,
    wanted: Seq<(Seq<char>, Role)>,
    formatted: bool,
    from: int,
)
    requires
        0 <= from <= spans.len(),
        bindings.len() == spans.len(),
        wanted.len() == spans.len(),
        forall|at: int| from <= at <= spans.len() ==> no_colon(#[trigger] gap(content, spans, at)),
        forall|at: int|
            from <= at < spans.len() ==> readable((#[trigger] wanted[at]).0, wanted[at].1, formatted)
                && bindings[at] == binding(wanted[at].0, wanted[at].1, formatted),
    ensures
        pairs_read(written(content, spans, bindings, from), 0) == Seq::new(
            (spans.len() - from) as nat,
            |i: int| (wanted[from + i].0, wanted[from + i].1.id@),
        ),
    decreases spans.len() - from,
{
    let text = written(content, spans, bindings, from);
    let here = gap(content, spans, from);
    assert(no_colon(here));
    if from >= spans.len() {
        lemma_skips_plain(here, Seq::empty(), 0);
        assert(here + Seq::<u8>::empty() =~= here);
        assert(bonds(Seq::<u8>::empty(), 0) =~= Seq::<Bond>::empty());
        assert(pairs_read(text, 0) =~= Seq::<Pair>::empty());
    } else {
        let after = written(content, spans, bindings, from + 1);
        lemma_written_reads(content, spans, bindings, wanted, formatted, from + 1);
        assert(readable(wanted[from].0, wanted[from].1, formatted));
        lemma_binding_then(wanted[from].0, wanted[from].1, formatted, after);
        assert(text =~= here + (bindings[from] + after));
        lemma_skips_plain(here, bindings[from] + after, 0);
        assert(pairs_read(text, 0) =~= Seq::new(
            (spans.len() - from) as nat,
            |i: int| (wanted[from + i].0, wanted[from + i].1.id@),
        ));
    }
}

/// The pairs bound one after another: where a key comes again, its later
/// role replaces the earlier one, at the key's first place.
pub open spec fn bound_in_turn(pairs: Seq<Pair>) -> Seq<Pair>
    decreases pairs.len(),
{
    if pairs.len() == 0 {
        Seq::empty()
    } else {
        bind(bound_in_turn(pairs.drop_last()), pairs.last().0, pairs.last().1)
    }
}

/// The mapping of a text is made of the pairs read from it, bound one after
/// another.
pub proof fn lemma_table_reads(text: Seq<u8>, count: nat)
    requires
        count <= bonds(text, 0).len(),
    ensures
        table(text, bonds(text, 0), count) == bound_in_turn(pairs_read(text, 0).take(count as int)),
    decreases count,
{
    let pairs = pairs_read(text, 0);
    if count > 0 {
        lemma_table_reads(text, (count - 1) as nat);
        assert(pairs.take(count as int).drop_last() =~= pairs.take(count - 1));
        assert(pairs.take(count as int).last() == pairs[count - 1]);
    } else {
        assert(pairs.take(0) =~= Seq::<Pair>::empty());
    }
}

/// The role that the placeholder `at` of a draft stands for.
pub open spec fn role_at(draft: SetupView, roles: Seq<Role>, at: int) -> Role {
    roles[resolve(roles, draft.reference(at)).unwrap()]
}

/// The pairs that a draft binds when each placeholder has its key: for each
/// placeholder, from left to right, its key and the identifier of its role.
pub open spec fn pairs_bound(draft: SetupView, roles: Seq<Role>, keys: Seq<Seq<char>>) -> Seq<Pair> {
    Seq::new(draft.spans().len(), |at: int| (keys[at], role_at(draft, roles, at).id@))
}

/// Whether a draft with these keys can be read back: no `:` stands in its
/// content outside the placeholders, and each binding is readable.
pub open spec fn reads_back(draft: SetupView, roles: Seq<Role>, keys: Seq<Seq<char>>) -> bool {
    &&& forall|at: int|
        0 <= at <= draft.spans().len() ==> no_colon(#[trigger] gap(draft.content, draft.spans(), at))
    &&& forall|at: int|
        0 <= at < draft.spans().len() ==> readable(
            #[trigger] keys[at],
            role_at(draft, roles, at),
            draft.formatted,
        )
}

/// A draft in which every placeholder has its key is rendered to a text that
/// reads back as exactly the bindings written, in the order of the
/// placeholders.
pub proof fn lemma_rendered_reads_back(draft: SetupView, roles: Seq<Role>, keys: Seq<Seq<char>>)
    requires
        draft.spans().len() > 0,
        keys.len() == draft.spans().len(),
        resolvable(draft, roles, draft.spans().len() as int),
        reads_back(draft, roles, keys),
    ensures
        rendered(draft, roles, keys) is Some,
        pairs_read(rendered(draft, roles, keys).unwrap(), 0) == pairs_bound(draft, roles, keys),
        parsed(rendered(draft, roles, keys).unwrap()) == Some(
            RoleView {
                exclusive: exclusive_marker().is_prefix_of(rendered(draft, roles, keys).unwrap()),
                roles: bound_in_turn(pairs_bound(draft, roles, keys)),
            },
        ),
{
    let spans = draft.spans();
    let count = spans.len() as int;
    let written_bindings = bindings(draft, roles, keys);
    let text = rendered(draft, roles, keys).unwrap();
    let wanted = Seq::new(spans.len(), |at: int| (keys[at], role_at(draft, roles, at)));
    assert(text == replaced(draft.content, spans, written_bindings, count));
    lemma_replaced_is_written(draft.content, spans, written_bindings, 0);
    assert(text =~= written(draft.content, spans, written_bindings, 0));
    assert forall|at: int| 0 <= at < spans.len() implies readable(
        (#[trigger] wanted[at]).0,
        wanted[at].1,
        draft.formatted,
    ) && written_bindings[at] == binding(wanted[at].0, wanted[at].1, draft.formatted) by {
        assert(readable(keys[at], role_at(draft, roles, at), draft.formatted));
    }
    lemma_written_reads(draft.content, spans, written_bindings, wanted, draft.formatted, 0);
    assert(pairs_read(text, 0) =~= pairs_bound(draft, roles, keys));
    lemma_table_reads(text, bonds(text, 0).len());
    assert(pairs_read(text, 0).take(bonds(text, 0).len() as int) =~= pairs_read(text, 0));
}

/// Pairs with distinct keys, bound one after another, are the pairs as they
/// stand.
pub proof fn lemma_bound_in_turn_distinct(pairs: Seq<Pair>)
    requires
        distinct_keys(pairs),
    ensures
        bound_in_turn(pairs) == pairs,
    decreases pairs.len(),
{
    if pairs.len() > 0 {
        let front = pairs.drop_last();
        assert forall|i: int, j: int| 0 <= i < j < front.len() implies (#[trigger] front[i]).0 != (
        #[trigger] front[j]).0 by {
            assert(pairs[i].0 != pairs[j].0);
        }
        lemma_bound_in_turn_distinct(front);
        if has_key(front, pairs.last().0) {
            let i = choose|i: int| 0 <= i < front.len() && (#[trigger] front[i]).0 == pairs.last().0;
            assert(pairs[i].0 != pairs[pairs.len() - 1].0);
        }
        assert(front.push(pairs.last()) =~= pairs);
    } else {
        assert(bound_in_turn(pairs) =~= pairs);
    }
}

/// A draft whose author has set the checkmark and bound an emoji to every
/// placeholder is finalized with the text rendered, the emoji chosen, and
/// the bindings written: for each placeholder, from left to right, its key
/// and its role. This holds where the draft can be read back, the text fits
/// the limit, and the guard refuses none of the roles.
pub proof fn lemma_complete_draft_finalizes(
    draft: SetupView,
    roles: Seq<Role>,
    bot_rank: int,
    author_rank: int,
    author_is_bot: bool,
    emojis: Seq<Seq<char>>,
    keys: Seq<Seq<char>>,
)
    requires
        draft.spans().len() > 0,
        keys.len() == draft.spans().len(),
        emojis.len() == draft.spans().len(),
        resolvable(draft, roles, draft.spans().len() as int),
        reads_back(draft, roles, keys),
        decode_utf8(rendered(draft, roles, keys).unwrap()).len() <= MESSAGE_LIMIT,
        both_refusal(
            roles,
            bot_rank,
            author_rank,
            author_is_bot,
            roles_of(bound_in_turn(pairs_bound(draft, roles, keys))),
        ) is None,
    ensures
        setup_step(draft, roles, bot_rank, author_rank, author_is_bot, emojis, keys, true) == Ok::<
            StepView,
            ErrorView,
        >(
            StepView::Finalize {
                content: rendered(draft, roles, keys).unwrap(),
                emojis,
                roles: RoleView {
                    exclusive: exclusive_marker().is_prefix_of(rendered(draft, roles, keys).unwrap()),
                    roles: bound_in_turn(pairs_bound(draft, roles, keys)),
                },
            },
        ),
{
    let text = rendered(draft, roles, keys).unwrap();
    lemma_rendered_reads_back(draft, roles, keys);
    assert(truncated(text, MESSAGE_LIMIT as int) =~= text);
}

/// No placeholder starts inside the marker: none of its bytes is a `{`.
proof fn lemma_marker_plain()
    ensures
        forall|i: int|
            0 <= i < exclusive_marker().len() ==> #[trigger] exclusive_marker()[i] != BRACE_OPEN,
{
    reveal_strlit("[](EXCLUSIVE)");
    is_ascii_chars_encode_utf8("[](EXCLUSIVE)"@);
    assert(exclusive_marker() =~= seq![
        0x5bu8,
        0x5du8,
        0x28u8,
        0x45u8,
        0x58u8,
        0x43u8,
        0x4cu8,
        0x55u8,
        0x53u8,
        0x49u8,
        0x56u8,
        0x45u8,
        0x29u8,
    ]);
}

/// A content with placeholders replaced begins as the content does, up to
/// its first placeholder.
proof fn lemma_filled_keeps_start(
    content: Seq<u8>,
    spans: Seq<Span>,
    bindings: Seq<Seq<u8>>,
    count: int,
)
    requires
        1 <= count,
        0 <= spans[0].start <= content.len(),
    ensures
        content.subrange(0, spans[0].start).is_prefix_of(filled(content, spans, bindings, count)),
    decreases count,
{
    let start = content.subrange(0, spans[0].start);
    let whole = filled(content, spans, bindings, count);
    if count == 1 {
        assert(filled(content, spans, bindings, 0) =~= Seq::<u8>::empty());
        assert(whole =~= start + bindings[0]);
    } else {
        lemma_filled_keeps_start(content, spans, bindings, count - 1);
    }
    assert(start =~= whole.subrange(0, start.len() as int));
}

/// An exclusive draft is read back as exclusive: what is rendered of a draft
/// that was read from a template with the keyword begins with the marker,
/// however many of its placeholders have their emoji. The other way round
/// it does not hold: a template without the keyword can begin with the
/// marker itself, and is then read back as exclusive too.
pub proof fn lemma_exclusive_reads_back(
    author: Seq<char>,
    template: Seq<u8>,
    draft: SetupView,
    roles: Seq<Role>,
    keys: Seq<Seq<char>>,
)
    requires
        crate::setup::parsed(author, template) == Some(draft),
        draft.exclusive,
        rendered(draft, roles, keys) is Some,
    ensures
        exclusive_marker().is_prefix_of(rendered(draft, roles, keys).unwrap()),
        parsed(rendered(draft, roles, keys).unwrap()) matches Some(message) ==> message.exclusive,
{
    let marker = exclusive_marker();
    let content = draft.content;
    let spans = draft.spans();
    let text = rendered(draft, roles, keys).unwrap();
    let count = bound(draft, keys);
    let written_bindings = bindings(draft, roles, keys);
    assert(marker =~= content.subrange(0, marker.len() as int));
    lemma_placeholders(content, 0);
    lemma_marker_plain();
    let first = spans[0];
    assert(content[first.start] == BRACE_OPEN);
    if first.start < marker.len() {
        assert(content.subrange(0, marker.len() as int)[first.start] == content[first.start]);
    }
    let start = content.subrange(0, first.start);
    assert(marker =~= start.subrange(0, marker.len() as int));
    if count >= 1 {
        lemma_filled_keeps_start(content, spans, written_bindings, count);
        let whole = filled(content, spans, written_bindings, count);
        assert(start =~= whole.subrange(0, start.len() as int));
        assert(marker =~= text.subrange(0, marker.len() as int));
    } else {
        assert(filled(content, spans, written_bindings, count) =~= Seq::<u8>::empty());
        assert(text =~= content);
    }
}

} // verus!
