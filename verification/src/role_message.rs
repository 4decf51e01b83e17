//! A finalized reaction-role message: emoji keys bound to roles.
//!
//! The bindings are read back from the message's text. A binding is
//! `:<key>:[](<id>)`: the key is one or more of `a`-`z`, `0`-`9`, `_` and
//! `-`, the identifier is 26 characters of `0`-`9` and the letters but `I`,
//! `L`, `O` and `U`. Letters count in either case, and so do the two
//! characters that fold to a letter, U+017F (to `s`) and U+212A (to `k`).

use crate::keyed::{bind, distinct_keys, has_key, index_of, lemma_bind_distinct, lemma_index_of};
use crate::template::exclusive_marker;
use crate::text::{
    folded_width, folded_width_at, lemma_boundary, lemma_next_boundary, lower, lower_byte,
    same_text, slice, starts_with, utf8, BRACKET_CLOSE, BRACKET_OPEN, COLON, PAREN_CLOSE,
    PAREN_OPEN,
};
use vstd::prelude::*;
use vstd::utf8::{decode_utf8, encode_utf8_decode_utf8, encode_utf8_valid_utf8, valid_utf8};

verus! {

/// The number of characters of a role identifier.
pub const ID_LENGTH: usize = 26;

/// Whether the byte is an ASCII digit.
pub open spec fn is_digit(byte: u8) -> bool {
    0x30 <= byte <= 0x39
}

/// Whether the byte is an ASCII character of a key: a letter, a digit, `_`
/// or `-`.
pub open spec fn is_key_byte(byte: u8) -> bool {
    is_digit(byte) || (0x61 <= lower(byte) <= 0x7a) || byte == 0x5f || byte == 0x2d
}

/// Whether the byte is an ASCII character of an identifier: a digit, or a
/// letter other than `I`, `L`, `O` and `U`.
pub open spec fn is_id_byte(byte: u8) -> bool {
    let letter = lower(byte);
    is_digit(byte) || (0x61 <= letter <= 0x7a && letter != 0x69 && letter != 0x6c && letter != 0x6f
        && letter != 0x75)
}

/// The width in bytes of the key character that starts at `at`, 0 where
/// none starts there.
pub open spec fn key_width(text: Seq<u8>, at: int) -> int {
    if 0 <= at < text.len() && is_key_byte(text[at]) {
        1
    } else {
        folded_width(text, at)
    }
}

/// The width in bytes of the identifier character that starts at `at`, 0
/// where none starts there.
pub open spec fn id_width(text: Seq<u8>, at: int) -> int {
    if 0 <= at < text.len() && is_id_byte(text[at]) {
        1
    } else {
        folded_width(text, at)
    }
}

/// The end of the longest run of key characters from `at` on.
pub open spec fn key_end(text: Seq<u8>, at: int) -> int
    decreases text.len() - at,
{
    if key_width(text, at) > 0 {
        key_end(text, at + key_width(text, at))
    } else {
        at
    }
}

/// The place behind `count` identifier characters from `at` on, -1 where
/// fewer stand there.
pub open spec fn id_end(text: Seq<u8>, at: int, count: nat) -> int
    decreases count,
{
    if count == 0 {
        at
    } else if id_width(text, at) > 0 {
        id_end(text, at + id_width(text, at), (count - 1) as nat)
    } else {
        -1
    }
}

/// A binding in a text: it starts with the `:` at `at`, its key ends at
/// `key_end`, and the binding ends at `end`.
pub struct Bond {
    pub at: int,
    pub key_end: int,
    pub end: int,
}

impl Bond {
    /// Where the identifier starts: behind `:[](`.
    pub open spec fn id_start(self) -> int {
        self.key_end + 4
    }

    /// The key: the text behind the first `:`.
    pub open spec fn key(self, text: Seq<u8>) -> Seq<char> {
        decode_utf8(text.subrange(self.at + 1, self.key_end))
    }

    /// The role identifier: the text between the parentheses.
    pub open spec fn role(self, text: Seq<u8>) -> Seq<char> {
        decode_utf8(text.subrange(self.id_start(), self.end - 1))
    }
}

/// Whether `:[](` stands at `at`.
pub open spec fn links(text: Seq<u8>, at: int) -> bool {
    &&& 0 <= at
    &&& at + 4 <= text.len()
    &&& text[at] == COLON
    &&& text[at + 1] == BRACKET_OPEN
    &&& text[at + 2] == BRACKET_CLOSE
    &&& text[at + 3] == PAREN_OPEN
}

/// The end of the binding that starts at `at`, 0 where none starts there.
pub open spec fn binding_end(text: Seq<u8>, at: int) -> int {
    let key_stop = key_end(text, at + 1);
    let id_stop = id_end(text, key_stop + 4, ID_LENGTH as nat);
    if 0 <= at < text.len() && text[at] == COLON && key_stop > at + 1 && links(text, key_stop)
        && 0 < id_stop < text.len() && text[id_stop] == PAREN_CLOSE {
        id_stop + 1
    } else {
        0
    }
}

/// The bindings of a text from `at` on, from left to right: the first one
/// that starts at or after `at`, then those that follow its end.
pub open spec fn bonds(text: Seq<u8>, at: int) -> Seq<Bond>
    decreases text.len() - at,
    via bonds_decreases
{
    if at < 0 || at >= text.len() {
        Seq::empty()
    } else if binding_end(text, at) > 0 {
        seq![Bond { at, key_end: key_end(text, at + 1), end: binding_end(text, at) }] + bonds(
            text,
            binding_end(text, at),
        )
    } else {
        bonds(text, at + 1)
    }
}

#[via_fn]
proof fn bonds_decreases(text: Seq<u8>, at: int) {
    if 0 <= at < text.len() && binding_end(text, at) > 0 {
        lemma_key_end(text, at + 1);
        lemma_id_end(text, key_end(text, at + 1) + 4, ID_LENGTH as nat);
    }
}

/// `key_end` moves forward and stays inside the text.
pub proof fn lemma_key_end(text: Seq<u8>, at: int)
    requires
        0 <= at,
    ensures
        at <= key_end(text, at),
        at <= text.len() ==> key_end(text, at) <= text.len(),
    decreases text.len() - at,
{
    if key_width(text, at) > 0 {
        lemma_key_end(text, at + key_width(text, at));
    }
}

/// `id_end` moves forward by at least a byte for each character and stays
/// inside the text, where it does not fail.
pub proof fn lemma_id_end(text: Seq<u8>, at: int, count: nat)
    requires
        0 <= at,
    ensures
        id_end(text, at, count) == -1 || (at + count <= id_end(text, at, count) && (count > 0
            ==> id_end(text, at, count) <= text.len())),
    decreases count,
{
    if count > 0 && id_width(text, at) > 0 {
        lemma_id_end(text, at + id_width(text, at), (count - 1) as nat);
    }
}

/// What holds of the bindings of a text: each lies inside the text with its
/// parts in order, starts with `:`, has `:` behind the key and `(` before
/// and `)` behind the identifier, and ends before the next one starts.
pub proof fn lemma_bonds(text: Seq<u8>, at: int)
    requires
        0 <= at,
    ensures
        forall|i: int|
            0 <= i < bonds(text, at).len() ==> {
                let bond = #[trigger] bonds(text, at)[i];
                &&& at <= bond.at
                &&& bond.at + 1 < bond.key_end
                &&& bond.key_end + 4 + ID_LENGTH <= bond.end - 1
                &&& bond.end <= text.len()
                &&& text[bond.at] == COLON
                &&& text[bond.key_end] == COLON
                &&& text[bond.key_end + 3] == PAREN_OPEN
                &&& text[bond.end - 1] == PAREN_CLOSE
            },
    decreases text.len() - at,
{
    if at < text.len() {
        let end = binding_end(text, at);
        if end > 0 {
            lemma_key_end(text, at + 1);
            lemma_id_end(text, key_end(text, at + 1) + 4, ID_LENGTH as nat);
            lemma_bonds(text, end);
            let first = Bond { at, key_end: key_end(text, at + 1), end };
            let rest = bonds(text, end);
            let all = bonds(text, at);
            assert(all == seq![first] + rest);
            assert forall|i: int| 0 <= i < all.len() implies {
                let bond = #[trigger] all[i];
                &&& at <= bond.at
                &&& bond.at + 1 < bond.key_end
                &&& bond.key_end + 4 + ID_LENGTH <= bond.end - 1
                &&& bond.end <= text.len()
                &&& text[bond.at] == COLON
                &&& text[bond.key_end] == COLON
                &&& text[bond.key_end + 3] == PAREN_OPEN
                &&& text[bond.end - 1] == PAREN_CLOSE
            } by {
                if i > 0 {
                    assert(all[i] == rest[i - 1]);
                }
            }
        } else {
            lemma_bonds(text, at + 1);
            assert(bonds(text, at) == bonds(text, at + 1));
        }
    } else {
        assert(bonds(text, at).len() == 0);
    }
}

/// The width in bytes of the key character that starts at `at`.
pub fn key_width_at(text: &[u8], at: usize) -> (width: usize)
    ensures
        width == key_width(text@, at as int),
        width > 0 ==> at + width <= text@.len(),
{
    if at < text.len() {
        let byte = text[at];
        let letter = lower_byte(byte);
        if (0x30 <= byte && byte <= 0x39) || (0x61 <= letter && letter <= 0x7a) || byte == 0x5f
            || byte == 0x2d {
            return 1;
        }
    }
    folded_width_at(text, at)
}

/// The width in bytes of the identifier character that starts at `at`.
pub fn id_width_at(text: &[u8], at: usize) -> (width: usize)
    ensures
        width == id_width(text@, at as int),
        width > 0 ==> at + width <= text@.len(),
{
    if at < text.len() {
        let byte = text[at];
        let letter = lower_byte(byte);
        if (0x30 <= byte && byte <= 0x39) || (0x61 <= letter && letter <= 0x7a && letter != 0x69
            && letter != 0x6c && letter != 0x6f && letter != 0x75) {
            return 1;
        }
    }
    folded_width_at(text, at)
}

/// The binding that starts at `at`: the end of its key and its own end, or
/// `None` where no binding starts there.
pub fn binding_at(text: &[u8], at: usize) -> (found: Option<(usize, usize)>)
    ensures
        match found {
            Some((key_stop, end)) => key_stop == key_end(text@, at + 1) && end == binding_end(
                text@,
                at as int,
            ) && end > 0,
            None => binding_end(text@, at as int) == 0,
        },
{
    let len = text.len();
    if at >= len || text[at] != COLON {
        return None;
    }
    let mut key_stop = at + 1;
    let mut width = key_width_at(text, key_stop);
    while width > 0
        invariant
            len == text@.len(),
            at < key_stop <= len,
            width == key_width(text@, key_stop as int),
            width > 0 ==> key_stop + width <= len,
            key_end(text@, at + 1) == key_end(text@, key_stop as int),
        decreases len - key_stop,
    {
        key_stop += width;
        width = key_width_at(text, key_stop);
    }
    if key_stop == at + 1 || len - key_stop < 4 {
        return None;
    }
    if !(text[key_stop] == COLON && text[key_stop + 1] == BRACKET_OPEN && text[key_stop + 2]
        == BRACKET_CLOSE && text[key_stop + 3] == PAREN_OPEN) {
        return None;
    }
    let mut id_stop = key_stop + 4;
    let mut left: usize = ID_LENGTH;
    while left > 0
        invariant
            len == text@.len(),
            key_stop + 4 <= id_stop <= len,
            key_stop == key_end(text@, at + 1),
            left <= ID_LENGTH,
            id_end(text@, key_stop + 4, ID_LENGTH as nat) == id_end(
                text@,
                id_stop as int,
                left as nat,
            ),
        decreases left,
    {
        let width = id_width_at(text, id_stop);
        if width == 0 {
            assert(id_end(text@, id_stop as int, left as nat) == -1);
            return None;
        }
        id_stop += width;
        left -= 1;
    }
    if id_stop < len && text[id_stop] == PAREN_CLOSE {
        Some((key_stop, id_stop + 1))
    } else {
        None
    }
}

/// The bonds of a list of triples: start, end of the key, end.
pub open spec fn bonds_of(triples: Seq<(usize, usize, usize)>) -> Seq<Bond> {
    Seq::new(
        triples.len(),
        |i: int|
            Bond { at: triples[i].0 as int, key_end: triples[i].1 as int, end: triples[i].2 as int },
    )
}

/// The bindings of a text, from left to right.
pub fn find_bindings(text: &[u8]) -> (found: Vec<(usize, usize, usize)>)
    ensures
        bonds_of(found@) == bonds(text@, 0),
{
    let len = text.len();
    let mut found: Vec<(usize, usize, usize)> = Vec::new();
    let mut at: usize = 0;
    while at < len
        invariant
            len == text@.len(),
            at <= len,
            bonds(text@, 0) == bonds_of(found@) + bonds(text@, at as int),
        decreases len - at,
    {
        match binding_at(text, at) {
            Some((key_stop, end)) => {
                proof {
                    lemma_key_end(text@, at + 1);
                    lemma_id_end(text@, key_stop + 4, ID_LENGTH as nat);
                    let bond = Bond { at: at as int, key_end: key_stop as int, end: end as int };
                    assert(bonds_of(found@.push((at, key_stop, end))) =~= bonds_of(found@).push(bond));
                    assert(bonds_of(found@).push(bond) + bonds(text@, end as int) =~= bonds_of(found@)
                        + (seq![bond] + bonds(text@, end as int)));
                }
                found.push((at, key_stop, end));
                at = end;
            },
            None => {
                at += 1;
            },
        }
    }
    assert(bonds_of(found@) + Seq::<Bond>::empty() =~= bonds_of(found@));
    found
}

/// An emoji key and the role bound to it.
pub type Pair = (Seq<char>, Seq<char>);

/// The mapping that the first `count` of `found` make, each taken in turn:
/// where a key occurs again, its later role replaces the earlier one.
pub open spec fn table(text: Seq<u8>, found: Seq<Bond>, count: nat) -> Seq<Pair>
    decreases count,
{
    if count == 0 {
        Seq::empty()
    } else {
        bind(
            table(text, found, (count - 1) as nat),
            found[count - 1].key(text),
            found[count - 1].role(text),
        )
    }
}

/// The roles of a list of pairs, in the list's order.
pub open spec fn roles_of(pairs: Seq<Pair>) -> Seq<Seq<char>> {
    Seq::new(pairs.len(), |i: int| pairs[i].1)
}

/// The roles that `pairs` bind.
pub open spec fn bound_roles(pairs: Seq<Pair>) -> Set<Seq<char>> {
    Set::new(|role: Seq<char>| exists|i: int| 0 <= i < pairs.len() && (#[trigger] pairs[i]).1 == role)
}

/// A finalized message as the contracts speak of it.
pub struct RoleView {
    /// Whether at most one of the roles may be held at a time.
    pub exclusive: bool,
    /// The bindings, each key once, in the order of the keys' first
    /// occurrence.
    pub roles: Seq<Pair>,
}

/// What a text is read as: its bindings, if it has any; exclusive where the
/// text starts with the marker.
pub open spec fn parsed(text: Seq<u8>) -> Option<RoleView> {
    let found = bonds(text, 0);
    if found.len() > 0 {
        Some(
            RoleView {
                exclusive: exclusive_marker().is_prefix_of(text),
                roles: table(text, found, found.len()),
            },
        )
    } else {
        None
    }
}

/// An emoji key bound to a role.
#[derive(Debug)]
pub struct Binding {
    pub emoji: String,
    pub role: String,
}

impl Clone for Binding {
    fn clone(&self) -> (out: Self)
        ensures
            out == *self,
    {
        Binding { emoji: self.emoji.clone(), role: self.role.clone() }
    }
}

/// The pairs that a list of bindings stands for.
pub open spec fn pairs_of(bindings: Seq<Binding>) -> Seq<Pair> {
    Seq::new(bindings.len(), |i: int| (bindings[i].emoji@, bindings[i].role@))
}

/// A finalized reaction-role message.
#[derive(Debug)]
pub struct RoleMessage {
    exclusive: bool,
    roles: Vec<Binding>,
}

impl View for RoleMessage {
    type V = RoleView;

    closed spec fn view(&self) -> RoleView {
        RoleView { exclusive: self.exclusive, roles: pairs_of(self.roles@) }
    }
}

/// Binds `key` to `role` in `bindings`.
fn bind_key(bindings: &mut Vec<Binding>, key: String, role: String)
    requires
        distinct_keys(pairs_of(old(bindings)@)),
    ensures
        pairs_of(final(bindings)@) == bind(pairs_of(old(bindings)@), key@, role@),
        distinct_keys(pairs_of(final(bindings)@)),
{
    let ghost before = pairs_of(bindings@);
    proof {
        lemma_bind_distinct(before, key@, role@);
    }
    let mut i: usize = 0;
    while i < bindings.len()
        invariant
            i <= bindings.len(),
            bindings@ == old(bindings)@,
            before == pairs_of(bindings@),
            distinct_keys(before),
            forall|j: int| 0 <= j < i ==> (#[trigger] before[j]).0 != key@,
        decreases bindings.len() - i,
    {
        if same_text(bindings[i].emoji.as_str(), key.as_str()) {
            proof {
                lemma_index_of(before, key@, i as int);
            }
            bindings.set(i, Binding { emoji: key, role });
            assert(pairs_of(bindings@) =~= before.update(i as int, (key@, role@)));
            return ;
        }
        i += 1;
    }
    bindings.push(Binding { emoji: key, role });
    assert(pairs_of(bindings@) =~= before.push((key@, role@)));
}

impl Clone for RoleMessage {
    fn clone(&self) -> (out: Self)
        ensures
            out@ == self@,
    {
        proof {
            use_type_invariant(self);
        }
        let mut roles: Vec<Binding> = Vec::new();
        let mut i: usize = 0;
        while i < self.roles.len()
            invariant
                i <= self.roles.len(),
                roles@ == self.roles@.take(i as int),
            decreases self.roles.len() - i,
        {
            roles.push(self.roles[i].clone());
            assert(roles@ =~= self.roles@.take(i + 1));
            i += 1;
        }
        assert(self.roles@.take(self.roles.len() as int) =~= self.roles@);
        RoleMessage { exclusive: self.exclusive, roles }
    }
}

impl RoleMessage {
    #[verifier::type_invariant]
    closed spec fn inv(self) -> bool {
        &&& self.roles@.len() > 0
        &&& distinct_keys(pairs_of(self.roles@))
    }

    /// Whether at most one of the roles may be held at a time.
    pub fn is_exclusive(&self) -> (yes: bool)
        ensures
            yes == self@.exclusive,
    {
        self.exclusive
    }

    /// The bindings, each key once.
    pub fn bindings(&self) -> (bindings: &Vec<Binding>)
        ensures
            pairs_of(bindings@) == self@.roles,
            bindings@.len() > 0,
            distinct_keys(self@.roles),
    {
        proof {
            use_type_invariant(self);
        }
        &self.roles
    }

    /// Reads the text of a message. The result is `None` where the text holds
    /// no binding.
    pub fn parse(content: &str) -> (out: Option<RoleMessage>)
        ensures
            match out {
                Some(message) => parsed(utf8(content@)) == Some(message@),
                None => parsed(utf8(content@)) is None,
            },
    {
        broadcast use encode_utf8_valid_utf8;

        let bytes = content.as_bytes();
        let ghost text = utf8(content@);
        let found = find_bindings(bytes);
        if found.len() == 0 {
            return None;
        }
        let mut roles: Vec<Binding> = Vec::new();
        let mut i: usize = 0;
        assert(pairs_of(roles@) =~= table(text, bonds(text, 0), 0));
        while i < found.len()
            invariant
                i <= found.len(),
                text == utf8(content@),
                bytes@ == text,
                valid_utf8(text),
                bonds_of(found@) == bonds(text, 0),
                pairs_of(roles@) == table(text, bonds(text, 0), i as nat),
                distinct_keys(pairs_of(roles@)),
                i > 0 ==> roles@.len() > 0,
            decreases found.len() - i,
        {
            let (at, key_stop, end) = found[i];
            let ghost bond = bonds(text, 0)[i as int];
            proof {
                lemma_bonds(text, 0);
                assert(bonds_of(found@)[i as int] == bond);
                lemma_next_boundary(text, at as int);
                assert(text.subrange(at as int, text.len() as int)[0] == COLON);
                lemma_boundary(text, key_stop as int);
                lemma_next_boundary(text, key_stop + 3);
                assert(text.subrange(key_stop + 3, text.len() as int)[0] == PAREN_OPEN);
                lemma_boundary(text, end - 1);
            }
            let key = String::from_str(slice(content, at + 1, key_stop));
            let role = String::from_str(slice(content, key_stop + 4, end - 1));
            proof {
                encode_utf8_decode_utf8(key@);
                encode_utf8_decode_utf8(role@);
                lemma_bind_distinct(pairs_of(roles@), key@, role@);
            }
            bind_key(&mut roles, key, role);
            i += 1;
        }
        let exclusive = starts_with(bytes, "[](EXCLUSIVE)".as_bytes());
        Some(RoleMessage { exclusive, roles })
    }

    /// The role bound to the key `key`.
    pub fn role_for(&self, key: &str) -> (found: Option<&String>)
        ensures
            match found {
                Some(role) => has_key(self@.roles, key@) && role@ == self@.roles[index_of(
                    self@.roles,
                    key@,
                )].1,
                None => !has_key(self@.roles, key@),
            },
    {
        proof {
            use_type_invariant(self);
        }
        let mut i: usize = 0;
        while i < self.roles.len()
            invariant
                i <= self.roles.len(),
                distinct_keys(pairs_of(self.roles@)),
                forall|j: int| 0 <= j < i ==> (#[trigger] pairs_of(self.roles@)[j]).0 != key@,
            decreases self.roles.len() - i,
        {
            if same_text(self.roles[i].emoji.as_str(), key) {
                proof {
                    lemma_index_of(pairs_of(self.roles@), key@, i as int);
                }
                return Some(&self.roles[i].role);
            }
            i += 1;
        }
        None
    }
}

} // verus!
