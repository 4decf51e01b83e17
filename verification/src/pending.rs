//! The pending edit map: for each member with unreconciled actions, the full
//! role list that the member should end up with, in the order in which the
//! members were first touched.
//!
//! The map is an `indexmap::IndexMap`. Verus does not read that crate, so this
//! file states what each of its methods does to the entries; the rest of the
//! library is proved against these statements.

use crate::keyed::has_key;
use crate::text::texts;
use indexmap::IndexMap;
use vstd::prelude::*;

verus! {

/// Makes `IndexMap` known to Verus as an opaque type.
#[verifier::external_type_specification]
#[verifier::external_body]
#[verifier::reject_recursive_types(K)]
#[verifier::reject_recursive_types(V)]
#[verifier::reject_recursive_types(S)]
pub struct ExIndexMap<K, V, S>(IndexMap<K, V, S>);

/// A member's identifier paired with the roles wanted for that member.
pub type Entry = (Seq<char>, Seq<Seq<char>>);

/// The entries of a pending edit map, first inserted first.
pub uninterp spec fn entries_of(map: IndexMap<String, Vec<String>>) -> Seq<Entry>;

/// `IndexMap::new`: a map without entries.
#[verifier::external_body]
pub(crate) fn new_map() -> (map: IndexMap<String, Vec<String>>)
    ensures
        entries_of(map) == Seq::<Entry>::empty(),
{
    IndexMap::new()
}

/// `IndexMap::len`: the number of entries.
#[verifier::external_body]
pub(crate) fn count(map: &IndexMap<String, Vec<String>>) -> (n: usize)
    ensures
        n == entries_of(*map).len(),
{
    map.len()
}

/// `IndexMap::get_index_of`: the index of the entry whose key is `key`, or
/// `None` where no entry has that key.
#[verifier::external_body]
pub(crate) fn find(map: &IndexMap<String, Vec<String>>, key: &str) -> (found: Option<usize>)
    ensures
        match found {
            Some(i) => i < entries_of(*map).len() && entries_of(*map)[i as int].0 == key@,
            None => !has_key(entries_of(*map), key@),
        },
{
    map.get_index_of(key)
}

/// `IndexMap::get_index`: the key and value at `index`, or `None` where
/// `index` is not below the length.
#[verifier::external_body]
pub(crate) fn entry_at(map: &IndexMap<String, Vec<String>>, index: usize) -> (found: Option<
    (&String, &Vec<String>),
>)
    ensures
        found is Some <==> index < entries_of(*map).len(),
        found matches Some((key, value)) ==> key@ == entries_of(*map)[index as int].0 && texts(
            value@,
        ) == entries_of(*map)[index as int].1,
{
    map.get_index(index)
}

/// `IndexMap::insert`: where an entry has the key, it keeps its place and
/// takes the new value; otherwise the pair becomes the last entry.
#[verifier::external_body]
pub(crate) fn put(map: &mut IndexMap<String, Vec<String>>, key: String, value: Vec<String>)
    ensures
        forall|i: int|
            0 <= i < entries_of(*old(map)).len() && (#[trigger] entries_of(*old(map))[i]).0 == key@
                ==> entries_of(*final(map)) == entries_of(*old(map)).update(
                i,
                (key@, texts(value@)),
            ),
        !has_key(entries_of(*old(map)), key@) ==> entries_of(*final(map)) == entries_of(
            *old(map),
        ).push((key@, texts(value@))),
{
    map.insert(key, value);
}

/// `IndexMap::drain` over `0..end`: the first `end` entries leave, the others
/// move down in their order. The method panics where the range ends beyond
/// the length.
#[verifier::external_body]
pub(crate) fn drop_front(map: &mut IndexMap<String, Vec<String>>, end: usize)
    requires
        end <= entries_of(*old(map)).len(),
    ensures
        entries_of(*final(map)) == entries_of(*old(map)).subrange(
            end as int,
            entries_of(*old(map)).len() as int,
        ),
{
    map.drain(0..end);
}

/// `IndexMap::clear`: no entry stays.
#[verifier::external_body]
pub(crate) fn clear(map: &mut IndexMap<String, Vec<String>>)
    ensures
        entries_of(*final(map)) == Seq::<Entry>::empty(),
{
    map.clear();
}

} // verus!
