//! Lists of pairs that are looked up by their first part, a text.
//!
//! Such a list keeps the order in which its keys came, and holds each key
//! once. The pending edits of a server and the bindings of a message are
//! lists of this kind.

use vstd::prelude::*;

verus! {

/// Whether a pair of `pairs` has the key `key`.
pub open spec fn has_key<V>(pairs: Seq<(Seq<char>, V)>, key: Seq<char>) -> bool {
    exists|i: int| 0 <= i < pairs.len() && (#[trigger] pairs[i]).0 == key
}

/// The index of a pair with the key `key`.
pub open spec fn index_of<V>(pairs: Seq<(Seq<char>, V)>, key: Seq<char>) -> int {
    choose|i: int| 0 <= i < pairs.len() && (#[trigger] pairs[i]).0 == key
}

/// No key occurs twice.
pub open spec fn distinct_keys<V>(pairs: Seq<(Seq<char>, V)>) -> bool {
    forall|i: int, j: int|
        0 <= i < j < pairs.len() ==> (#[trigger] pairs[i]).0 != (#[trigger] pairs[j]).0
}

/// `pairs` with `value` under `key`: a key that is there already keeps its
/// place and takes the new value, a new key goes to the end.
pub open spec fn bind<V>(pairs: Seq<(Seq<char>, V)>, key: Seq<char>, value: V) -> Seq<
    (Seq<char>, V),
> {
    if has_key(pairs, key) {
        pairs.update(index_of(pairs, key), (key, value))
    } else {
        pairs.push((key, value))
    }
}

/// Where keys are distinct, the pair with a key is found at its index.
pub proof fn lemma_index_of<V>(pairs: Seq<(Seq<char>, V)>, key: Seq<char>, at: int)
    requires
        distinct_keys(pairs),
        0 <= at < pairs.len(),
        pairs[at].0 == key,
    ensures
        has_key(pairs, key),
        index_of(pairs, key) == at,
{
    let found = index_of(pairs, key);
    assert(pairs[found].0 == key);
    if found < at {
        assert(pairs[found].0 != pairs[at].0);
    } else if at < found {
        assert(pairs[at].0 != pairs[found].0);
    }
}

/// Binding a key keeps the keys distinct.
pub proof fn lemma_bind_distinct<V>(pairs: Seq<(Seq<char>, V)>, key: Seq<char>, value: V)
    requires
        distinct_keys(pairs),
    ensures
        distinct_keys(bind(pairs, key, value)),
        bind(pairs, key, value).len() > 0,
{
    let out = bind(pairs, key, value);
    if has_key(pairs, key) {
        assert forall|i: int, j: int| 0 <= i < j < out.len() implies (#[trigger] out[i]).0 != (
        #[trigger] out[j]).0 by {
            assert(pairs[i].0 != pairs[j].0);
        }
    } else {
        assert forall|i: int, j: int| 0 <= i < j < out.len() implies (#[trigger] out[i]).0 != (
        #[trigger] out[j]).0 by {
            if j < pairs.len() {
                assert(pairs[i].0 != pairs[j].0);
            } else {
                assert(pairs[i].0 != key);
            }
        }
    }
}

/// What a list holds after a key is bound: the new value under that key,
/// and under every other key what it held before.
pub proof fn lemma_bind_lookup<V>(
    pairs: Seq<(Seq<char>, V)>,
    key: Seq<char>,
    value: V,
    other: Seq<char>,
)
    requires
        distinct_keys(pairs),
    ensures
        has_key(bind(pairs, key, value), other) <==> (other == key || has_key(pairs, other)),
        bind(pairs, key, value)[index_of(bind(pairs, key, value), key)].1 == value,
        other != key && has_key(pairs, other) ==> bind(pairs, key, value)[index_of(
            bind(pairs, key, value),
            other,
        )].1 == pairs[index_of(pairs, other)].1,
{
    let out = bind(pairs, key, value);
    lemma_bind_distinct(pairs, key, value);
    let at = if has_key(pairs, key) {
        index_of(pairs, key)
    } else {
        pairs.len() as int
    };
    assert(out[at].0 == key);
    lemma_index_of(out, key, at);
    if has_key(pairs, other) {
        let j = index_of(pairs, other);
        assert(pairs[j].0 == other);
        if other != key {
            assert(out[j] == pairs[j]);
            lemma_index_of(out, other, j);
        }
    }
    if has_key(out, other) && other != key {
        let j = index_of(out, other);
        assert(out[j].0 == other);
        assert(j != at);
        assert(pairs[j].0 == other);
    }
}

/// A later part of a list with distinct keys has distinct keys, and holds
/// none of the keys before it.
pub proof fn lemma_rest_distinct<V>(pairs: Seq<(Seq<char>, V)>, from: int)
    requires
        distinct_keys(pairs),
        0 <= from <= pairs.len(),
    ensures
        distinct_keys(pairs.subrange(from, pairs.len() as int)),
        forall|i: int|
            0 <= i < from ==> !has_key(
                pairs.subrange(from, pairs.len() as int),
                (#[trigger] pairs[i]).0,
            ),
{
    let kept = pairs.subrange(from, pairs.len() as int);
    assert forall|i: int, j: int| 0 <= i < j < kept.len() implies (#[trigger] kept[i]).0 != (
    #[trigger] kept[j]).0 by {
        assert(pairs[from + i].0 != pairs[from + j].0);
    }
    assert forall|i: int| 0 <= i < from implies !has_key(kept, (#[trigger] pairs[i]).0) by {
        if has_key(kept, pairs[i].0) {
            let k = index_of(kept, pairs[i].0);
            assert(pairs[i].0 != pairs[from + k].0);
        }
    }
}

} // verus!
