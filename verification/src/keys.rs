//! What a linear scan over a sequence of keys finds, and when a sequence of
//! keys holds no key twice.

use vstd::prelude::*;
use vstd::std_specs::cmp::PartialEqSpec;

verus! {

/// `a == b`, as the key type's `==` decides it.
pub open spec fn same_key<K: PartialEq>(a: K, b: K) -> bool {
    a.eq_spec(&b)
}

/// The key type's `==` is what its specification says, and that is an
/// equivalence relation.
pub open spec fn lawful_eq<K: PartialEq>() -> bool {
    &&& K::obeys_eq_spec()
    &&& forall|a: K| #[trigger] same_key(a, a)
    &&& forall|a: K, b: K| #[trigger] same_key(a, b) ==> same_key(b, a)
    &&& forall|a: K, b: K, c: K| #[trigger]
        same_key(a, b) && #[trigger] same_key(b, c) ==> same_key(a, c)
}

/// Some slot of `keys` holds a key equal to `k`.
pub open spec fn has_key<K: PartialEq>(keys: Seq<K>, k: K) -> bool {
    exists|i: int| 0 <= i < keys.len() && same_key(#[trigger] keys[i], k)
}

/// Slot `i` is the first of `keys`, in storage order, whose key equals `k`.
pub open spec fn is_first_match<K: PartialEq>(keys: Seq<K>, k: K, i: int) -> bool {
    &&& 0 <= i < keys.len()
    &&& same_key(keys[i], k)
    &&& forall|j: int| 0 <= j < i ==> !same_key(#[trigger] keys[j], k)
}

/// The slot that a scan for `k` stops at, if it stops at any.
pub open spec fn position<K: PartialEq>(keys: Seq<K>, k: K) -> Option<int> {
    if exists|i: int| is_first_match(keys, k, i) {
        Some(choose|i: int| is_first_match(keys, k, i))
    } else {
        None
    }
}

/// No key of an earlier slot equals the key of a later one.
pub open spec fn distinct<K: PartialEq>(keys: Seq<K>) -> bool {
    forall|i: int, j: int|
        0 <= i < j < keys.len() ==> !same_key(#[trigger] keys[i], #[trigger] keys[j])
}

/// `(a, b)` comes before `(i, j)` in the order in which the pairs of slots
/// are compared: by the first slot, then by the second.
pub open spec fn pair_before(a: int, b: int, i: int, j: int) -> bool {
    a < i || (a == i && b < j)
}

/// `(i, j)` is the first pair of slots, `i` before `j`, with equal keys.
pub open spec fn is_first_collision<K: PartialEq>(keys: Seq<K>, i: int, j: int) -> bool {
    &&& 0 <= i < j < keys.len()
    &&& same_key(keys[i], keys[j])
    &&& forall|a: int, b: int|
        0 <= a < b < keys.len() && pair_before(a, b, i, j) ==> !same_key(
            #[trigger] keys[a],
            #[trigger] keys[b],
        )
}

/// `s` with its last item moved into slot `i`, and one slot shorter.
pub open spec fn swap_removed<T>(s: Seq<T>, i: int) -> Seq<T>
    recommends
        0 <= i < s.len(),
{
    s.update(i, s.last()).drop_last()
}

/// A first match is the position.
pub proof fn lemma_position_found<K: PartialEq>(keys: Seq<K>, k: K, i: int)
    requires
        is_first_match(keys, k, i),
    ensures
        position(keys, k) == Some(i),
{
    let c = choose|c: int| is_first_match(keys, k, c);
    assert(is_first_match(keys, k, c));
    if c < i {
        assert(!same_key(keys[c], k));
    }
    if i < c {
        assert(!same_key(keys[i], k));
    }
}

/// A position is a first match.
pub proof fn lemma_position_is_first<K: PartialEq>(keys: Seq<K>, k: K)
    ensures
        position(keys, k) matches Some(i) ==> is_first_match(keys, k, i),
{
}

/// Where no slot matches there is no position.
pub proof fn lemma_position_none<K: PartialEq>(keys: Seq<K>, k: K)
    requires
        !has_key(keys, k),
    ensures
        position(keys, k) is None,
{
    if exists|i: int| is_first_match(keys, k, i) {
        let c = choose|c: int| is_first_match(keys, k, c);
        assert(same_key(keys[c], k));
    }
}

/// Below a matching slot there is a first match.
pub proof fn lemma_match_has_first<K: PartialEq>(keys: Seq<K>, k: K, j: int)
    requires
        0 <= j < keys.len(),
        same_key(keys[j], k),
    ensures
        position(keys, k) matches Some(i) && i <= j,
    decreases j,
{
    if exists|l: int| 0 <= l < j && same_key(#[trigger] keys[l], k) {
        let l = choose|l: int| 0 <= l < j && same_key(#[trigger] keys[l], k);
        lemma_match_has_first(keys, k, l);
    } else {
        assert(is_first_match(keys, k, j));
        lemma_position_found(keys, k, j);
    }
}

/// A scan finds a key exactly where some slot holds an equal one.
pub proof fn lemma_position_some_iff_has_key<K: PartialEq>(keys: Seq<K>, k: K)
    ensures
        position(keys, k) is Some <==> has_key(keys, k),
{
    if has_key(keys, k) {
        let j = choose|j: int| 0 <= j < keys.len() && same_key(#[trigger] keys[j], k);
        lemma_match_has_first(keys, k, j);
    } else {
        lemma_position_none(keys, k);
    }
}

/// An empty container holds no key: every scan of it comes back empty.
pub proof fn law_empty_has_no_key<K: PartialEq>(k: K)
    ensures
        !has_key(Seq::<K>::empty(), k),
        position(Seq::<K>::empty(), k) is None,
{
    lemma_position_none(Seq::<K>::empty(), k);
}

/// At most one pair of slots is the first collision, and there is none where
/// the keys are distinct.
pub proof fn law_first_collision_is_unique<K: PartialEq>(
    keys: Seq<K>,
    i: int,
    j: int,
    a: int,
    b: int,
)
    requires
        is_first_collision(keys, i, j),
    ensures
        !distinct(keys),
        is_first_collision(keys, a, b) ==> a == i && b == j,
{
    if is_first_collision(keys, a, b) {
        if pair_before(a, b, i, j) {
            assert(!same_key(keys[a], keys[b]));
        }
        if pair_before(i, j, a, b) {
            assert(!same_key(keys[i], keys[j]));
        }
    }
}

} // verus!
