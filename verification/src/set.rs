//! The sets: `FlatSet`, which grows, and `ConstantFlatSet`, of a fixed size.
//!
//! A set's view is the sequence of its keys in storage order.

use crate::keys::{
    distinct, has_key, is_first_collision, is_first_match, lawful_eq, lemma_position_found,
    lemma_position_is_first, lemma_position_none, lemma_position_some_iff_has_key, position,
    same_key, swap_removed,
};
use crate::storage::{shrink_vec, size_hint_lower};
use vstd::prelude::*;
use vstd::std_specs::cmp::PartialEqSpec;
use vstd::std_specs::iter::IteratorSpec;

verus! {

/// What a checked insertion of `k` leaves of the keys `s`: `s` itself where it
/// holds an equal key, else `s` with `k` at its end.
pub open spec fn inserted_key<K: PartialEq>(s: Seq<K>, k: K) -> Seq<K> {
    if has_key(s, k) {
        s
    } else {
        s.push(k)
    }
}

/// What a deletion of `k` leaves of the keys `s`: the first slot that matches
/// is filled with the last key, and the last slot goes.
pub open spec fn deleted_key<K: PartialEq>(s: Seq<K>, k: K) -> Seq<K> {
    match position(s, k) {
        Some(i) => swap_removed(s, i),
        None => s,
    }
}

/// The keys that are left when `items` are inserted one by one, from the
/// first to the last, into an empty set.
pub open spec fn collected<K: PartialEq>(items: Seq<K>) -> Seq<K>
    decreases items.len(),
{
    if items.len() == 0 {
        Seq::empty()
    } else {
        inserted_key(collected(items.drop_last()), items.last())
    }
}

/// No item before slot `i` of `items` equals the item of slot `i`.
pub open spec fn is_first_occurrence<K: PartialEq>(items: Seq<K>, i: int) -> bool {
    forall|j: int| 0 <= j < i ==> !same_key(#[trigger] items[j], items[i])
}

/// How many of the first `n` items are first occurrences.
pub open spec fn first_count<K: PartialEq>(items: Seq<K>, n: int) -> int
    decreases n,
{
    if n <= 0 {
        0
    } else if is_first_occurrence(items, n - 1) {
        first_count(items, n - 1) + 1
    } else {
        first_count(items, n - 1)
    }
}

/// A checked insertion keeps distinct keys distinct.
pub proof fn law_inserted_key_distinct<K: PartialEq>(s: Seq<K>, k: K)
    requires
        distinct(s),
    ensures
        distinct(inserted_key(s, k)),
{
    let t = inserted_key(s, k);
    if !has_key(s, k) {
        assert forall|i: int, j: int| 0 <= i < j < t.len() implies !same_key(
            #[trigger] t[i],
            #[trigger] t[j],
        ) by {
            if j == s.len() {
                assert(!same_key(s[i], k));
            } else {
                assert(!same_key(s[i], s[j]));
            }
        }
    }
}

/// After a checked insertion the key is in the set.
pub proof fn law_inserted_key_present<K: PartialEq>(s: Seq<K>, k: K)
    requires
        lawful_eq::<K>(),
    ensures
        has_key(inserted_key(s, k), k),
{
    let t = inserted_key(s, k);
    if !has_key(s, k) {
        assert(same_key(t[s.len() as int], k));
    }
}

/// A deletion keeps distinct keys distinct, and where they were distinct the
/// key is gone afterwards.
pub proof fn law_deleted_key_absent<K: PartialEq>(s: Seq<K>, k: K)
    requires
        lawful_eq::<K>(),
        distinct(s),
    ensures
        distinct(deleted_key(s, k)),
        !has_key(deleted_key(s, k), k),
{
    let t = deleted_key(s, k);
    lemma_position_is_first(s, k);
    match position(s, k) {
        Some(p) => {
            assert forall|i: int| 0 <= i < t.len() implies !same_key(#[trigger] t[i], k) by {
                let src = if i == p { s.len() - 1 } else { i };
                assert(t[i] == s[src]);
                if same_key(s[src], k) {
                    assert(same_key(k, s[p]));
                    assert(same_key(s[src], s[p]));
                    assert(same_key(s[p], s[src]));
                    if src < p {
                        assert(!same_key(s[src], s[p]));
                    } else {
                        assert(!same_key(s[p], s[src]));
                    }
                }
            }
            assert forall|i: int, j: int| 0 <= i < j < t.len() implies !same_key(
                #[trigger] t[i],
                #[trigger] t[j],
            ) by {
                let si = if i == p { s.len() - 1 } else { i };
                let sj = if j == p { s.len() - 1 } else { j };
                assert(t[i] == s[si] && t[j] == s[sj]);
                if same_key(s[si], s[sj]) {
                    assert(same_key(s[sj], s[si]));
                    if si < sj {
                        assert(!same_key(s[si], s[sj]));
                    } else {
                        assert(!same_key(s[sj], s[si]));
                    }
                }
            }
        },
        None => {
            lemma_position_some_iff_has_key(s, k);
        },
    }
}

/// A deletion of `k1` neither brings in nor takes out any other key.
pub proof fn law_deleted_key_others<K: PartialEq>(s: Seq<K>, k1: K, k: K)
    requires
        lawful_eq::<K>(),
        !same_key(k1, k),
    ensures
        has_key(deleted_key(s, k1), k) <==> has_key(s, k),
{
    let t = deleted_key(s, k1);
    let n = s.len() as int;
    lemma_position_is_first(s, k1);
    match position(s, k1) {
        None => {},
        Some(p) => {
            if has_key(t, k) {
                let i = choose|i: int| 0 <= i < t.len() && same_key(#[trigger] t[i], k);
                let src = if i == p {
                    n - 1
                } else {
                    i
                };
                assert(t[i] == s[src]);
                assert(same_key(s[src], k));
            }
            if has_key(s, k) {
                let j = choose|j: int| 0 <= j < s.len() && same_key(#[trigger] s[j], k);
                if j == p {
                    assert(same_key(k1, s[p]));
                    assert(same_key(k1, k));
                }
                let dst = if j == n - 1 {
                    p
                } else {
                    j
                };
                assert(t[dst] == s[j]);
                assert(same_key(t[dst], k));
            }
        },
    }
}

/// A deletion that finds the key leaves one key less: the last key stands in
/// the slot of the key that went, unless that was the last itself, and every
/// other key stands where it stood.
pub proof fn law_deleted_key_slots<K: PartialEq>(s: Seq<K>, k: K, j: int)
    requires
        position(s, k) is Some,
        0 <= j < s.len() - 1,
    ensures
        deleted_key(s, k).len() == s.len() - 1,
        deleted_key(s, k)[j] == if position(s, k) == Some(j) {
            s.last()
        } else {
            s[j]
        },
{
    lemma_position_is_first(s, k);
}

/// Inserting one by one never leaves two equal keys, and leaves a key in the
/// set exactly where one of the items equals it.
pub proof fn law_collected<K: PartialEq>(items: Seq<K>, k: K)
    requires
        lawful_eq::<K>(),
    ensures
        distinct(collected(items)),
        has_key(collected(items), k) <==> has_key(items, k),
    decreases items.len(),
{
    if items.len() > 0 {
        let init = items.drop_last();
        let last = items.last();
        let before = collected(init);
        let after = collected(items);
        law_collected(init, k);
        law_collected(init, last);
        law_inserted_key_distinct(before, last);
        if has_key(after, k) {
            let i = choose|i: int| 0 <= i < after.len() && same_key(#[trigger] after[i], k);
            if i < before.len() {
                assert(after[i] == before[i]);
                assert(has_key(before, k));
                let j = choose|j: int| 0 <= j < init.len() && same_key(#[trigger] init[j], k);
                assert(same_key(items[j], k));
            } else {
                assert(after[i] == last);
                assert(same_key(items[items.len() - 1], k));
            }
        }
        if has_key(items, k) {
            let j = choose|j: int| 0 <= j < items.len() && same_key(#[trigger] items[j], k);
            if j < init.len() {
                assert(same_key(init[j], k));
                let i = choose|i: int| 0 <= i < before.len() && same_key(#[trigger] before[i], k);
                assert(same_key(after[i], k));
            } else {
                // `k` equals the last item, which is in the set after its insertion
                law_inserted_key_present(before, last);
                let i = choose|i: int| 0 <= i < after.len() && same_key(#[trigger] after[i], last);
                assert(same_key(last, k));
                assert(same_key(after[i], k));
            }
        }
    }
}

proof fn lemma_first_count_of_prefix<K: PartialEq>(items: Seq<K>, n: int)
    requires
        0 <= n < items.len(),
    ensures
        first_count(items.drop_last(), n) == first_count(items, n),
    decreases n,
{
    if n > 0 {
        lemma_first_count_of_prefix(items, n - 1);
        let init = items.drop_last();
        assert(is_first_occurrence(init, n - 1) == is_first_occurrence(items, n - 1)) by {
            assert(init[n - 1] == items[n - 1]);
            if is_first_occurrence(items, n - 1) {
                assert forall|j: int| 0 <= j < n - 1 implies !same_key(
                    #[trigger] init[j],
                    init[n - 1],
                ) by {
                    assert(!same_key(items[j], items[n - 1]));
                }
            }
            if is_first_occurrence(init, n - 1) {
                assert forall|j: int| 0 <= j < n - 1 implies !same_key(
                    #[trigger] items[j],
                    items[n - 1],
                ) by {
                    assert(!same_key(init[j], init[n - 1]));
                }
            }
        }
    }
}

/// Inserting one by one leaves exactly the first occurrences, in their
/// order: as many keys as there are first occurrences, and each first
/// occurrence in the slot that counts the first occurrences before it.
pub proof fn law_collected_first_occurrences<K: PartialEq>(items: Seq<K>, i: int)
    requires
        lawful_eq::<K>(),
    ensures
        collected(items).len() == first_count(items, items.len() as int),
        0 <= i < items.len() ==> 0 <= first_count(items, i) <= collected(items).len(),
        0 <= i < items.len() && is_first_occurrence(items, i) ==> first_count(items, i)
            < collected(items).len() && collected(items)[first_count(items, i)] == items[i],
    decreases items.len(),
{
    if items.len() > 0 {
        let init = items.drop_last();
        let m = items.len() - 1;
        let last = items.last();
        law_collected(init, last);
        law_collected_first_occurrences(init, i);
        lemma_first_count_of_prefix(items, m);
        assert(has_key(init, last) <==> !is_first_occurrence(items, m)) by {
            if has_key(init, last) {
                let j = choose|j: int| 0 <= j < init.len() && same_key(#[trigger] init[j], last);
                assert(same_key(items[j], items[m]));
            }
            if !is_first_occurrence(items, m) {
                let j = choose|j: int| 0 <= j < m && same_key(#[trigger] items[j], items[m]);
                assert(same_key(init[j], last));
            }
        }
        if 0 <= i < m {
            lemma_first_count_of_prefix(items, i);
            if is_first_occurrence(items, i) {
                assert(init[i] == items[i]);
                assert forall|j: int| 0 <= j < i implies !same_key(#[trigger] init[j], init[i]) by {
                    assert(!same_key(items[j], items[i]));
                }
                assert(collected(items)[first_count(init, i)] == collected(init)[first_count(
                    init,
                    i,
                )]);
            }
        }
    }
}

/// Linear set that grows; a checked insertion keeps its keys distinct.
pub struct FlatSet<K> {
    inner: Vec<K>,
}

impl<K> View for FlatSet<K> {
    type V = Seq<K>;

    closed spec fn view(&self) -> Seq<K> {
        self.inner@
    }
}

impl<K: Eq> FlatSet<K> {
    /// No two keys are equal.
    pub open spec fn well_formed(&self) -> bool {
        distinct(self@)
    }

    /// An empty set.
    pub fn new() -> (s: Self)
        ensures
            s@ == Seq::<K>::empty(),
            s.well_formed(),
    {
        Self::with_capacity(0)
    }

    /// An empty set with room for `capacity` keys.
    pub fn with_capacity(capacity: usize) -> (s: Self)
        ensures
            s@ == Seq::<K>::empty(),
            s.well_formed(),
    {
        Self { inner: Vec::with_capacity(capacity) }
    }

    /// Inserts the items one by one: of equal items the first stays.
    pub fn from_iter<I: Iterator<Item = K>>(iter: I) -> (s: Self)
        requires
            iter.obeys_prophetic_iter_laws(),
            iter.decrease() is Some,
        ensures
            K::obeys_eq_spec() ==> {
                &&& (s@ == collected(iter.remaining()))
                &&& (s.well_formed())
                &&& (lawful_eq::<K>() ==> forall|k: K| #[trigger]
                    has_key(s@, k) <==> has_key(iter.remaining(), k))
            },
    {
        let mut iter = iter;
        let ghost all = iter.remaining();
        let ghost mut n: int = 0;
        let mut s = Self::with_capacity(size_hint_lower(&iter));
        assert(all.skip(0) == all);
        loop
            invariant
                iter.obeys_prophetic_iter_laws(),
                iter.decrease() is Some,
                0 <= n <= all.len(),
                iter.remaining() == all.skip(n),
                K::obeys_eq_spec() ==> s@ == collected(all.take(n)) && distinct(s@),
            ensures
                K::obeys_eq_spec() ==> s@ == collected(all) && distinct(s@),
            decreases iter.decrease()->0,
        {
            match iter.next() {
                Some(item) => {
                    proof {
                        assert(all.skip(n).drop_first() == all.skip(n + 1));
                        assert(all.take(n + 1).drop_last() == all.take(n));
                        assert(all.take(n + 1).last() == item);
                        n = n + 1;
                    }
                    s.insert(item);
                },
                None => {
                    assert(all.take(n) == all);
                    break ;
                },
            }
        }
        proof {
            if lawful_eq::<K>() {
                assert forall|k: K| #[trigger] has_key(s@, k) <==> has_key(all, k) by {
                    law_collected(all, k);
                }
            }
        }
        s
    }

    /// Takes the items as they come, slot by slot, and compares none: keys
    /// that the caller knows to be distinct.
    pub fn from_iter_unchecked<I: Iterator<Item = K>>(iter: I) -> (s: Self)
        requires
            iter.obeys_prophetic_iter_laws(),
            iter.decrease() is Some,
        ensures
            s@ == iter.remaining(),
    {
        let mut iter = iter;
        let ghost all = iter.remaining();
        let ghost mut n: int = 0;
        let mut inner: Vec<K> = Vec::new();
        assert(all.skip(0) == all);
        loop
            invariant
                iter.obeys_prophetic_iter_laws(),
                iter.decrease() is Some,
                0 <= n <= all.len(),
                iter.remaining() == all.skip(n),
                inner@ == all.take(n),
            ensures
                inner@ == all,
            decreases iter.decrease()->0,
        {
            match iter.next() {
                Some(item) => {
                    proof {
                        assert(all.skip(n).drop_first() == all.skip(n + 1));
                        assert(all.take(n).push(item) == all.take(n + 1));
                        n = n + 1;
                    }
                    inner.push(item);
                },
                None => {
                    assert(all.take(n) == all);
                    break ;
                },
            }
        }
        Self { inner }
    }

    /// Whether some key of the set equals `key`.
    pub fn has(&self, key: &K) -> (found: bool)
        ensures
            K::obeys_eq_spec() ==> {
                &&& (found == has_key(self@, *key))
            },
    {
        let mut i: usize = 0;
        while i < self.inner.len()
            invariant
                i <= self.inner.len(),
                K::obeys_eq_spec() ==> (forall|j: int|
                    0 <= j < i ==> !same_key(#[trigger] self@[j], *key)),
            decreases self.inner.len() - i,
        {
            if self.inner[i] == *key {
                assert(K::obeys_eq_spec() ==> same_key(self@[i as int], *key));
                return true;
            }
            i += 1;
        }
        false
    }

    /// Inserts `key` unless an equal key is there, and returns whether one
    /// was there.
    pub fn insert(&mut self, key: K) -> (existed: bool)
        ensures
            K::obeys_eq_spec() ==> {
                &&& (existed == has_key(old(self)@, key))
                &&& (final(self)@ == inserted_key(old(self)@, key))
                &&& (old(self).well_formed() ==> final(self).well_formed())
            },
    {
        proof {
            if K::obeys_eq_spec() {
                if distinct(self@) {
                    law_inserted_key_distinct(self@, key);
                }
            }
        }
        if self.has(&key) {
            return true;
        }
        self.inner.push(key);
        false
    }

    /// Removes the first key that equals `key`, moving the last key into its
    /// slot, and returns whether there was one.
    pub fn delete(&mut self, key: &K) -> (found: bool)
        ensures
            K::obeys_eq_spec() ==> {
                &&& (found == has_key(old(self)@, *key))
                &&& (final(self)@ == deleted_key(old(self)@, *key))
                &&& (lawful_eq::<K>() && old(self).well_formed() ==> final(self).well_formed() && !has_key(
                    final(self)@,
                    *key,
                ))
            },
    {
        let mut i: usize = 0;
        while i < self.inner.len()
            invariant
                *self == *old(self),
                i <= self.inner.len(),
                K::obeys_eq_spec() ==> (forall|j: int|
                    0 <= j < i ==> !same_key(#[trigger] self@[j], *key)),
            decreases self.inner.len() - i,
        {
            if self.inner[i] == *key {
                proof {
                    if K::obeys_eq_spec() {
                        assert(is_first_match(self@, *key, i as int));
                        lemma_position_found(self@, *key, i as int);
                        if lawful_eq::<K>() && distinct(self@) {
                            law_deleted_key_absent(self@, *key);
                        }
                    }
                }
                self.inner.swap_remove(i);
                return true;
            }
            i += 1;
        }
        proof {
            if K::obeys_eq_spec() {
                lemma_position_none(self@, *key);
            }
        }
        false
    }

    /// Gives back the room that no key uses; the keys stay as they are.
    pub fn shrink_to_fit(&mut self)
        ensures
            final(self)@ == old(self)@,
            final(self).well_formed() == old(self).well_formed(),
    {
        shrink_vec(&mut self.inner);
    }

    /// The keys in storage order.
    pub fn iter(&self) -> (it: core::slice::Iter<'_, K>)
        ensures
            it.remaining() == self@.as_ref(),
            it.decrease() is Some,
            it.initial_value_relation(&it),
    {
        broadcast use vstd::std_specs::slice::axiom_spec_slice_iter;

        self.inner.as_slice().iter()
    }
}

impl<K> IntoIterator for FlatSet<K> {
    type Item = K;

    type IntoIter = std::vec::IntoIter<K>;

    /// The keys in storage order, handed over.
    fn into_iter(self) -> (it: Self::IntoIter)
        ensures
            it.remaining() == self@,
            it.decrease() is Some,
            it.initial_value_relation(&it),
    {
        broadcast use vstd::std_specs::vec::axiom_spec_into_iter;

        self.inner.into_iter()
    }
}

/// Linear set of `N` keys, the same for its lifetime.
pub struct ConstantFlatSet<K, const N: usize> {
    inner: [K; N],
}

impl<K, const N: usize> View for ConstantFlatSet<K, N> {
    type V = Seq<K>;

    closed spec fn view(&self) -> Seq<K> {
        self.inner@
    }
}

impl<K: Eq, const N: usize> ConstantFlatSet<K, N> {
    /// No two keys are equal.
    pub open spec fn well_formed(&self) -> bool {
        distinct(self@)
    }

    /// Whether some key of the set equals `key`.
    pub fn has(&self, key: &K) -> (found: bool)
        ensures
            K::obeys_eq_spec() ==> {
                &&& (found == has_key(self@, *key))
            },
    {
        let mut i: usize = 0;
        while i < N
            invariant
                i <= N,
                self.inner@.len() == N,
                K::obeys_eq_spec() ==> (forall|j: int|
                    0 <= j < i ==> !same_key(#[trigger] self@[j], *key)),
            decreases N - i,
        {
            if self.inner[i] == *key {
                assert(K::obeys_eq_spec() ==> same_key(self@[i as int], *key));
                return true;
            }
            i += 1;
        }
        false
    }

    /// Compares every two keys, in the order of their slots. The first two
    /// that are equal are returned, and no set is made; where all are
    /// distinct the set holds the keys as they came.
    pub fn from_entries(entries: [K; N]) -> (r: Result<Self, (usize, usize)>)
        ensures
            K::obeys_eq_spec() ==> {
                &&& (match r {
                    Ok(s) => s@ == entries@ && s.well_formed(),
                    Err((i, j)) => is_first_collision(entries@, i as int, j as int),
                })
            },
    {
        let ghost keys = entries@;
        let mut i: usize = 0;
        while i < N
            invariant
                i <= N,
                keys.len() == N,
                keys == entries@,
                K::obeys_eq_spec() ==> (forall|a: int, b: int|
                    0 <= a < b < N && a < i ==> !same_key(#[trigger] keys[a], #[trigger] keys[b])),
            decreases N - i,
        {
            let mut j: usize = i + 1;
            while j < N
                invariant
                    i < j <= N,
                    keys.len() == N,
                    keys == entries@,
                    K::obeys_eq_spec() ==> (forall|a: int, b: int|
                        0 <= a < b < N && a < i ==> !same_key(
                            #[trigger] keys[a],
                            #[trigger] keys[b],
                        )),
                    K::obeys_eq_spec() ==> (forall|b: int|
                        i < b < j ==> !same_key(keys[i as int], #[trigger] keys[b])),
                decreases N - j,
            {
                if entries[i] == entries[j] {
                    assert(K::obeys_eq_spec() ==> same_key(keys[i as int], keys[j as int]));
                    return Err((i, j));
                }
                j += 1;
            }
            i += 1;
        }
        Ok(Self::from_entries_unchecked(entries))
    }

    /// Takes the keys as they are and compares none: keys that the caller
    /// knows to be distinct.
    pub fn from_entries_unchecked(entries: [K; N]) -> (s: Self)
        ensures
            s@ == entries@,
    {
        Self { inner: entries }
    }

    /// The keys in storage order.
    pub fn iter(&self) -> (it: core::slice::Iter<'_, K>)
        ensures
            it.remaining() == self@.as_ref(),
            it.decrease() is Some,
            it.initial_value_relation(&it),
    {
        broadcast use vstd::std_specs::slice::axiom_spec_slice_iter;

        self.inner.as_slice().iter()
    }
}

} // verus!
