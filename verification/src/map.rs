//! The maps: `FlatMap`, which grows, and `ConstantFlatMap`, of a fixed size.
//!
//! An entry's view is the pair of its key and its value; a map's view is the
//! sequence of those pairs in storage order.

use crate::keys::{
    distinct, is_first_collision, is_first_match, lawful_eq, lemma_position_found,
    lemma_position_is_first, lemma_position_none, lemma_position_some_iff_has_key, position,
    same_key, swap_removed,
};
use crate::storage::{
    array_iter_mut, entries_of_pairs, shrink_vec, size_hint_lower, vec_iter_mut,
};
use vstd::prelude::*;
use vstd::std_specs::cmp::PartialEqSpec;
use vstd::std_specs::convert::{FromSpec, FromSpecImpl};
use vstd::std_specs::iter::IteratorSpec;

verus! {

/// The keys of the pairs `s`, slot by slot.
pub open spec fn keys_of<K, V>(s: Seq<(K, V)>) -> Seq<K> {
    s.map_values(|p: (K, V)| p.0)
}

/// The value that a scan of `s` for `k` finds: that of the first pair whose
/// key equals `k`.
pub open spec fn lookup<K: PartialEq, V>(s: Seq<(K, V)>, k: K) -> Option<V> {
    match position(keys_of(s), k) {
        Some(i) => Some(s[i].1),
        None => None,
    }
}

/// What a checked insertion of `(k, v)` leaves of the pairs `s`: the first
/// pair whose key equals `k` keeps its key and gets `v`; where there is none,
/// `(k, v)` comes at the end.
pub open spec fn inserted<K: PartialEq, V>(s: Seq<(K, V)>, k: K, v: V) -> Seq<(K, V)> {
    match position(keys_of(s), k) {
        Some(i) => s.update(i, (s[i].0, v)),
        None => s.push((k, v)),
    }
}

/// What a deletion of `k` leaves of the pairs `s`: the first slot that matches
/// is filled with the last pair, and the last slot goes.
pub open spec fn deleted<K: PartialEq, V>(s: Seq<(K, V)>, k: K) -> Seq<(K, V)> {
    match position(keys_of(s), k) {
        Some(i) => swap_removed(s, i),
        None => s,
    }
}

/// The pairs that are left when `pairs` are inserted one by one, from the
/// first to the last, into an empty map.
pub open spec fn built<K: PartialEq, V>(pairs: Seq<(K, V)>) -> Seq<(K, V)>
    decreases pairs.len(),
{
    if pairs.len() == 0 {
        Seq::empty()
    } else {
        inserted(built(pairs.drop_last()), pairs.last().0, pairs.last().1)
    }
}

/// The value of the last of `pairs` whose key equals `k`.
pub open spec fn last_value<K: PartialEq, V>(pairs: Seq<(K, V)>, k: K) -> Option<V>
    decreases pairs.len(),
{
    if pairs.len() == 0 {
        None
    } else if same_key(pairs.last().0, k) {
        Some(pairs.last().1)
    } else {
        last_value(pairs.drop_last(), k)
    }
}

/// The pairs that the entries `entries` hold, slot by slot.
pub open spec fn pairs_of<K, V>(entries: Seq<FlatMapEntry<K, V>>) -> Seq<(K, V)> {
    entries.map_values(|e: FlatMapEntry<K, V>| e@)
}

/// A checked insertion keeps distinct keys distinct, and changes the number
/// of pairs only where it finds no equal key.
pub proof fn law_inserted_distinct<K: PartialEq, V>(s: Seq<(K, V)>, k: K, v: V)
    ensures
        distinct(keys_of(s)) ==> distinct(keys_of(inserted(s, k, v))),
        lookup(s, k) is Some ==> inserted(s, k, v).len() == s.len(),
        lookup(s, k) is None ==> inserted(s, k, v).len() == s.len() + 1,
{
    let ks = keys_of(s);
    let kt = keys_of(inserted(s, k, v));
    lemma_position_is_first(ks, k);
    match position(ks, k) {
        Some(p) => {
            assert(kt =~= ks);
        },
        None => {
            lemma_position_some_iff_has_key(ks, k);
            assert(kt =~= ks.push(k));
            if distinct(ks) {
                assert forall|i: int, j: int| 0 <= i < j < kt.len() implies !same_key(
                    #[trigger] kt[i],
                    #[trigger] kt[j],
                ) by {
                    if j == ks.len() {
                        assert(!same_key(ks[i], k));
                    } else {
                        assert(!same_key(ks[i], ks[j]));
                    }
                }
            }
        },
    }
}

/// After a checked insertion of `(k1, v1)` a scan for `k` finds `v1` where
/// `k1` equals `k`, and what it found before where it does not.
pub proof fn law_lookup_inserted<K: PartialEq, V>(s: Seq<(K, V)>, k1: K, v1: V, k: K)
    requires
        lawful_eq::<K>(),
    ensures
        lookup(inserted(s, k1, v1), k) == if same_key(k1, k) {
            Some(v1)
        } else {
            lookup(s, k)
        },
        lookup(inserted(s, k1, v1), k1) == Some(v1),
{
    lemma_lookup_inserted(s, k1, v1, k);
    lemma_lookup_inserted(s, k1, v1, k1);
    assert(same_key(k1, k1));
}

proof fn lemma_lookup_inserted<K: PartialEq, V>(s: Seq<(K, V)>, k1: K, v1: V, k: K)
    requires
        lawful_eq::<K>(),
    ensures
        lookup(inserted(s, k1, v1), k) == if same_key(k1, k) {
            Some(v1)
        } else {
            lookup(s, k)
        },
{
    let ks = keys_of(s);
    let t = inserted(s, k1, v1);
    let kt = keys_of(t);
    lemma_position_is_first(ks, k1);
    lemma_position_is_first(ks, k);
    match position(ks, k1) {
        Some(p) => {
            assert(kt =~= ks);
            if same_key(k1, k) {
                assert(same_key(k, k1));
                assert(same_key(ks[p], k));
                assert forall|j: int| 0 <= j < p implies !same_key(#[trigger] kt[j], k) by {
                    if same_key(ks[j], k) {
                        assert(same_key(ks[j], k1));
                    }
                }
                lemma_position_found(kt, k, p);
            } else {
                match position(ks, k) {
                    Some(q) => {
                        if q == p {
                            assert(same_key(k1, ks[p]));
                            assert(same_key(k1, k));
                        }
                    },
                    None => {},
                }
            }
        },
        None => {
            lemma_position_some_iff_has_key(ks, k1);
            assert(kt =~= ks.push(k1));
            let n = ks.len() as int;
            if same_key(k1, k) {
                assert(same_key(k, k1));
                assert forall|j: int| 0 <= j < n implies !same_key(#[trigger] kt[j], k) by {
                    if same_key(ks[j], k) {
                        assert(same_key(ks[j], k1));
                    }
                }
                assert(same_key(kt[n], k));
                lemma_position_found(kt, k, n);
            } else {
                match position(ks, k) {
                    Some(q) => {
                        assert(kt[q] == ks[q]);
                        assert forall|j: int| 0 <= j < q implies !same_key(#[trigger] kt[j], k) by {
                            assert(kt[j] == ks[j]);
                        }
                        lemma_position_found(kt, k, q);
                    },
                    None => {
                        lemma_position_some_iff_has_key(ks, k);
                        assert forall|j: int| 0 <= j < kt.len() implies !same_key(
                            #[trigger] kt[j],
                            k,
                        ) by {
                            if j < n {
                                assert(kt[j] == ks[j]);
                            }
                        }
                        lemma_position_none(kt, k);
                    },
                }
            }
        },
    }
}

/// A deletion keeps distinct keys distinct, and where they were distinct a
/// scan for the key finds nothing afterwards.
pub proof fn law_deleted_absent<K: PartialEq, V>(s: Seq<(K, V)>, k: K)
    requires
        lawful_eq::<K>(),
        distinct(keys_of(s)),
    ensures
        distinct(keys_of(deleted(s, k))),
        lookup(deleted(s, k), k) is None,
{
    let ks = keys_of(s);
    let kt = keys_of(deleted(s, k));
    assert(kt =~= crate::set::deleted_key(ks, k));
    crate::set::law_deleted_key_absent(ks, k);
    lemma_position_none(kt, k);
}

/// A deletion of `k1` leaves a scan for any other key as it was, where the
/// keys were distinct.
pub proof fn law_lookup_deleted<K: PartialEq, V>(s: Seq<(K, V)>, k1: K, k: K)
    requires
        lawful_eq::<K>(),
        distinct(keys_of(s)),
        !same_key(k1, k),
    ensures
        lookup(deleted(s, k1), k) == lookup(s, k),
{
    let ks = keys_of(s);
    let t = deleted(s, k1);
    let kt = keys_of(t);
    let n = s.len() as int;
    lemma_position_is_first(ks, k1);
    lemma_position_is_first(ks, k);
    match position(ks, k1) {
        None => {},
        Some(p) => {
            assert(kt =~= swap_removed(ks, p));
            match position(ks, k) {
                Some(q) => {
                    if q == p {
                        assert(same_key(k1, ks[p]));
                        assert(same_key(k1, k));
                    }
                    let q2 = if q == n - 1 {
                        p
                    } else {
                        q
                    };
                    assert(kt[q2] == ks[q]);
                    assert forall|j: int| 0 <= j < q2 implies !same_key(#[trigger] kt[j], k) by {
                        if j == p {
                            if same_key(ks[n - 1], k) {
                                assert(same_key(k, ks[n - 1]));
                                assert(same_key(ks[q], ks[n - 1]));
                            }
                        } else {
                            assert(kt[j] == ks[j]);
                        }
                    }
                    lemma_position_found(kt, k, q2);
                    assert(t[q2] == s[q]);
                },
                None => {
                    lemma_position_some_iff_has_key(ks, k);
                    assert forall|j: int| 0 <= j < kt.len() implies !same_key(
                        #[trigger] kt[j],
                        k,
                    ) by {
                        if j == p {
                            assert(kt[j] == ks[n - 1]);
                        } else {
                            assert(kt[j] == ks[j]);
                        }
                    }
                    lemma_position_none(kt, k);
                },
            }
        },
    }
}

/// The keys that a checked insertion leaves are those that the insertion of
/// the key into a set of the keys leaves.
pub proof fn law_inserted_keys<K: PartialEq, V>(s: Seq<(K, V)>, k: K, v: V)
    ensures
        keys_of(inserted(s, k, v)) == crate::set::inserted_key(keys_of(s), k),
{
    let ks = keys_of(s);
    lemma_position_is_first(ks, k);
    lemma_position_some_iff_has_key(ks, k);
    assert(keys_of(inserted(s, k, v)) =~= crate::set::inserted_key(ks, k));
}

/// Inserting one by one leaves the keys in the order in which each first
/// came: the keys of the map are the set that its keys alone would make.
pub proof fn law_built_keys<K: PartialEq, V>(pairs: Seq<(K, V)>)
    ensures
        keys_of(built(pairs)) == crate::set::collected(keys_of(pairs)),
    decreases pairs.len(),
{
    if pairs.len() == 0 {
        assert(keys_of(built(pairs)) =~= crate::set::collected(keys_of(pairs)));
    } else {
        law_built_keys(pairs.drop_last());
        law_inserted_keys(built(pairs.drop_last()), pairs.last().0, pairs.last().1);
        assert(keys_of(pairs).drop_last() =~= keys_of(pairs.drop_last()));
        assert(keys_of(pairs).last() == pairs.last().0);
    }
}

/// A deletion that finds the key leaves one pair less: the last pair stands
/// in the slot of the pair that went, unless that was the last itself, and
/// every other pair stands where it stood.
pub proof fn law_deleted_slots<K: PartialEq, V>(s: Seq<(K, V)>, k: K, j: int)
    requires
        position(keys_of(s), k) is Some,
        0 <= j < s.len() - 1,
    ensures
        deleted(s, k).len() == s.len() - 1,
        deleted(s, k)[j] == if position(keys_of(s), k) == Some(j) {
            s.last()
        } else {
            s[j]
        },
{
    lemma_position_is_first(keys_of(s), k);
}

/// A scan of no pairs finds nothing.
pub proof fn law_empty_lookup<K: PartialEq, V>(k: K)
    ensures
        lookup(Seq::<(K, V)>::empty(), k) is None,
{
    lemma_position_none(keys_of(Seq::<(K, V)>::empty()), k);
}

/// Inserting one by one never leaves two equal keys, and a scan of what is
/// left finds for each key the value of the last pair that had it.
pub proof fn law_built_last_wins<K: PartialEq, V>(pairs: Seq<(K, V)>, k: K)
    requires
        lawful_eq::<K>(),
    ensures
        distinct(keys_of(built(pairs))),
        lookup(built(pairs), k) == last_value(pairs, k),
    decreases pairs.len(),
{
    if pairs.len() == 0 {
        lemma_position_none(keys_of(built(pairs)), k);
    } else {
        let init = pairs.drop_last();
        law_built_last_wins(init, k);
        law_inserted_distinct(built(init), pairs.last().0, pairs.last().1);
        lemma_lookup_inserted(built(init), pairs.last().0, pairs.last().1, k);
    }
}

/// A pair made into an entry and back into a pair is the pair it was.
pub proof fn law_pair_round_trip<K, V>(pair: (K, V))
    ensures
        <(K, V) as FromSpec<FlatMapEntry<K, V>>>::from_spec(
            <FlatMapEntry<K, V> as FromSpec<(K, V)>>::from_spec(pair),
        ) == pair,
        <FlatMapEntry<K, V> as FromSpec<(K, V)>>::from_spec(pair)@ == pair,
{
}

/// A key with its value. The key stays as it was made; the value can be
/// changed in place.
#[derive(Debug)]
pub struct FlatMapEntry<K, V> {
    key: K,
    value: V,
}

impl<K, V> View for FlatMapEntry<K, V> {
    type V = (K, V);

    closed spec fn view(&self) -> (K, V) {
        (self.key, self.value)
    }
}

impl<K, V> FlatMapEntry<K, V> {
    /// The entry that holds the pair `pair`.
    pub closed spec fn of_pair(pair: (K, V)) -> Self {
        FlatMapEntry { key: pair.0, value: pair.1 }
    }

    /// The entry of `key` and `value`.
    pub fn new(key: K, value: V) -> (e: Self)
        ensures
            e@ == (key, value),
            e == Self::of_pair((key, value)),
    {
        Self { key, value }
    }

    /// The key.
    pub fn key(&self) -> (k: &K)
        ensures
            *k == self@.0,
    {
        &self.key
    }

    /// The value.
    pub fn value(&self) -> (v: &V)
        ensures
            *v == self@.1,
    {
        &self.value
    }

    /// The value, to be changed in place; the key stays.
    pub fn value_mut(&mut self) -> (v: &mut V)
        ensures
            *v == old(self)@.1,
            final(self)@ == (old(self)@.0, *final(v)),
    {
        &mut self.value
    }
}

impl<K, V> From<(K, V)> for FlatMapEntry<K, V> {
    fn from(value: (K, V)) -> (e: Self)
        ensures
            e@ == value,
    {
        Self::new(value.0, value.1)
    }
}

impl<K, V> FromSpecImpl<(K, V)> for FlatMapEntry<K, V> {
    open spec fn obeys_from_spec() -> bool {
        true
    }

    open spec fn from_spec(v: (K, V)) -> Self {
        Self::of_pair(v)
    }
}

impl<K, V> From<FlatMapEntry<K, V>> for (K, V) {
    fn from(value: FlatMapEntry<K, V>) -> (pair: Self)
        ensures
            pair == value@,
    {
        (value.key, value.value)
    }
}

impl<K, V> FromSpecImpl<FlatMapEntry<K, V>> for (K, V) {
    open spec fn obeys_from_spec() -> bool {
        true
    }

    open spec fn from_spec(v: FlatMapEntry<K, V>) -> Self {
        v@
    }
}

/// Linear map that grows; a checked insertion keeps its keys distinct.
#[derive(Debug)]
pub struct FlatMap<K, V> {
    inner: Vec<FlatMapEntry<K, V>>,
}

impl<K, V> View for FlatMap<K, V> {
    type V = Seq<(K, V)>;

    closed spec fn view(&self) -> Seq<(K, V)> {
        pairs_of(self.inner@)
    }
}

impl<K: Eq, V> FlatMap<K, V> {
    /// No two entries have equal keys.
    pub open spec fn well_formed(&self) -> bool {
        distinct(keys_of(self@))
    }

    /// An empty map.
    pub fn new() -> (m: Self)
        ensures
            m@ == Seq::<(K, V)>::empty(),
            m.well_formed(),
    {
        Self::with_capacity(0)
    }

    /// An empty map with room for `capacity` entries.
    pub fn with_capacity(capacity: usize) -> (m: Self)
        ensures
            m@ == Seq::<(K, V)>::empty(),
            m.well_formed(),
    {
        let m = Self { inner: Vec::with_capacity(capacity) };
        assert(m@ =~= Seq::<(K, V)>::empty());
        m
    }

    /// Inserts the entries one by one: of entries with equal keys the first
    /// keeps its slot and its key, and the last gives the value.
    pub fn from_entries<I: Iterator<Item = FlatMapEntry<K, V>>>(iter: I) -> (m: Self)
        requires
            iter.obeys_prophetic_iter_laws(),
            iter.decrease() is Some,
        ensures
            K::obeys_eq_spec() ==> {
                &&& (m@ == built(pairs_of(iter.remaining())))
                &&& (m.well_formed())
                &&& (lawful_eq::<K>() ==> forall|k: K| #[trigger]
                    lookup(m@, k) == last_value(pairs_of(iter.remaining()), k))
            },
    {
        let mut iter = iter;
        let ghost all = iter.remaining();
        let ghost mut n: int = 0;
        let mut m = Self::with_capacity(size_hint_lower(&iter));
        assert(all.skip(0) == all);
        assert(pairs_of(all.take(0)) =~= Seq::<(K, V)>::empty());
        loop
            invariant
                iter.obeys_prophetic_iter_laws(),
                iter.decrease() is Some,
                0 <= n <= all.len(),
                iter.remaining() == all.skip(n),
                K::obeys_eq_spec() ==> m@ == built(pairs_of(all.take(n))) && distinct(keys_of(m@)),
            ensures
                K::obeys_eq_spec() ==> m@ == built(pairs_of(all)) && distinct(keys_of(m@)),
            decreases iter.decrease()->0,
        {
            match iter.next() {
                Some(entry) => {
                    proof {
                        assert(all.skip(n).drop_first() == all.skip(n + 1));
                        assert(pairs_of(all.take(n + 1)).drop_last() =~= pairs_of(all.take(n)));
                        assert(pairs_of(all.take(n + 1)).last() == entry@);
                        n = n + 1;
                    }
                    m.insert(entry.key, entry.value);
                },
                None => {
                    assert(all.take(n) == all);
                    break ;
                },
            }
        }
        proof {
            if lawful_eq::<K>() {
                assert forall|k: K| #[trigger]
                    lookup(m@, k) == last_value(pairs_of(all), k) by {
                    law_built_last_wins(pairs_of(all), k);
                }
            }
        }
        m
    }

    /// Inserts the pairs one by one, as `from_entries` does with entries.
    pub fn from_pairs<I: Iterator<Item = (K, V)>>(iter: I) -> (m: Self)
        requires
            iter.obeys_prophetic_iter_laws(),
            iter.decrease() is Some,
        ensures
            K::obeys_eq_spec() ==> {
                &&& (m@ == built(iter.remaining()))
                &&& (m.well_formed())
                &&& (lawful_eq::<K>() ==> forall|k: K| #[trigger]
                    lookup(m@, k) == last_value(iter.remaining(), k))
            },
    {
        let mut iter = iter;
        let ghost all = iter.remaining();
        let ghost mut n: int = 0;
        let mut m = Self::with_capacity(size_hint_lower(&iter));
        assert(all.skip(0) == all);
        loop
            invariant
                iter.obeys_prophetic_iter_laws(),
                iter.decrease() is Some,
                0 <= n <= all.len(),
                iter.remaining() == all.skip(n),
                K::obeys_eq_spec() ==> m@ == built(all.take(n)) && distinct(keys_of(m@)),
            ensures
                K::obeys_eq_spec() ==> m@ == built(all) && distinct(keys_of(m@)),
            decreases iter.decrease()->0,
        {
            match iter.next() {
                Some(pair) => {
                    proof {
                        assert(all.skip(n).drop_first() == all.skip(n + 1));
                        assert(all.take(n + 1).drop_last() == all.take(n));
                        assert(all.take(n + 1).last() == pair);
                        n = n + 1;
                    }
                    let entry = FlatMapEntry::from(pair);
                    m.insert(entry.key, entry.value);
                },
                None => {
                    assert(all.take(n) == all);
                    break ;
                },
            }
        }
        proof {
            if lawful_eq::<K>() {
                assert forall|k: K| #[trigger] lookup(m@, k) == last_value(all, k) by {
                    law_built_last_wins(all, k);
                }
            }
        }
        m
    }

    /// Takes the entries as they come, slot by slot, and compares no keys:
    /// entries whose keys the caller knows to be distinct.
    pub fn from_entries_unchecked<I: Iterator<Item = FlatMapEntry<K, V>>>(iter: I) -> (m: Self)
        requires
            iter.obeys_prophetic_iter_laws(),
            iter.decrease() is Some,
        ensures
            m@ == pairs_of(iter.remaining()),
    {
        let mut iter = iter;
        let ghost all = iter.remaining();
        let ghost mut n: int = 0;
        let mut inner: Vec<FlatMapEntry<K, V>> = Vec::new();
        assert(all.skip(0) == all);
        loop
            invariant
                iter.obeys_prophetic_iter_laws(),
                iter.decrease() is Some,
                0 <= n <= all.len(),
                iter.remaining() == all.skip(n),
                inner@ == all.take(n),
            ensures
                inner@ == all,
            decreases iter.decrease()->0,
        {
            match iter.next() {
                Some(entry) => {
                    proof {
                        assert(all.skip(n).drop_first() == all.skip(n + 1));
                        assert(all.take(n).push(entry) == all.take(n + 1));
                        n = n + 1;
                    }
                    inner.push(entry);
                },
                None => {
                    assert(all.take(n) == all);
                    break ;
                },
            }
        }
        Self { inner }
    }

    /// The value of the first entry whose key equals `k`.
    pub fn get(&self, k: &K) -> (r: Option<&V>)
        ensures
            K::obeys_eq_spec() ==> {
                &&& (match r {
                    Some(v) => lookup(self@, *k) == Some(*v),
                    None => lookup(self@, *k) is None,
                })
            },
    {
        let mut i: usize = 0;
        while i < self.inner.len()
            invariant
                i <= self.inner.len(),
                K::obeys_eq_spec() ==> (forall|j: int|
                    0 <= j < i ==> !same_key(#[trigger] keys_of(self@)[j], *k)),
            decreases self.inner.len() - i,
        {
            if self.inner[i].key == *k {
                proof {
                    if K::obeys_eq_spec() {
                        assert(is_first_match(keys_of(self@), *k, i as int));
                        lemma_position_found(keys_of(self@), *k, i as int);
                    }
                }
                return Some(&self.inner[i].value);
            }
            i += 1;
        }
        proof {
            if K::obeys_eq_spec() {
                lemma_position_none(keys_of(self@), *k);
            }
        }
        None
    }

    /// Gives the first entry whose key equals `k` the value `v` and returns
    /// the value it had; where there is no such entry, puts `(k, v)` at the end.
    pub fn insert(&mut self, k: K, v: V) -> (r: Option<V>)
        ensures
            K::obeys_eq_spec() ==> {
                &&& (r == lookup(old(self)@, k))
                &&& (final(self)@ == inserted(old(self)@, k, v))
                &&& (r is Some ==> final(self)@.len() == old(self)@.len())
                &&& (r is None ==> final(self)@.len() == old(self)@.len() + 1)
                &&& (old(self).well_formed() ==> final(self).well_formed())
            },
    {
        let mut i: usize = 0;
        while i < self.inner.len()
            invariant
                *self == *old(self),
                i <= self.inner.len(),
                K::obeys_eq_spec() ==> (forall|j: int|
                    0 <= j < i ==> !same_key(#[trigger] keys_of(self@)[j], k)),
            decreases self.inner.len() - i,
        {
            if self.inner[i].key == k {
                proof {
                    if K::obeys_eq_spec() {
                        assert(is_first_match(keys_of(self@), k, i as int));
                        lemma_position_found(keys_of(self@), k, i as int);
                        law_inserted_distinct(self@, k, v);
                    }
                }
                let mut new_value = v;
                std::mem::swap(&mut self.inner[i].value, &mut new_value);
                assert(self@ =~= old(self)@.update(i as int, (old(self)@[i as int].0, v)));
                return Some(new_value);
            }
            i += 1;
        }
        proof {
            if K::obeys_eq_spec() {
                lemma_position_none(keys_of(self@), k);
                law_inserted_distinct(self@, k, v);
            }
        }
        self.inner.push(FlatMapEntry::new(k, v));
        assert(self@ =~= old(self)@.push((k, v)));
        None
    }

    /// Removes the first entry whose key equals `k`, moving the last entry
    /// into its slot, and returns its value.
    pub fn delete(&mut self, k: &K) -> (r: Option<V>)
        ensures
            K::obeys_eq_spec() ==> {
                &&& (r == lookup(old(self)@, *k))
                &&& (final(self)@ == deleted(old(self)@, *k))
                &&& (lawful_eq::<K>() && old(self).well_formed() ==> final(self).well_formed() && lookup(
                    final(self)@,
                    *k,
                ) is None)
            },
    {
        let mut i: usize = 0;
        while i < self.inner.len()
            invariant
                *self == *old(self),
                i <= self.inner.len(),
                K::obeys_eq_spec() ==> (forall|j: int|
                    0 <= j < i ==> !same_key(#[trigger] keys_of(self@)[j], *k)),
            decreases self.inner.len() - i,
        {
            if self.inner[i].key == *k {
                proof {
                    if K::obeys_eq_spec() {
                        assert(is_first_match(keys_of(self@), *k, i as int));
                        lemma_position_found(keys_of(self@), *k, i as int);
                        if lawful_eq::<K>() && distinct(keys_of(self@)) {
                            law_deleted_absent(self@, *k);
                        }
                    }
                }
                let entry = self.inner.swap_remove(i);
                assert(self@ =~= swap_removed(old(self)@, i as int));
                return Some(entry.value);
            }
            i += 1;
        }
        proof {
            if K::obeys_eq_spec() {
                lemma_position_none(keys_of(self@), *k);
            }
        }
        None
    }

    /// The entries in storage order.
    pub fn iter(&self) -> (it: core::slice::Iter<'_, FlatMapEntry<K, V>>)
        ensures
            pairs_of(it.remaining().unref()) == self@,
            it.decrease() is Some,
            it.initial_value_relation(&it),
    {
        broadcast use vstd::std_specs::slice::axiom_spec_slice_iter;

        let it = self.inner.as_slice().iter();
        assert(it.remaining().unref() =~= self.inner@);
        it
    }

    /// Gives back the room that no entry uses; the entries stay as they are.
    pub fn shrink_to_fit(&mut self)
        ensures
            final(self)@ == old(self)@,
            final(self).well_formed() == old(self).well_formed(),
    {
        shrink_vec(&mut self.inner);
    }
}

impl<K, V> Default for FlatMap<K, V> {
    /// An empty map.
    fn default() -> (m: Self)
        ensures
            m@ == Seq::<(K, V)>::empty(),
    {
        let m = Self { inner: Vec::new() };
        assert(m@ =~= Seq::<(K, V)>::empty());
        m
    }
}

/// Pairs that agree with `s` slot by slot in their keys have the keys of `s`.
proof fn lemma_same_keys<K, V>(s: Seq<(K, V)>)
    ensures
        forall|t: Seq<(K, V)>|
            t.len() == s.len() && (forall|i: int| 0 <= i < t.len() ==> (#[trigger] t[i]).0 == s[i].0)
                ==> #[trigger] keys_of(t) == keys_of(s),
{
    assert forall|t: Seq<(K, V)>|
        t.len() == s.len() && (forall|i: int|
            0 <= i < t.len() ==> (#[trigger] t[i]).0 == s[i].0) implies #[trigger] keys_of(t)
        == keys_of(s) by {
        assert(keys_of(t) =~= keys_of(s));
    }
}

/// The values of the entries that `it` yields, in its order, each to be
/// changed in place. Each entry keeps its key and ends with the value that
/// its reference was left with.
fn value_refs<'a, K: 'a, V: 'a, I: Iterator<Item = &'a mut FlatMapEntry<K, V>>>(it: I) -> (out: Vec<
    &'a mut V,
>)
    requires
        it.obeys_prophetic_iter_laws(),
        it.decrease() is Some,
    ensures
        out@.len() == it.remaining().len(),
        forall|i: int|
            #![trigger out@[i]]
            #![trigger it.remaining()[i]]
            0 <= i < out@.len() ==> {
                &&& *out@[i] == (*it.remaining()[i])@.1
                &&& (*final(it.remaining()[i]))@ == ((*it.remaining()[i])@.0, *final(out@[i]))
            },
{
    let mut it = it;
    let ghost all = it.remaining();
    let ghost mut n: int = 0;
    let mut out: Vec<&'a mut V> = Vec::new();
    assert(all.skip(0) == all);
    loop
        invariant
            it.obeys_prophetic_iter_laws(),
            it.decrease() is Some,
            0 <= n <= all.len(),
            it.remaining() == all.skip(n),
            out@.len() == n,
            forall|i: int|
                0 <= i < n ==> {
                    &&& *#[trigger] out@[i] == (*all[i])@.1
                    &&& (*final(all[i]))@ == ((*all[i])@.0, *final(out@[i]))
                },
        ensures
            out@.len() == all.len(),
            forall|i: int|
                #![trigger out@[i]]
                #![trigger all[i]]
                0 <= i < all.len() ==> {
                    &&& *out@[i] == (*all[i])@.1
                    &&& (*final(all[i]))@ == ((*all[i])@.0, *final(out@[i]))
                },
        decreases it.decrease()->0,
    {
        match it.next() {
            Some(entry) => {
                proof {
                    assert(all.skip(n).drop_first() == all.skip(n + 1));
                    assert(entry == all[n]);
                    n = n + 1;
                }
                let value = entry.value_mut();
                out.push(value);
            },
            None => {
                break ;
            },
        }
    }
    out
}

impl<K: Eq, V> FlatMap<K, V> {
    /// The values in storage order, each to be changed in place. The keys
    /// stay; in the end each entry holds the value that its reference was
    /// left with.
    pub fn iter_mut(&mut self) -> (it: std::vec::IntoIter<&mut V>)
        ensures
            it.decrease() is Some,
            it.initial_value_relation(&it),
            it.remaining().len() == old(self)@.len(),
            forall|i: int|
                0 <= i < old(self)@.len() ==> *#[trigger] it.remaining()[i] == old(self)@[i].1,
            final(self)@.len() == old(self)@.len(),
            forall|i: int|
                0 <= i < old(self)@.len() ==> #[trigger] final(self)@[i] == (
                    old(self)@[i].0,
                    *final(it.remaining()[i]),
                ),
            keys_of(final(self)@) == keys_of(old(self)@),
            old(self).well_formed() ==> final(self).well_formed(),
    {
        broadcast use vstd::std_specs::vec::axiom_spec_into_iter;

        proof {
            lemma_same_keys(self@);
        }
        let entries = vec_iter_mut(&mut self.inner);
        let values = value_refs(entries);
        values.into_iter()
    }
}

impl<K, V> IntoIterator for FlatMap<K, V> {
    type Item = FlatMapEntry<K, V>;

    type IntoIter = std::vec::IntoIter<FlatMapEntry<K, V>>;

    /// The entries in storage order, handed over.
    fn into_iter(self) -> (it: Self::IntoIter)
        ensures
            pairs_of(it.remaining()) == self@,
            it.decrease() is Some,
            it.initial_value_relation(&it),
    {
        broadcast use vstd::std_specs::vec::axiom_spec_into_iter;

        self.inner.into_iter()
    }
}

/// Linear map of `N` entries, the same for its lifetime.
pub struct ConstantFlatMap<K, V, const N: usize> {
    inner: [FlatMapEntry<K, V>; N],
}

impl<K, V, const N: usize> View for ConstantFlatMap<K, V, N> {
    type V = Seq<(K, V)>;

    closed spec fn view(&self) -> Seq<(K, V)> {
        pairs_of(self.inner@)
    }
}

impl<K, V, const N: usize> ConstantFlatMap<K, V, N> {
    /// The map that holds the entries `entries`, slot by slot.
    pub closed spec fn of_entries(entries: [FlatMapEntry<K, V>; N]) -> Self {
        ConstantFlatMap { inner: entries }
    }

    /// The map that holds the pairs `pairs`, slot by slot.
    pub closed spec fn of_pairs(pairs: [(K, V); N]) -> Self {
        choose|m: Self| m@ == pairs@
    }
}

impl<K, V, const N: usize> From<[FlatMapEntry<K, V>; N]> for ConstantFlatMap<K, V, N> {
    /// Takes the entries as they are and compares no keys.
    fn from(entries: [FlatMapEntry<K, V>; N]) -> (m: Self)
        ensures
            m@ == pairs_of(entries@),
    {
        Self { inner: entries }
    }
}

impl<K, V, const N: usize> FromSpecImpl<[FlatMapEntry<K, V>; N]> for ConstantFlatMap<K, V, N> {
    open spec fn obeys_from_spec() -> bool {
        true
    }

    open spec fn from_spec(v: [FlatMapEntry<K, V>; N]) -> Self {
        Self::of_entries(v)
    }
}

impl<K, V, const N: usize> From<[(K, V); N]> for ConstantFlatMap<K, V, N> {
    /// Takes the pairs as they are and compares no keys.
    fn from(entries: [(K, V); N]) -> (m: Self)
        ensures
            m@ == entries@,
    {
        let inner = entries_of_pairs(entries);
        let m = Self { inner };
        proof {
            assert(m@ == entries@);
            let other = Self::of_pairs(entries);
            assert(other@ == entries@);
            assert forall|i: int| 0 <= i < N implies other.inner@[i] == m.inner@[i] by {
                assert(other@[i] == m@[i]);
            }
            assert(other.inner =~= m.inner);
        }
        m
    }
}

impl<K, V, const N: usize> FromSpecImpl<[(K, V); N]> for ConstantFlatMap<K, V, N> {
    open spec fn obeys_from_spec() -> bool {
        true
    }

    open spec fn from_spec(v: [(K, V); N]) -> Self {
        Self::of_pairs(v)
    }
}

impl<K: Eq, V, const N: usize> ConstantFlatMap<K, V, N> {
    /// No two entries have equal keys.
    pub open spec fn well_formed(&self) -> bool {
        distinct(keys_of(self@))
    }

    /// The value of the first entry whose key equals `key`.
    pub fn get(&self, key: &K) -> (r: Option<&V>)
        ensures
            K::obeys_eq_spec() ==> {
                &&& (match r {
                    Some(v) => lookup(self@, *key) == Some(*v),
                    None => lookup(self@, *key) is None,
                })
            },
    {
        let mut i: usize = 0;
        while i < N
            invariant
                i <= N,
                self.inner@.len() == N,
                K::obeys_eq_spec() ==> (forall|j: int|
                    0 <= j < i ==> !same_key(#[trigger] keys_of(self@)[j], *key)),
            decreases N - i,
        {
            if self.inner[i].key == *key {
                proof {
                    if K::obeys_eq_spec() {
                        assert(is_first_match(keys_of(self@), *key, i as int));
                        lemma_position_found(keys_of(self@), *key, i as int);
                    }
                }
                return Some(&self.inner[i].value);
            }
            i += 1;
        }
        proof {
            if K::obeys_eq_spec() {
                lemma_position_none(keys_of(self@), *key);
            }
        }
        None
    }

    /// Compares the keys of every two entries, in the order of their slots.
    /// The first two that are equal are returned, and no map is made; where
    /// all are distinct the map holds the entries as they came.
    pub fn from_entries(entries: [FlatMapEntry<K, V>; N]) -> (r: Result<Self, (usize, usize)>)
        ensures
            K::obeys_eq_spec() ==> {
                &&& (match r {
                    Ok(m) => m@ == pairs_of(entries@) && m.well_formed(),
                    Err((i, j)) => is_first_collision(
                        keys_of(pairs_of(entries@)),
                        i as int,
                        j as int,
                    ),
                })
            },
    {
        let ghost keys = keys_of(pairs_of(entries@));
        let mut i: usize = 0;
        while i < N
            invariant
                i <= N,
                entries@.len() == N,
                keys == keys_of(pairs_of(entries@)),
                K::obeys_eq_spec() ==> (forall|a: int, b: int|
                    0 <= a < b < N && a < i ==> !same_key(#[trigger] keys[a], #[trigger] keys[b])),
            decreases N - i,
        {
            let mut j: usize = i + 1;
            while j < N
                invariant
                    i < j <= N,
                    entries@.len() == N,
                    keys == keys_of(pairs_of(entries@)),
                    K::obeys_eq_spec() ==> (forall|a: int, b: int|
                        0 <= a < b < N && a < i ==> !same_key(
                            #[trigger] keys[a],
                            #[trigger] keys[b],
                        )),
                    K::obeys_eq_spec() ==> (forall|b: int|
                        i < b < j ==> !same_key(keys[i as int], #[trigger] keys[b])),
                decreases N - j,
            {
                if entries[i].key == entries[j].key {
                    assert(K::obeys_eq_spec() ==> same_key(keys[i as int], keys[j as int]));
                    return Err((i, j));
                }
                j += 1;
            }
            i += 1;
        }
        Ok(Self::from_entries_unchecked(entries))
    }

    /// Takes the entries as they are and compares no keys: entries whose keys
    /// the caller knows to be distinct.
    pub fn from_entries_unchecked(entries: [FlatMapEntry<K, V>; N]) -> (m: Self)
        ensures
            m@ == pairs_of(entries@),
    {
        Self { inner: entries }
    }

    /// The entries in storage order.
    pub fn iter(&self) -> (it: core::slice::Iter<'_, FlatMapEntry<K, V>>)
        ensures
            pairs_of(it.remaining().unref()) == self@,
            it.decrease() is Some,
            it.initial_value_relation(&it),
    {
        broadcast use vstd::std_specs::slice::axiom_spec_slice_iter;

        let it = self.inner.as_slice().iter();
        assert(it.remaining().unref() =~= self.inner@);
        it
    }

    /// The values in storage order, each to be changed in place. The keys
    /// stay; in the end each entry holds the value that its reference was
    /// left with.
    pub fn iter_mut(&mut self) -> (it: std::vec::IntoIter<&mut V>)
        ensures
            it.decrease() is Some,
            it.initial_value_relation(&it),
            it.remaining().len() == N,
            forall|i: int| 0 <= i < N ==> *#[trigger] it.remaining()[i] == old(self)@[i].1,
            final(self)@.len() == N,
            forall|i: int|
                0 <= i < N ==> #[trigger] final(self)@[i] == (
                    old(self)@[i].0,
                    *final(it.remaining()[i]),
                ),
            keys_of(final(self)@) == keys_of(old(self)@),
            old(self).well_formed() ==> final(self).well_formed(),
    {
        broadcast use vstd::std_specs::vec::axiom_spec_into_iter;

        proof {
            lemma_same_keys(self@);
        }
        let entries = array_iter_mut(&mut self.inner);
        let values = value_refs(entries);
        values.into_iter()
    }
}

} // verus!
