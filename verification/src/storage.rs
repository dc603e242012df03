//! The calls into the standard library for which nothing is proved here:
//! each is stated as its documentation gives it.

use crate::map::{pairs_of, FlatMapEntry};
use vstd::prelude::*;
use vstd::std_specs::iter::IteratorSpec;

verus! {

/// `core::slice::IterMut`, the iterator that `iter_mut` of a slice returns.
#[verifier::external_type_specification]
#[verifier::external_body]
#[verifier::reject_recursive_types(T)]
pub struct ExIterMut<'a, T: 'a>(core::slice::IterMut<'a, T>);

/// `Vec::shrink_to_fit`: drops spare capacity and leaves the items of the
/// vector, and their order, as they are.
#[verifier::external_body]
pub(crate) fn shrink_vec<T>(v: &mut Vec<T>)
    ensures
        final(v)@ == old(v)@,
{
    v.shrink_to_fit()
}

/// `iter_mut` of the slice that a vector holds. The iterator hands out a
/// mutable reference to each item, from the first slot to the last, and then
/// ends. When the borrow is over, each slot holds what its reference was
/// left with, so there are as many items as before.
#[verifier::external_body]
pub(crate) fn vec_iter_mut<'a, T>(v: &'a mut Vec<T>) -> (it: core::slice::IterMut<'a, T>)
    ensures
        it.obeys_prophetic_iter_laws(),
        it.decrease() is Some,
        it.remaining().len() == old(v)@.len(),
        forall|i: int| 0 <= i < old(v)@.len() ==> *#[trigger] it.remaining()[i] == old(v)@[i],
        final(v)@.len() == old(v)@.len(),
        forall|i: int|
            0 <= i < old(v)@.len() ==> #[trigger] final(v)@[i] == *final(it.remaining()[i]),
{
    v.iter_mut()
}

/// `iter_mut` of an array, taken as a slice. The iterator hands out a mutable
/// reference to each item, from the first slot to the last, and then ends.
/// When the borrow is over, each slot holds what its reference was left with.
#[verifier::external_body]
pub(crate) fn array_iter_mut<'a, T, const N: usize>(a: &'a mut [T; N]) -> (it: core::slice::IterMut<
    'a,
    T,
>)
    ensures
        it.obeys_prophetic_iter_laws(),
        it.decrease() is Some,
        it.remaining().len() == N,
        forall|i: int| 0 <= i < N ==> *#[trigger] it.remaining()[i] == old(a)@[i],
        forall|i: int| 0 <= i < N ==> #[trigger] final(a)@[i] == *final(it.remaining()[i]),
{
    a.iter_mut()
}

/// The lower bound of `Iterator::size_hint`: a guess at how many items are
/// to come. Nothing is claimed of it.
#[verifier::external_body]
pub(crate) fn size_hint_lower<I: Iterator>(iter: &I) -> (n: usize) {
    iter.size_hint().0
}

/// The array method `map`, with `FlatMapEntry::from` as its function: the
/// entry of each pair, in the slot of the pair.
#[verifier::external_body]
pub(crate) fn entries_of_pairs<K, V, const N: usize>(pairs: [(K, V); N]) -> (entries: [FlatMapEntry<
    K,
    V,
>; N])
    ensures
        pairs_of(entries@) == pairs@,
{
    pairs.map(FlatMapEntry::from)
}

} // verus!
