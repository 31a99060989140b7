//! Sorting of `(key, index)` pairs, done by glidesort.
use vstd::prelude::*;

verus! {

/// `a` comes no later than `b` in the order of pairs: by key, then by index.
pub open spec fn pair_le(a: (u128, usize), b: (u128, usize)) -> bool {
    a.0 < b.0 || (a.0 == b.0 && a.1 <= b.1)
}

/// The pairs are in ascending order.
pub open spec fn pairs_sorted(v: Seq<(u128, usize)>) -> bool {
    forall|i: int, j: int| 0 <= i < j < v.len() ==> pair_le(#[trigger] v[i], #[trigger] v[j])
}

/// Relies on `glidesort::sort`: it sorts the slice in place into ascending order under the
/// element type's `Ord` (for a tuple, by its first field and then its second), keeping
/// every element.
#[verifier::external_body]
pub(crate) fn sort_pairs(v: &mut Vec<(u128, usize)>)
    ensures
        final(v)@.to_multiset() == old(v)@.to_multiset(),
        pairs_sorted(final(v)@),
{
    glidesort::sort(v.as_mut_slice())
}

} // verus!
