//! Sorting on the worker pool.
//!
//! The sort is `rayon`'s parallel unstable sort. Verus cannot look inside
//! it, so the one call into it goes through the function below, whose
//! contract is taken from the sort's documentation and is not proved here.

use rayon::slice::ParallelSliceMut;
use vstd::prelude::*;

verus! {

/// `a` comes no later than `b` when pairs are ordered by their first part
/// and, among equals, by their second.
pub open spec fn pair_le(a: (u64, usize), b: (u64, usize)) -> bool {
    a.0 < b.0 || (a.0 == b.0 && a.1 <= b.1)
}

/// `par_sort_unstable` on a slice of pairs: the pairs are put in ascending
/// order, first part before second, and none is added or lost.
#[verifier::external_body]
pub(crate) fn sort_pairs(pairs: &mut Vec<(u64, usize)>)
    ensures
        final(pairs)@.to_multiset() == old(pairs)@.to_multiset(),
        forall|i: int, j: int|
            0 <= i <= j < final(pairs)@.len() ==> pair_le(
                #[trigger] final(pairs)@[i],
                #[trigger] final(pairs)@[j],
            ),
{
    pairs.par_sort_unstable();
}

} // verus!
