//! Binary search in an ordered slice.

use crate::order::{equiv, is_total_order, lemma_le_then_lt, lt, precedes, same_place};
use crate::sorted::{
    lemma_occurs_at_lower_bound, lemma_split_is_lower_bound, lower_bound, occurs, sorted,
};
use vstd::prelude::*;

verus! {

/// Looks for an element in the place of `elem` by halving the range that can
/// hold it.
///
/// `Ok(k)`: `items[k]` takes the place of `elem`, and is the first element to
/// do so. `Err(k)`: no element does, and `k` is where `elem` belongs. Either
/// way `k` is the number of elements strictly before `elem`.
pub fn binary_search<T: Ord>(items: &[T], elem: &T) -> (r: Result<usize, usize>)
    requires
        is_total_order::<T>(),
        sorted(items@),
    ensures
        match r {
            Ok(k) => {
                &&& k == lower_bound(items@, *elem)
                &&& occurs(items@, *elem)
                &&& k < items@.len()
                &&& equiv(items@[k as int], *elem)
            },
            Err(k) => {
                &&& k == lower_bound(items@, *elem)
                &&& !occurs(items@, *elem)
                &&& k <= items@.len()
            },
        },
{
    let mut lo: usize = 0;
    let mut hi: usize = items.len();
    while lo < hi
        invariant
            is_total_order::<T>(),
            sorted(items@),
            lo <= hi <= items@.len(),
            forall|i: int| 0 <= i < lo ==> lt(#[trigger] items@[i], *elem),
            forall|i: int| hi <= i < items@.len() ==> !lt(#[trigger] items@[i], *elem),
        decreases hi - lo,
    {
        let mid = lo + (hi - lo) / 2;
        if precedes(&items[mid], elem) {
            proof {
                assert forall|i: int| 0 <= i < mid implies lt(#[trigger] items@[i], *elem) by {
                    lemma_le_then_lt(items@[i], items@[mid as int], *elem);
                }
            }
            lo = mid + 1;
        } else {
            proof {
                assert forall|i: int| mid < i < items@.len() implies !lt(
                    #[trigger] items@[i],
                    *elem,
                ) by {
                    if lt(items@[i], *elem) {
                        lemma_le_then_lt(items@[mid as int], items@[i], *elem);
                    }
                }
            }
            hi = mid;
        }
    }
    proof {
        lemma_split_is_lower_bound(items@, *elem, lo as int);
        lemma_occurs_at_lower_bound(items@, *elem);
    }
    if lo < items.len() && same_place(&items[lo], elem) {
        Ok(lo)
    } else {
        Err(lo)
    }
}

} // verus!
