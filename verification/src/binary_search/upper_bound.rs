//! The first position of a sorted slice whose element is greater than a
//! given value.

use crate::binary_search::order::{first_greater, is_total_order, le, lt, sorted};
use vstd::prelude::*;

verus! {

/// Searching a sorted sequence for the first element greater than a value.
pub trait UpperBound<T: Ord> {
    /// The elements that are searched, in order.
    spec fn elements(&self) -> Seq<T>;

    /// Finds the first index `i` with `self[i] > x`, or the length where
    /// there is none.
    ///
    /// The element at that index is never `x` itself, so the index always
    /// comes as `Err(i)`: inserting `x` at `i` keeps the elements sorted, and
    /// puts it behind every occurrence of `x`.
    fn upper_bound(&self, x: &T) -> (res: Result<usize, usize>)
        requires
            is_total_order::<T>(),
            sorted(self.elements()),
        ensures
            res is Err,
            first_greater(self.elements(), *x, res->Err_0 as int),
    ;
}

impl<T: Ord> UpperBound<T> for [T] {
    open spec fn elements(&self) -> Seq<T> {
        self@
    }

    fn upper_bound(&self, x: &T) -> (res: Result<usize, usize>) {
        let mut low: usize = 0;
        let mut high: usize = self.len();
        while low < high
            invariant
                is_total_order::<T>(),
                sorted(self@),
                0 <= low <= high <= self@.len(),
                forall|j: int| 0 <= j < low ==> !lt(*x, #[trigger] self@[j]),
                forall|j: int| high <= j < self@.len() ==> lt(*x, #[trigger] self@[j]),
            decreases high - low,
        {
            let mid = low + (high - low) / 2;
            if self[mid] > *x {
                proof {
                    assert(lt(*x, self@[mid as int]));
                    assert forall|j: int| mid <= j < self@.len() implies lt(*x, #[trigger] self@[j]) by {
                        assert(le(self@[mid as int], self@[j]));
                    }
                }
                high = mid;
            } else {
                proof {
                    assert(!lt(*x, self@[mid as int]));
                    assert forall|j: int| 0 <= j < mid + 1 implies !lt(*x, #[trigger] self@[j]) by {
                        assert(le(self@[j], self@[mid as int]));
                    }
                }
                low = mid + 1;
            }
        }
        if high < self.len() && self[high] == *x {
            Ok(high)
        } else {
            Err(high)
        }
    }
}

} // verus!
