//! The first position of a sorted slice whose element is not less than a
//! given value.

use crate::binary_search::order::{eq, first_not_less, is_total_order, le, lt, sorted};
use vstd::prelude::*;

verus! {

/// Searching a sorted sequence for the first element not less than a value.
pub trait LowerBound<T: Ord> {
    /// The elements that are searched, in order.
    spec fn elements(&self) -> Seq<T>;

    /// Finds the first index `i` with `self[i] >= x`, or the length where
    /// there is none.
    ///
    /// The index comes as `Ok(i)` where `self[i] == x`: it is then the first
    /// occurrence of `x`. Otherwise it comes as `Err(i)`: inserting `x` at
    /// `i` keeps the elements sorted.
    fn lower_bound(&self, x: &T) -> (res: Result<usize, usize>)
        requires
            is_total_order::<T>(),
            sorted(self.elements()),
        ensures
            match res {
                Ok(i) => {
                    &&& first_not_less(self.elements(), *x, i as int)
                    &&& i < self.elements().len()
                    &&& eq(self.elements()[i as int], *x)
                },
                Err(i) => {
                    &&& first_not_less(self.elements(), *x, i as int)
                    &&& i < self.elements().len() ==> !eq(self.elements()[i as int], *x)
                },
            },
    ;
}

impl<T: Ord> LowerBound<T> for [T] {
    open spec fn elements(&self) -> Seq<T> {
        self@
    }

    fn lower_bound(&self, x: &T) -> (res: Result<usize, usize>) {
        let mut low: usize = 0;
        let mut high: usize = self.len();
        while low < high
            invariant
                is_total_order::<T>(),
                sorted(self@),
                0 <= low <= high <= self@.len(),
                forall|j: int| 0 <= j < low ==> lt(#[trigger] self@[j], *x),
                forall|j: int| high <= j < self@.len() ==> !lt(#[trigger] self@[j], *x),
            decreases high - low,
        {
            let mid = low + (high - low) / 2;
            if self[mid] >= *x {
                proof {
                    assert forall|j: int| mid <= j < self@.len() implies !lt(#[trigger] self@[j], *x) by {
                        assert(le(self@[mid as int], self@[j]));
                    }
                }
                high = mid;
            } else {
                proof {
                    assert(lt(self@[mid as int], *x));
                    assert forall|j: int| 0 <= j < mid + 1 implies lt(#[trigger] self@[j], *x) by {
                        assert(le(self@[j], self@[mid as int]));
                    }
                }
                low = mid + 1;
            }
        }
        if high < self.len() && self[high] == *x {
            Ok(high)
        } else {
            Err(high)
        }
    }
}

} // verus!
