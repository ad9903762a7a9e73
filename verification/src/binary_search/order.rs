//! The order of an `Ord` type as contracts see it, and sortedness under it.

use core::cmp::Ordering;
use vstd::prelude::*;
use vstd::std_specs::cmp::{PartialEqSpec, PartialOrdSpec};

verus! {

/// `a` is less than `b`.
pub open spec fn lt<T: Ord>(a: T, b: T) -> bool {
    a.partial_cmp_spec(&b) == Some(Ordering::Less)
}

/// `a` is less than `b` or equal to it.
pub open spec fn le<T: Ord>(a: T, b: T) -> bool {
    a.partial_cmp_spec(&b) == Some(Ordering::Less) || a.partial_cmp_spec(&b) == Some(Ordering::Equal)
}

/// `a` and `b` are equal.
pub open spec fn eq<T: Ord>(a: T, b: T) -> bool {
    a.partial_cmp_spec(&b) == Some(Ordering::Equal)
}

/// The comparisons of `T` compute a total order: any two values compare,
/// `==` holds of the values that compare as equal, `a < b` is `b > a`, and
/// `<` carries over `<=` on either side.
pub open spec fn is_total_order<T: Ord>() -> bool {
    &&& T::obeys_eq_spec()
    &&& T::obeys_partial_cmp_spec()
    &&& forall|a: T, b: T| #[trigger] a.partial_cmp_spec(&b) is Some
    &&& forall|a: T, b: T| #[trigger] a.eq_spec(&b) <==> eq(a, b)
    &&& forall|a: T, b: T| #[trigger] lt(a, b) <==> b.partial_cmp_spec(&a) == Some(Ordering::Greater)
    &&& forall|a: T, b: T, c: T| #[trigger] le(a, b) && #[trigger] lt(b, c) ==> lt(a, c)
    &&& forall|a: T, b: T, c: T| #[trigger] lt(a, b) && #[trigger] le(b, c) ==> lt(a, c)
}

/// No element of `s` is greater than a later one.
pub open spec fn sorted<T: Ord>(s: Seq<T>) -> bool {
    forall|i: int, j: int| 0 <= i <= j < s.len() ==> le(s[i], s[j])
}

/// `i` is the first index of `s` whose element is not less than `x`,
/// or the length of `s` where every element is less.
pub open spec fn first_not_less<T: Ord>(s: Seq<T>, x: T, i: int) -> bool {
    &&& 0 <= i <= s.len()
    &&& forall|j: int| 0 <= j < i ==> lt(#[trigger] s[j], x)
    &&& forall|j: int| i <= j < s.len() ==> !lt(#[trigger] s[j], x)
}

/// `i` is the first index of `s` whose element is greater than `x`,
/// or the length of `s` where no element is greater.
pub open spec fn first_greater<T: Ord>(s: Seq<T>, x: T, i: int) -> bool {
    &&& 0 <= i <= s.len()
    &&& forall|j: int| 0 <= j < i ==> !lt(x, #[trigger] s[j])
    &&& forall|j: int| i <= j < s.len() ==> lt(x, #[trigger] s[j])
}

} // verus!
