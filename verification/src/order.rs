//! The order of a type, as the containers that rely on one see it.

use std::cmp::Ordering;
use vstd::prelude::*;
use vstd::std_specs::cmp::{OrdSpec, PartialOrdSpec};

verus! {

/// Whether `a` comes before `b`.
pub open spec fn before<T: PartialOrd>(a: T, b: T) -> bool {
    a.partial_cmp_spec(&b) == Some(Ordering::Less)
}

/// Whether the order of `T` is total and its comparisons tell it: of two
/// values one comes before the other or they are the same value, and what
/// comes before something that comes before a third comes before the third.
pub open spec fn total_order<T: PartialOrd>() -> bool {
    &&& T::obeys_partial_cmp_spec()
    &&& forall|a: T, b: T| #[trigger] before(a, b) ==> !before(b, a) && a != b
    &&& forall|a: T, b: T| #[trigger] before(a, b) || a == b || before(b, a)
    &&& forall|a: T, b: T, c: T| #[trigger] before(a, b) && #[trigger] before(b, c) ==> before(a, c)
}

/// Whether the two comparisons of `T` are one order: `cmp` gives what its
/// contract says, and that is what `partial_cmp` gives. A sort of std goes
/// by `cmp`, so this is what ties its result to `before`.
pub open spec fn one_order<T: Ord>() -> bool {
    &&& T::obeys_cmp_spec()
    &&& forall|a: T, b: T| #[trigger] a.partial_cmp_spec(&b) == Some(a.cmp_spec(&b))
}

/// Whether `a` comes before `b`.
pub fn is_before<T: PartialOrd>(a: &T, b: &T) -> (r: bool)
    requires
        T::obeys_partial_cmp_spec(),
    ensures
        r == before(*a, *b),
{
    *a < *b
}

/// The integers are totally ordered, and their two comparisons are one
/// order.
pub proof fn lemma_total_order_i32()
    ensures
        total_order::<i32>(),
        one_order::<i32>(),
{
}

/// The integers are totally ordered, and their two comparisons are one
/// order.
pub proof fn lemma_total_order_u64()
    ensures
        total_order::<u64>(),
        one_order::<u64>(),
{
}

} // verus!
