//! Pairs of a least and a greatest `i32`, as an idempotent monoid.

use crate::util::{Associativity, Commutativity, Idempotence, Identity, Magma};
use vstd::prelude::*;

verus! {

/// The lesser of two numbers.
pub open spec fn min_of(a: i32, b: i32) -> i32 {
    if a <= b {
        a
    } else {
        b
    }
}

/// The greater of two numbers.
pub open spec fn max_of(a: i32, b: i32) -> i32 {
    if a >= b {
        a
    } else {
        b
    }
}

/// Pairs `(least, greatest)`: two pairs combine to the lesser of the two
/// least and the greater of the two greatest numbers.
#[derive(Clone, Copy)]
pub struct MinMax;

impl Magma for MinMax {
    type T = (i32, i32);

    open spec fn op_spec(&self, lhs: (i32, i32), rhs: (i32, i32)) -> (i32, i32) {
        (min_of(lhs.0, rhs.0), max_of(lhs.1, rhs.1))
    }

    fn op(&self, lhs: &(i32, i32), rhs: &(i32, i32)) -> (r: (i32, i32)) {
        (
            if lhs.0 <= rhs.0 {
                lhs.0
            } else {
                rhs.0
            },
            if lhs.1 >= rhs.1 {
                lhs.1
            } else {
                rhs.1
            },
        )
    }
}

impl Identity for MinMax {
    open spec fn e_spec(&self) -> (i32, i32) {
        (i32::MAX, i32::MIN)
    }

    fn e(&self) -> (r: (i32, i32)) {
        (i32::MAX, i32::MIN)
    }

    proof fn identity(&self, a: (i32, i32)) {
    }
}

impl Associativity for MinMax {
    proof fn associative(&self, a: (i32, i32), b: (i32, i32), c: (i32, i32)) {
    }
}

impl Commutativity for MinMax {
    proof fn commutative(&self, a: (i32, i32), b: (i32, i32)) {
    }
}

impl Idempotence for MinMax {
    proof fn idempotent(&self, a: (i32, i32)) {
    }
}

} // verus!
