//! Index ranges and the algebraic traits shared by the containers.

use std::ops::{Range, RangeFrom, RangeFull, RangeInclusive, RangeTo, RangeToInclusive};
use vstd::prelude::*;

verus! {

/// One end of a range of indices.
#[derive(Clone, Copy, PartialEq, Eq, Structural)]
pub enum Bound {
    /// The range reaches this index and holds it.
    Included(usize),
    /// The range reaches this index and does not hold it.
    Excluded(usize),
    /// The range has no end on this side.
    Unbounded,
}

/// `core::ops::RangeFull`, the range `..`: it has no fields.
#[verifier::external_type_specification]
pub struct ExRangeFull(RangeFull);

/// `core::ops::RangeFrom`, the range `start..`: its one field is `start`.
#[verifier::external_type_specification]
#[verifier::reject_recursive_types(Idx)]
pub struct ExRangeFrom<Idx>(RangeFrom<Idx>);

/// `core::ops::RangeTo`, the range `..end`: its one field is `end`.
#[verifier::external_type_specification]
#[verifier::reject_recursive_types(Idx)]
pub struct ExRangeTo<Idx>(RangeTo<Idx>);

/// `core::ops::RangeToInclusive`, the range `..=end`: its one field is `end`.
#[verifier::external_type_specification]
#[verifier::reject_recursive_types(Idx)]
pub struct ExRangeToInclusive<Idx>(RangeToInclusive<Idx>);

/// The first index of a range that starts at `start`.
pub open spec fn lower_of(start: Bound) -> int {
    match start {
        Bound::Included(i) => i as int,
        Bound::Excluded(i) => i + 1,
        Bound::Unbounded => 0,
    }
}

/// The index behind the last one of a range that ends at `end`, in a
/// container of `len` elements.
pub open spec fn upper_of(end: Bound, len: int) -> int {
    match end {
        Bound::Included(i) => i + 1,
        Bound::Excluded(i) => i as int,
        Bound::Unbounded => len,
    }
}

/// A range of indices, given by its two ends.
pub trait IndexRange {
    /// Whether the two ends can be asked for: a range `a..=b` has them only
    /// as long as it has not been used up as an iterator.
    spec fn valid(&self) -> bool;

    /// The end at which the range starts.
    spec fn start_spec(&self) -> Bound;

    /// The end at which the range stops.
    spec fn end_spec(&self) -> Bound;

    fn start(&self) -> (r: Bound)
        requires
            self.valid(),
        ensures
            r == self.start_spec(),
    ;

    fn end(&self) -> (r: Bound)
        requires
            self.valid(),
        ensures
            r == self.end_spec(),
    ;
}

impl IndexRange for (Bound, Bound) {
    open spec fn valid(&self) -> bool {
        true
    }

    open spec fn start_spec(&self) -> Bound {
        self.0
    }

    open spec fn end_spec(&self) -> Bound {
        self.1
    }

    fn start(&self) -> (r: Bound) {
        self.0
    }

    fn end(&self) -> (r: Bound) {
        self.1
    }
}

impl IndexRange for Range<usize> {
    open spec fn valid(&self) -> bool {
        true
    }

    open spec fn start_spec(&self) -> Bound {
        Bound::Included(self.start)
    }

    open spec fn end_spec(&self) -> Bound {
        Bound::Excluded(self.end)
    }

    fn start(&self) -> (r: Bound) {
        Bound::Included(self.start)
    }

    fn end(&self) -> (r: Bound) {
        Bound::Excluded(self.end)
    }
}

impl IndexRange for RangeFull {
    open spec fn valid(&self) -> bool {
        true
    }

    open spec fn start_spec(&self) -> Bound {
        Bound::Unbounded
    }

    open spec fn end_spec(&self) -> Bound {
        Bound::Unbounded
    }

    fn start(&self) -> (r: Bound) {
        Bound::Unbounded
    }

    fn end(&self) -> (r: Bound) {
        Bound::Unbounded
    }
}

impl IndexRange for RangeFrom<usize> {
    open spec fn valid(&self) -> bool {
        true
    }

    open spec fn start_spec(&self) -> Bound {
        Bound::Included(self.start)
    }

    open spec fn end_spec(&self) -> Bound {
        Bound::Unbounded
    }

    fn start(&self) -> (r: Bound) {
        Bound::Included(self.start)
    }

    fn end(&self) -> (r: Bound) {
        Bound::Unbounded
    }
}

impl IndexRange for RangeTo<usize> {
    open spec fn valid(&self) -> bool {
        true
    }

    open spec fn start_spec(&self) -> Bound {
        Bound::Unbounded
    }

    open spec fn end_spec(&self) -> Bound {
        Bound::Excluded(self.end)
    }

    fn start(&self) -> (r: Bound) {
        Bound::Unbounded
    }

    fn end(&self) -> (r: Bound) {
        Bound::Excluded(self.end)
    }
}

impl IndexRange for RangeToInclusive<usize> {
    open spec fn valid(&self) -> bool {
        true
    }

    open spec fn start_spec(&self) -> Bound {
        Bound::Unbounded
    }

    open spec fn end_spec(&self) -> Bound {
        Bound::Included(self.end)
    }

    fn start(&self) -> (r: Bound) {
        Bound::Unbounded
    }

    fn end(&self) -> (r: Bound) {
        Bound::Included(self.end)
    }
}

/// `RangeInclusive::start`: the lower end of a range `a..=b`, as long as the
/// range has not been used up as an iterator.
#[verifier::external_body]
pub(crate) fn inclusive_start<T: Copy>(range: &RangeInclusive<T>) -> (r: T)
    ensures
        !range@.exhausted ==> r == range@.start,
{
    *range.start()
}

/// `RangeInclusive::end`: the upper end of a range `a..=b`, as long as the
/// range has not been used up as an iterator.
#[verifier::external_body]
pub(crate) fn inclusive_end<T: Copy>(range: &RangeInclusive<T>) -> (r: T)
    ensures
        !range@.exhausted ==> r == range@.end,
{
    *range.end()
}

impl IndexRange for RangeInclusive<usize> {
    open spec fn valid(&self) -> bool {
        !self@.exhausted
    }

    open spec fn start_spec(&self) -> Bound {
        Bound::Included(self@.start)
    }

    open spec fn end_spec(&self) -> Bound {
        Bound::Included(self@.end)
    }

    fn start(&self) -> (r: Bound) {
        Bound::Included(inclusive_start(self))
    }

    fn end(&self) -> (r: Bound) {
        Bound::Included(inclusive_end(self))
    }
}

/// The first index of `range`.
pub open spec fn range_lower<R: IndexRange>(range: &R) -> int {
    lower_of(range.start_spec())
}

/// The index behind the last one of `range`, in a container of `len` elements.
pub open spec fn range_upper<R: IndexRange>(range: &R, len: int) -> int {
    upper_of(range.end_spec(), len)
}

/// Whether `range` lies within a container of `len` elements, and its ends
/// can be asked for.
pub open spec fn range_within<R: IndexRange>(range: &R, len: int) -> bool {
    range.valid() && range_lower(range) <= range_upper(range, len) <= len
}

/// The half-open pair of indices that `range` stands for in a container of
/// `len` elements.
pub fn normalize<R: IndexRange>(range: &R, len: usize) -> (r: (usize, usize))
    requires
        range_within(range, len as int),
    ensures
        r.0 == range_lower(range),
        r.1 == range_upper(range, len as int),
        r.0 <= r.1 <= len,
{
    let left = match range.start() {
        Bound::Included(i) => i,
        Bound::Excluded(i) => i + 1,
        Bound::Unbounded => 0,
    };
    let right = match range.end() {
        Bound::Included(i) => i + 1,
        Bound::Excluded(i) => i,
        Bound::Unbounded => len,
    };
    (left, right)
}

/// A type with a value that stands for zero.
pub trait HasZero: Sized {
    /// The zero of the type.
    spec fn zero_spec() -> Self;

    fn zero() -> (r: Self)
        ensures
            r == Self::zero_spec(),
    ;
}

/// A type with a value that stands for one.
pub trait HasOne: Sized {
    /// The one of the type.
    spec fn one_spec() -> Self;

    fn one() -> (r: Self)
        ensures
            r == Self::one_spec(),
    ;
}

/// A type with a least value.
pub trait HasMin: Sized {
    /// The least value of the type.
    spec fn min_value_spec() -> Self;

    fn min_value() -> (r: Self)
        ensures
            r == Self::min_value_spec(),
    ;
}

/// A type with a greatest value.
pub trait HasMax: Sized {
    /// The greatest value of the type.
    spec fn max_value_spec() -> Self;

    fn max_value() -> (r: Self)
        ensures
            r == Self::max_value_spec(),
    ;
}

impl HasZero for u8 {
    open spec fn zero_spec() -> u8 {
        0
    }

    fn zero() -> (r: u8) {
        0
    }
}

impl HasOne for u8 {
    open spec fn one_spec() -> u8 {
        1
    }

    fn one() -> (r: u8) {
        1
    }
}

impl HasMin for u8 {
    open spec fn min_value_spec() -> u8 {
        u8::MIN
    }

    fn min_value() -> (r: u8) {
        u8::MIN
    }
}

impl HasMax for u8 {
    open spec fn max_value_spec() -> u8 {
        u8::MAX
    }

    fn max_value() -> (r: u8) {
        u8::MAX
    }
}

impl HasZero for u16 {
    open spec fn zero_spec() -> u16 {
        0
    }

    fn zero() -> (r: u16) {
        0
    }
}

impl HasOne for u16 {
    open spec fn one_spec() -> u16 {
        1
    }

    fn one() -> (r: u16) {
        1
    }
}

impl HasMin for u16 {
    open spec fn min_value_spec() -> u16 {
        u16::MIN
    }

    fn min_value() -> (r: u16) {
        u16::MIN
    }
}

impl HasMax for u16 {
    open spec fn max_value_spec() -> u16 {
        u16::MAX
    }

    fn max_value() -> (r: u16) {
        u16::MAX
    }
}

impl HasZero for u32 {
    open spec fn zero_spec() -> u32 {
        0
    }

    fn zero() -> (r: u32) {
        0
    }
}

impl HasOne for u32 {
    open spec fn one_spec() -> u32 {
        1
    }

    fn one() -> (r: u32) {
        1
    }
}

impl HasMin for u32 {
    open spec fn min_value_spec() -> u32 {
        u32::MIN
    }

    fn min_value() -> (r: u32) {
        u32::MIN
    }
}

impl HasMax for u32 {
    open spec fn max_value_spec() -> u32 {
        u32::MAX
    }

    fn max_value() -> (r: u32) {
        u32::MAX
    }
}

impl HasZero for u64 {
    open spec fn zero_spec() -> u64 {
        0
    }

    fn zero() -> (r: u64) {
        0
    }
}

impl HasOne for u64 {
    open spec fn one_spec() -> u64 {
        1
    }

    fn one() -> (r: u64) {
        1
    }
}

impl HasMin for u64 {
    open spec fn min_value_spec() -> u64 {
        u64::MIN
    }

    fn min_value() -> (r: u64) {
        u64::MIN
    }
}

impl HasMax for u64 {
    open spec fn max_value_spec() -> u64 {
        u64::MAX
    }

    fn max_value() -> (r: u64) {
        u64::MAX
    }
}

impl HasZero for u128 {
    open spec fn zero_spec() -> u128 {
        0
    }

    fn zero() -> (r: u128) {
        0
    }
}

impl HasOne for u128 {
    open spec fn one_spec() -> u128 {
        1
    }

    fn one() -> (r: u128) {
        1
    }
}

impl HasMin for u128 {
    open spec fn min_value_spec() -> u128 {
        u128::MIN
    }

    fn min_value() -> (r: u128) {
        u128::MIN
    }
}

impl HasMax for u128 {
    open spec fn max_value_spec() -> u128 {
        u128::MAX
    }

    fn max_value() -> (r: u128) {
        u128::MAX
    }
}

impl HasZero for usize {
    open spec fn zero_spec() -> usize {
        0
    }

    fn zero() -> (r: usize) {
        0
    }
}

impl HasOne for usize {
    open spec fn one_spec() -> usize {
        1
    }

    fn one() -> (r: usize) {
        1
    }
}

impl HasMin for usize {
    open spec fn min_value_spec() -> usize {
        usize::MIN
    }

    fn min_value() -> (r: usize) {
        usize::MIN
    }
}

impl HasMax for usize {
    open spec fn max_value_spec() -> usize {
        usize::MAX
    }

    fn max_value() -> (r: usize) {
        usize::MAX
    }
}

impl HasZero for i8 {
    open spec fn zero_spec() -> i8 {
        0
    }

    fn zero() -> (r: i8) {
        0
    }
}

impl HasOne for i8 {
    open spec fn one_spec() -> i8 {
        1
    }

    fn one() -> (r: i8) {
        1
    }
}

impl HasMin for i8 {
    open spec fn min_value_spec() -> i8 {
        i8::MIN
    }

    fn min_value() -> (r: i8) {
        i8::MIN
    }
}

impl HasMax for i8 {
    open spec fn max_value_spec() -> i8 {
        i8::MAX
    }

    fn max_value() -> (r: i8) {
        i8::MAX
    }
}

impl HasZero for i16 {
    open spec fn zero_spec() -> i16 {
        0
    }

    fn zero() -> (r: i16) {
        0
    }
}

impl HasOne for i16 {
    open spec fn one_spec() -> i16 {
        1
    }

    fn one() -> (r: i16) {
        1
    }
}

impl HasMin for i16 {
    open spec fn min_value_spec() -> i16 {
        i16::MIN
    }

    fn min_value() -> (r: i16) {
        i16::MIN
    }
}

impl HasMax for i16 {
    open spec fn max_value_spec() -> i16 {
        i16::MAX
    }

    fn max_value() -> (r: i16) {
        i16::MAX
    }
}

impl HasZero for i32 {
    open spec fn zero_spec() -> i32 {
        0
    }

    fn zero() -> (r: i32) {
        0
    }
}

impl HasOne for i32 {
    open spec fn one_spec() -> i32 {
        1
    }

    fn one() -> (r: i32) {
        1
    }
}

impl HasMin for i32 {
    open spec fn min_value_spec() -> i32 {
        i32::MIN
    }

    fn min_value() -> (r: i32) {
        i32::MIN
    }
}

impl HasMax for i32 {
    open spec fn max_value_spec() -> i32 {
        i32::MAX
    }

    fn max_value() -> (r: i32) {
        i32::MAX
    }
}

impl HasZero for i64 {
    open spec fn zero_spec() -> i64 {
        0
    }

    fn zero() -> (r: i64) {
        0
    }
}

impl HasOne for i64 {
    open spec fn one_spec() -> i64 {
        1
    }

    fn one() -> (r: i64) {
        1
    }
}

impl HasMin for i64 {
    open spec fn min_value_spec() -> i64 {
        i64::MIN
    }

    fn min_value() -> (r: i64) {
        i64::MIN
    }
}

impl HasMax for i64 {
    open spec fn max_value_spec() -> i64 {
        i64::MAX
    }

    fn max_value() -> (r: i64) {
        i64::MAX
    }
}

impl HasZero for i128 {
    open spec fn zero_spec() -> i128 {
        0
    }

    fn zero() -> (r: i128) {
        0
    }
}

impl HasOne for i128 {
    open spec fn one_spec() -> i128 {
        1
    }

    fn one() -> (r: i128) {
        1
    }
}

impl HasMin for i128 {
    open spec fn min_value_spec() -> i128 {
        i128::MIN
    }

    fn min_value() -> (r: i128) {
        i128::MIN
    }
}

impl HasMax for i128 {
    open spec fn max_value_spec() -> i128 {
        i128::MAX
    }

    fn max_value() -> (r: i128) {
        i128::MAX
    }
}

impl HasZero for isize {
    open spec fn zero_spec() -> isize {
        0
    }

    fn zero() -> (r: isize) {
        0
    }
}

impl HasOne for isize {
    open spec fn one_spec() -> isize {
        1
    }

    fn one() -> (r: isize) {
        1
    }
}

impl HasMin for isize {
    open spec fn min_value_spec() -> isize {
        isize::MIN
    }

    fn min_value() -> (r: isize) {
        isize::MIN
    }
}

impl HasMax for isize {
    open spec fn max_value_spec() -> isize {
        isize::MAX
    }

    fn max_value() -> (r: isize) {
        isize::MAX
    }
}

/// A set with a binary operation that stays within it.
pub trait Magma {
    /// The elements.
    type T;

    /// What the operation gives on `lhs` and `rhs`.
    spec fn op_spec(&self, lhs: Self::T, rhs: Self::T) -> Self::T;

    /// The operation.
    fn op(&self, lhs: &Self::T, rhs: &Self::T) -> (r: Self::T)
        ensures
            r == self.op_spec(*lhs, *rhs),
    ;
}

/// A magma with an element that changes nothing, on either side.
pub trait Identity: Magma {
    /// The identity.
    spec fn e_spec(&self) -> Self::T;

    /// Makes the identity.
    fn e(&self) -> (r: Self::T)
        ensures
            r == self.e_spec(),
    ;

    /// `e_spec()` is an identity on both sides.
    proof fn identity(&self, a: Self::T)
        ensures
            self.op_spec(self.e_spec(), a) == a,
            self.op_spec(a, self.e_spec()) == a,
    ;
}

/// A magma in which every element can be undone, on either side.
pub trait Inverse: Magma {
    /// The inverse of `v`.
    spec fn inv_spec(&self, v: Self::T) -> Self::T;

    /// Makes the inverse of `v`.
    fn inv(&self, v: &Self::T) -> (r: Self::T)
        ensures
            r == self.inv_spec(*v),
    ;

    /// Operating with an element and then with its inverse, on the same
    /// side, gives back what one started from.
    proof fn cancels(&self, a: Self::T, b: Self::T)
        ensures
            self.op_spec(self.op_spec(b, a), self.inv_spec(a)) == b,
            self.op_spec(self.inv_spec(a), self.op_spec(a, b)) == b,
    ;

    /// `lhs` operated with the inverse of `rhs`.
    fn opinv(&self, lhs: &Self::T, rhs: &Self::T) -> (r: Self::T)
        ensures
            r == self.op_spec(*lhs, self.inv_spec(*rhs)),
    {
        self.op(lhs, &self.inv(rhs))
    }

    /// The inverse of `lhs` operated with `rhs`.
    fn invop(&self, lhs: &Self::T, rhs: &Self::T) -> (r: Self::T)
        ensures
            r == self.op_spec(self.inv_spec(*lhs), *rhs),
    {
        self.op(&self.inv(lhs), rhs)
    }
}

/// A magma whose operation is associative.
pub trait Associativity: Magma {
    proof fn associative(&self, a: Self::T, b: Self::T, c: Self::T)
        ensures
            self.op_spec(self.op_spec(a, b), c) == self.op_spec(a, self.op_spec(b, c)),
    ;
}

/// A magma whose operation is commutative.
pub trait Commutativity: Magma {
    proof fn commutative(&self, a: Self::T, b: Self::T)
        ensures
            self.op_spec(a, b) == self.op_spec(b, a),
    ;
}

/// A magma whose operation is idempotent.
pub trait Idempotence: Magma {
    proof fn idempotent(&self, a: Self::T)
        ensures
            self.op_spec(a, a) == a,
    ;
}

/// The elements of `s` combined from left to right, starting from the identity.
pub open spec fn fold_op<M: Identity>(m: &M, s: Seq<M::T>) -> M::T
    decreases s.len(),
{
    if s.len() == 0 {
        m.e_spec()
    } else {
        m.op_spec(fold_op(m, s.drop_last()), s.last())
    }
}

/// The combination of a sequence in two parts is that of the parts, combined.
pub proof fn lemma_fold_op_concat<M: Identity + Associativity>(m: &M, a: Seq<M::T>, b: Seq<M::T>)
    ensures
        fold_op(m, a + b) == m.op_spec(fold_op(m, a), fold_op(m, b)),
    decreases b.len(),
{
    if b.len() == 0 {
        assert(a + b =~= a);
        m.identity(fold_op(m, a));
    } else {
        assert((a + b).drop_last() =~= a + b.drop_last());
        lemma_fold_op_concat(m, a, b.drop_last());
        m.associative(fold_op(m, a), fold_op(m, b.drop_last()), b.last());
    }
}

/// The combination of a single element is that element.
pub proof fn lemma_fold_op_one<M: Identity>(m: &M, v: M::T)
    ensures
        fold_op(m, seq![v]) == v,
{
    assert(seq![v].drop_last() =~= Seq::<M::T>::empty());
    assert(fold_op(m, Seq::<M::T>::empty()) == m.e_spec());
    assert(seq![v].last() == v);
    m.identity(v);
}

} // verus!
