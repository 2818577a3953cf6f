//! A sparse table: products of ranges over an idempotent monoid in constant
//! time, from a table of the products of all ranges whose length is a power
//! of two.

use crate::util::{
    fold_op, lemma_fold_op_concat, lemma_fold_op_one, normalize, range_lower, range_upper,
    range_within, Associativity, Idempotence, Identity, IndexRange,
};
use vstd::arithmetic::power2::{lemma2_to64, lemma_pow2_pos, lemma_pow2_unfold, pow2};
use vstd::prelude::*;
use vstd::std_specs::bits::u64_leading_zeros;

verus! {

/// A monoid in which every element operated with itself is itself.
pub trait IdempotentMonoid: Associativity + Idempotence + Identity {

}

impl<T: Associativity + Idempotence + Identity> IdempotentMonoid for T {

}

/// Where the level of the ranges of length `2^i` begins in the table of a
/// sequence of `n` elements: behind the `n + 1 - 2^j` ranges of each level
/// `j` before it.
pub open spec fn level_off(n: nat, i: nat) -> int
    decreases i,
{
    if i == 0 {
        0
    } else {
        level_off(n, (i - 1) as nat) + n + 1 - pow2((i - 1) as nat)
    }
}

/// Number of levels: the number of powers of two that are at most `n`.
pub open spec fn levels(n: nat) -> nat
    decreases n,
{
    if n == 0 {
        0
    } else {
        levels(n / 2) + 1
    }
}

/// The entry for the range of length `2^i` that begins at `x`.
pub open spec fn entry<T>(data: Seq<T>, n: nat, i: nat, x: int) -> T {
    data[level_off(n, i) + x]
}

/// Every entry is the product of its range.
pub open spec fn table_ok<M: IdempotentMonoid>(m: &M, data: Seq<M::T>, n: nat) -> bool {
    &&& data.len() == level_off(n, levels(n))
    &&& (n + 1) * 64 <= usize::MAX
    &&& forall|i: nat, x: int|
        i < levels(n) && 0 <= x <= n - pow2(i) ==> #[trigger] entry(data, n, i, x) == fold_op(
            m,
            data.subrange(0, n as int).subrange(x, x + pow2(i)),
        )
}

proof fn lemma_level_off(n: nat, i: nat)
    ensures
        level_off(n, i) == (n + 1) * i - (pow2(i) - 1),
    decreases i,
{
    lemma2_to64();
    if i > 0 {
        lemma_level_off(n, (i - 1) as nat);
        lemma_pow2_unfold(i);
        assert((n + 1) * i == (n + 1) * (i - 1) + (n + 1)) by (nonlinear_arith);
    } else {
        assert((n + 1) * 0 == 0);
    }
}

/// The levels are those whose ranges fit: `2^i <= n` exactly for `i < levels(n)`.
proof fn lemma_levels(n: nat, i: nat)
    ensures
        levels(n) <= n,
        i < levels(n) <==> pow2(i) <= n,
    decreases n,
{
    lemma2_to64();
    lemma_pow2_pos(i);
    if n > 0 {
        if i > 0 {
            lemma_levels(n / 2, (i - 1) as nat);
            lemma_pow2_unfold(i);
        } else {
            lemma_levels(n / 2, 0);
        }
    }
}

/// Each level lies within the table, and the levels follow one another.
proof fn lemma_level_fits(n: nat, i: nat)
    requires
        i < levels(n),
    ensures
        0 <= level_off(n, i),
        level_off(n, i + 1) == level_off(n, i) + n + 1 - pow2(i),
        level_off(n, i + 1) <= level_off(n, levels(n)),
        pow2(i) <= n,
    decreases levels(n) - i,
{
    lemma_levels(n, i);
    lemma_level_nonneg(n, i);
    if i + 1 < levels(n) {
        lemma_level_fits(n, i + 1);
    }
}

proof fn lemma_level_nonneg(n: nat, i: nat)
    requires
        i <= levels(n),
    ensures
        0 <= level_off(n, i),
    decreases i,
{
    if i > 0 {
        lemma_level_nonneg(n, (i - 1) as nat);
        lemma_levels(n, (i - 1) as nat);
    }
}

/// With 64-bit lengths there are at most 64 levels.
proof fn lemma_levels_bound(n: nat)
    requires
        n <= u64::MAX,
    ensures
        levels(n) <= 64,
{
    lemma2_to64();
    if levels(n) > 64 {
        lemma_levels(n, 64);
    }
}

/// The number of bits of `x` is the number of levels of `x`.
proof fn lemma_bits(x: u64)
    ensures
        64 - u64_leading_zeros(x) == levels(x as nat),
    decreases x,
{
    reveal(u64_leading_zeros);
    if x != 0 {
        lemma_bits(x / 2);
    }
}

/// Two ranges of one length that overlap or touch have the product of the
/// range that they cover together.
proof fn lemma_overlap<M: IdempotentMonoid>(m: &M, a: Seq<M::T>, l: int, r: int, w: int)
    requires
        0 <= l,
        r <= a.len(),
        1 <= w <= r - l <= 2 * w,
    ensures
        m.op_spec(fold_op(m, a.subrange(l, l + w)), fold_op(m, a.subrange(r - w, r))) == fold_op(
            m,
            a.subrange(l, r),
        ),
{
    let head = a.subrange(l, r - w);
    let both = a.subrange(r - w, l + w);
    let tail = a.subrange(l + w, r);
    assert(a.subrange(l, l + w) =~= head + both);
    assert(a.subrange(r - w, r) =~= both + tail);
    assert(a.subrange(l, r) =~= (head + both) + tail);
    lemma_fold_op_concat(m, head, both);
    lemma_fold_op_concat(m, both, tail);
    lemma_fold_op_concat(m, head + both, tail);
    let x = fold_op(m, head);
    let y = fold_op(m, both);
    let z = fold_op(m, tail);
    // (x y) (y z) == ((x y) y) z == (x (y y)) z == (x y) z
    m.associative(m.op_spec(x, y), y, z);
    m.associative(x, y, y);
    m.idempotent(y);
}

/// A sequence over an idempotent monoid whose range products are looked up
/// in constant time.
pub struct SparseTable<M: IdempotentMonoid>(Vec<M::T>, usize, M);

impl<M: IdempotentMonoid> View for SparseTable<M> {
    type V = Seq<M::T>;

    /// The elements, in order.
    closed spec fn view(&self) -> Seq<M::T> {
        self.0@.subrange(0, self.1 as int)
    }
}

impl<M: IdempotentMonoid> SparseTable<M> {
    /// Every entry of the table is the product of its range.
    pub closed spec fn wf(&self) -> bool {
        table_ok(&self.2, self.0@, self.1 as nat)
    }

    /// The monoid in which the elements are combined.
    pub closed spec fn monoid(&self) -> &M {
        &self.2
    }

    /// The table of the elements of `items`.
    pub fn new(monoid: M, items: Vec<M::T>) -> (r: Self)
        requires
            (items@.len() + 1) * 64 <= usize::MAX,
        ensures
            r.wf(),
            r.monoid() == &monoid,
            r@ == items@,
    {
        let mut items = items;
        let ghost a = items@;
        let len = items.len();
        let ghost n = len as nat;
        if len == 0 {
            return SparseTable(items, len, monoid);
        }
        let mut span: usize = 1;
        let mut offset: usize = 0;
        let ghost mut i: nat = 0;
        proof {
            lemma2_to64();
            lemma_levels(n, 0);
            assert forall|x: int| 0 <= x <= n - pow2(0) implies #[trigger] entry(items@, n, 0, x)
                == fold_op(&monoid, a.subrange(x, x + pow2(0))) by {
                assert(a.subrange(x, x + 1) =~= seq![a[x]]);
                lemma_fold_op_one(&monoid, a[x]);
            }
            lemma_level_fits(n, 0);
        }
        // Level `i` is complete; level `i + 1` is built where its ranges fit.
        while span <= len - span
            invariant
                (n + 1) * 64 <= usize::MAX,
                n == len,
                a.len() == n,
                span == pow2(i),
                1 <= span <= len,
                i < levels(n),
                offset == level_off(n, i),
                items@.len() == level_off(n, i + 1),
                n <= items@.len(),
                items@.subrange(0, n as int) == a,
                forall|j: nat, x: int|
                    j <= i && j < levels(n) && 0 <= x <= n - pow2(j) ==> #[trigger] entry(
                        items@,
                        n,
                        j,
                        x,
                    ) == fold_op(&monoid, a.subrange(x, x + pow2(j))),
            decreases len - span,
        {
            let ghost start = items@;
            let next = items.len();
            proof {
                lemma_pow2_unfold(i + 1);
                lemma_levels(n, i + 1);
                lemma_level_fits(n, i);
                lemma_level_fits(n, i + 1);
                lemma_level_off(n, levels(n));
                lemma_levels_bound(n);
                assert((n + 1) * levels(n) <= (n + 1) * 64) by (nonlinear_arith)
                    requires
                        levels(n) <= 64,
                ;
            }
            let count = len + 1 - 2 * span;
            let mut x: usize = 0;
            while x < count
                invariant
                    x <= count,
                    count == len + 1 - 2 * span,
                    2 * span <= len,
                    next == offset + (len + 1 - span),
                    next + count <= usize::MAX,
                    offset == level_off(n, i),
                    next == level_off(n, i + 1),
                    span == pow2(i),
                    items@.len() == next + x,
                    items@.subrange(0, next as int) == start,
                    forall|y: int|
                        0 <= y < x ==> #[trigger] items@[next + y] == monoid.op_spec(
                            start[offset + y],
                            start[offset + y + span],
                        ),
                decreases count - x,
            {
                let ghost before = items@;
                let v = monoid.op(&items[offset + x], &items[offset + x + span]);
                items.push(v);
                proof {
                    assert(before[offset + x] == before.subrange(0, next as int)[offset + x]);
                    assert(before[offset + x + span] == before.subrange(0, next as int)[offset + x
                        + span]);
                    assert(items@.subrange(0, next as int) =~= before.subrange(0, next as int));
                }
                x += 1;
            }
            proof {
                assert(items@.subrange(0, n as int) =~= items@.subrange(0, next as int).subrange(
                    0,
                    n as int,
                ));
                assert forall|j: nat, y: int|
                    j <= i + 1 && j < levels(n) && 0 <= y <= n - pow2(j) implies #[trigger] entry(
                    items@,
                    n,
                    j,
                    y,
                ) == fold_op(&monoid, a.subrange(y, y + pow2(j))) by {
                    if j <= i {
                        lemma_level_fits(n, j);
                        lemma_level_mono(n, j + 1, i + 1);
                        assert(entry(start, n, j, y) == fold_op(
                            &monoid,
                            a.subrange(y, y + pow2(j)),
                        ));
                        assert(items@.subrange(0, next as int)[level_off(n, j) + y]
                            == start[level_off(n, j) + y]);
                    } else {
                        let w = span as int;
                        assert(entry(start, n, i, y) == fold_op(&monoid, a.subrange(y, y + w)));
                        assert(entry(start, n, i, y + w) == fold_op(
                            &monoid,
                            a.subrange(y + w, y + 2 * w),
                        ));
                        assert(a.subrange(y, y + 2 * w) =~= a.subrange(y, y + w) + a.subrange(
                            y + w,
                            y + 2 * w,
                        ));
                        lemma_fold_op_concat(
                            &monoid,
                            a.subrange(y, y + w),
                            a.subrange(y + w, y + 2 * w),
                        );
                    }
                }
                i = i + 1;
            }
            offset = next;
            span = 2 * span;
        }
        proof {
            // `i` is the last level
            lemma_pow2_unfold(i + 1);
            lemma_levels(n, i + 1);
            assert(levels(n) == i + 1);
        }
        SparseTable(items, len, monoid)
    }

    /// Number of elements.
    pub fn len(&self) -> (r: usize)
        requires
            self.wf(),
        ensures
            r == self@.len(),
    {
        proof {
            self.lemma_len();
        }
        self.1
    }

    /// Whether there is no element.
    pub fn is_empty(&self) -> (r: bool)
        requires
            self.wf(),
        ensures
            r == (self@.len() == 0),
    {
        proof {
            self.lemma_len();
        }
        self.1 == 0
    }

    proof fn lemma_len(&self)
        requires
            self.wf(),
        ensures
            self.1 <= self.0@.len(),
    {
        let n = self.1 as nat;
        if n > 0 {
            lemma_levels(n, 0);
            lemma_level_fits(n, 0);
            lemma2_to64();
        }
    }

    /// The product of the elements in `range`.
    pub fn query<R: IndexRange>(&self, range: R) -> (r: M::T)
        requires
            self.wf(),
            range_within(&range, self@.len() as int),
        ensures
            r == fold_op(
                self.monoid(),
                self@.subrange(range_lower(&range), range_upper(&range, self@.len() as int)),
            ),
    {
        proof {
            self.lemma_len();
        }
        let len = self.1;
        let (left, right) = normalize(&range, len);
        if left == right {
            assert(self@.subrange(left as int, left as int) =~= Seq::<M::T>::empty());
            return self.2.e();
        }
        let diff = right - left;
        let ghost n = len as nat;
        let ghost a = self.0@.subrange(0, len as int);
        proof {
            lemma_bits(diff as u64);
            lemma_levels_bound(diff as nat);
            lemma2_to64();
        }
        let log = (63 - (diff as u64).leading_zeros()) as usize;
        proof {
            // 2^log <= diff < 2^(log + 1)
            lemma_levels(diff as nat, log as nat);
            lemma_levels(diff as nat, (log + 1) as nat);
            lemma_pow2_unfold((log + 1) as nat);
            lemma_levels(n, log as nat);
            lemma_level_fits(n, log as nat);
            lemma_level_off(n, log as nat);
            lemma_level_off(n, levels(n));
            lemma_levels_bound(n);
            assert((n + 1) * log <= (n + 1) * 64) by (nonlinear_arith)
                requires
                    log <= 64,
            ;
            vstd::bits::lemma_u64_shl_is_mul(1, log as u64);
        }
        let span = (1u64 << log as u64) as usize;
        let offset = (len + 1) * log - (span - 1);
        proof {
            assert(span == pow2(log as nat));
            assert(span <= diff);
            assert(offset == level_off(n, log as nat));
            assert(level_off(n, (log + 1) as nat) <= self.0@.len());
            assert(offset + (n + 1 - span) <= self.0@.len());
            assert(entry(self.0@, n, log as nat, left as int) == fold_op(
                &self.2,
                a.subrange(left as int, left + span),
            ));
            assert(entry(self.0@, n, log as nat, right - span) == fold_op(
                &self.2,
                a.subrange(right - span, right as int),
            ));
            lemma_overlap(&self.2, a, left as int, right as int, span as int);
        }
        // the table has a `usize` for its length, so the two places in it fit one
        let total = self.0.len();
        assert(offset + left < total);
        self.2.op(&self.0[offset + left], &self.0[offset + (right - span)])
    }
}

proof fn lemma_level_mono(n: nat, i: nat, j: nat)
    requires
        i <= j <= levels(n),
    ensures
        level_off(n, i) <= level_off(n, j),
    decreases j - i,
{
    if i < j {
        lemma_level_mono(n, i, (j - 1) as nat);
        lemma_levels(n, (j - 1) as nat);
    }
}

} // verus!
