//! Sets of values of an ordered type that are unions of intervals, kept as
//! the sorted list of the values at which membership changes.

use crate::order::{before, is_before, total_order};
use std::ops::{BitAnd, BitOr, BitXor, Not, Range, RangeFrom, RangeFull, RangeTo};
use vstd::prelude::*;

verus! {

/// One step of a merge of two lists: the next value of the left list, of
/// the right list, or of both where the two are the same.
#[derive(Clone, Copy, PartialEq, Eq, Hash, Debug)]
pub enum MergeContent<T> {
    Left(T),
    Right(T),
    Both(T, T),
}

/// How many of the first `k` steps take a value of the left list.
pub open spec fn lefts<T>(m: Seq<MergeContent<T>>, k: int) -> nat
    decreases k,
{
    if k <= 0 {
        0
    } else {
        lefts(m, k - 1) + if m[k - 1] is Right {
            0nat
        } else {
            1nat
        }
    }
}

/// How many of the first `k` steps take a value of the right list.
pub open spec fn rights<T>(m: Seq<MergeContent<T>>, k: int) -> nat
    decreases k,
{
    if k <= 0 {
        0
    } else {
        rights(m, k - 1) + if m[k - 1] is Left {
            0nat
        } else {
            1nat
        }
    }
}

/// Whether step `k` of `m` is the right one in a merge of `a` and `b`: it
/// takes the next value of the list whose next value comes first, and of
/// both lists where the next values are the same.
pub open spec fn step_ok<T: PartialOrd>(
    a: Seq<T>,
    b: Seq<T>,
    m: Seq<MergeContent<T>>,
    k: int,
) -> bool {
    let i = lefts(m, k) as int;
    let j = rights(m, k) as int;
    match m[k] {
        MergeContent::Left(x) => i < a.len() && x == a[i] && (j < b.len() ==> before(x, b[j])),
        MergeContent::Right(y) => j < b.len() && y == b[j] && (i < a.len() ==> before(y, a[i])),
        MergeContent::Both(x, y) => i < a.len() && j < b.len() && x == a[i] && y == b[j] && x == y,
    }
}

/// Whether `m` is the merge of `a` and `b`.
pub open spec fn merge_of<T: PartialOrd>(a: Seq<T>, b: Seq<T>, m: Seq<MergeContent<T>>) -> bool {
    &&& lefts(m, m.len() as int) == a.len()
    &&& rights(m, m.len() as int) == b.len()
    &&& forall|k: int| 0 <= k < m.len() ==> #[trigger] step_ok(a, b, m, k)
}

/// What counts among the first `k` steps does not change where steps are added.
proof fn lemma_counts_prefix<T>(m: Seq<MergeContent<T>>, c: MergeContent<T>, k: int)
    requires
        0 <= k <= m.len(),
    ensures
        lefts(m.push(c), k) == lefts(m, k),
        rights(m.push(c), k) == rights(m, k),
    decreases k,
{
    if k > 0 {
        lemma_counts_prefix(m, c, k - 1);
    }
}

/// The elements of `v` in reverse order.
fn reversed<T>(v: Vec<T>) -> (r: Vec<T>)
    ensures
        r@ == v@.reverse(),
{
    let mut v = v;
    let ghost all = v@;
    let mut r: Vec<T> = Vec::new();
    while v.len() > 0
        invariant
            v@.len() + r@.len() == all.len(),
            v@ == all.subrange(0, v@.len() as int),
            forall|i: int| 0 <= i < r@.len() ==> r@[i] == all[all.len() - 1 - i],
        decreases v@.len(),
    {
        let x = v.pop().unwrap();
        r.push(x);
    }
    assert(r@ =~= all.reverse());
    r
}

/// Merges two lists: the steps by which the values of both are taken in
/// order, where both are in order.
pub fn merge_iter<T: PartialOrd>(lhs: Vec<T>, rhs: Vec<T>) -> (r: Vec<MergeContent<T>>)
    requires
        total_order::<T>(),
    ensures
        merge_of(lhs@, rhs@, r@),
{
    let ghost a = lhs@;
    let ghost b = rhs@;
    let mut la = reversed(lhs);
    let mut lb = reversed(rhs);
    let mut out: Vec<MergeContent<T>> = Vec::new();
    let ghost mut i: int = 0;
    let ghost mut j: int = 0;
    while la.len() > 0 || lb.len() > 0
        invariant
            total_order::<T>(),
            0 <= i <= a.len(),
            0 <= j <= b.len(),
            la@.len() == a.len() - i,
            lb@.len() == b.len() - j,
            forall|x: int| 0 <= x < la@.len() ==> la@[x] == a[a.len() - 1 - x],
            forall|x: int| 0 <= x < lb@.len() ==> lb@[x] == b[b.len() - 1 - x],
            lefts(out@, out@.len() as int) == i,
            rights(out@, out@.len() as int) == j,
            forall|k: int| 0 <= k < out@.len() ==> #[trigger] step_ok(a, b, out@, k),
        decreases la@.len() + lb@.len(),
    {
        let ghost before_out = out@;
        let take_left: bool;
        let take_right: bool;
        if la.len() == 0 {
            take_left = false;
            take_right = true;
        } else if lb.len() == 0 {
            take_left = true;
            take_right = false;
        } else {
            let l = &la[la.len() - 1];
            let r = &lb[lb.len() - 1];
            if is_before(l, r) {
                take_left = true;
                take_right = false;
            } else if is_before(r, l) {
                take_left = false;
                take_right = true;
            } else {
                take_left = true;
                take_right = true;
            }
        }
        let content = if take_left && take_right {
            let l = la.pop().unwrap();
            let r = lb.pop().unwrap();
            MergeContent::Both(l, r)
        } else if take_left {
            MergeContent::Left(la.pop().unwrap())
        } else {
            MergeContent::Right(lb.pop().unwrap())
        };
        out.push(content);
        proof {
            let n = before_out.len() as int;
            lemma_counts_prefix(before_out, content, n);
            assert forall|k: int| 0 <= k < out@.len() implies #[trigger] step_ok(a, b, out@, k) by {
                lemma_counts_prefix(before_out, content, k);
                if k < n {
                    assert(step_ok(a, b, before_out, k));
                }
            }
            if take_left {
                i = i + 1;
            }
            if take_right {
                j = j + 1;
            }
        }
    }
    out
}

/// How many of the values of `s` do not come behind `x`.
pub open spec fn count_le<T: PartialOrd>(s: Seq<T>, x: T) -> nat
    decreases s.len(),
{
    if s.len() == 0 {
        0
    } else {
        count_le(s.drop_last(), x) + if before(x, s.last()) {
            0nat
        } else {
            1nat
        }
    }
}

/// Whether each value of `s` comes before the next.
pub open spec fn increasing<T: PartialOrd>(s: Seq<T>) -> bool {
    forall|i: int, j: int| 0 <= i < j < s.len() ==> before(#[trigger] s[i], #[trigger] s[j])
}

/// Whether `x` is in the set that holds what lies below its first bound if
/// `flag` is set, and changes at each bound of `s`.
pub open spec fn member<T: PartialOrd>(flag: bool, s: Seq<T>, x: T) -> bool {
    flag != (count_le(s, x) % 2 == 1)
}

/// Where the first `k` values of `s` do not come behind `x` and the others
/// do, `k` is their number.
proof fn lemma_count_split<T: PartialOrd>(s: Seq<T>, x: T, k: int)
    requires
        0 <= k <= s.len(),
        forall|i: int| 0 <= i < k ==> !before(x, #[trigger] s[i]),
        forall|i: int| k <= i < s.len() ==> before(x, #[trigger] s[i]),
    ensures
        count_le(s, x) == k,
    decreases s.len(),
{
    if s.len() > 0 {
        let init = s.drop_last();
        assert forall|i: int| 0 <= i < k && i < init.len()
            implies !before(x, #[trigger] init[i]) by {
            assert(init[i] == s[i]);
        }
        assert forall|i: int| k <= i < init.len() implies before(x, #[trigger] init[i]) by {
            assert(init[i] == s[i]);
        }
        if k == s.len() {
            lemma_count_split(init, x, k - 1);
            assert(s.last() == s[k - 1]);
        } else {
            lemma_count_split(init, x, k);
            assert(s.last() == s[s.len() - 1]);
        }
    }
}

/// One of the three ways in which two sets are combined.
#[derive(Clone, Copy)]
enum Op {
    And,
    Or,
    Xor,
}

impl Op {
    spec fn apply_spec(self, x: bool, y: bool) -> bool {
        match self {
            Op::And => x && y,
            Op::Or => x || y,
            Op::Xor => x != y,
        }
    }

    fn apply(self, x: bool, y: bool) -> (r: bool)
        ensures
            r == self.apply_spec(x, y),
    {
        match self {
            Op::And => x && y,
            Op::Or => x || y,
            Op::Xor => x != y,
        }
    }
}

/// A set of values of `T` that is a union of intervals. The least value at
/// which membership changes is the first bound, and so on.
pub struct RangeSet<T: PartialOrd>(bool, Vec<T>);

impl<T: PartialOrd> RangeSet<T> {
    /// Whether what lies below the first bound is in the set.
    pub closed spec fn flag(&self) -> bool {
        self.0
    }

    /// The values at which membership changes.
    pub closed spec fn bounds(&self) -> Seq<T> {
        self.1@
    }

    /// The bounds are in order.
    pub open spec fn wf(&self) -> bool {
        increasing(self.bounds())
    }

    /// Whether `x` is in the set.
    pub open spec fn contains(&self, x: T) -> bool {
        member(self.flag(), self.bounds(), x)
    }

    /// The empty set.
    pub fn new() -> (r: Self)
        ensures
            r.wf(),
            !r.flag(),
            r.bounds() == Seq::<T>::empty(),
            forall|x: T| !r.contains(x),
    {
        RangeSet(false, Vec::new())
    }

    /// The set of all values.
    pub fn full() -> (r: Self)
        ensures
            r.wf(),
            r.flag(),
            r.bounds() == Seq::<T>::empty(),
            forall|x: T| r.contains(x),
    {
        RangeSet(true, Vec::new())
    }

    /// The set of the values from `start` on that come before `end`.
    pub fn from_range(start: T, end: T) -> (r: Self)
        requires
            total_order::<T>(),
        ensures
            !r.flag(),
            r.bounds() == seq![start, end],
            before(start, end) ==> r.wf() && forall|x: T|
                r.contains(x) == (!before(x, start) && before(x, end)),
    {
        let mut v: Vec<T> = Vec::new();
        v.push(start);
        v.push(end);
        let r = RangeSet(false, v);
        proof {
            if before(start, end) {
                assert forall|x: T| r.contains(x) == (!before(x, start) && before(x, end)) by {
                    let s = r.bounds();
                    assert(s =~= seq![start, end]);
                    if before(x, start) {
                        lemma_count_split(s, x, 0);
                    } else if before(x, end) {
                        lemma_count_split(s, x, 1);
                    } else {
                        lemma_count_split(s, x, 2);
                    }
                }
            }
        }
        r
    }

    /// The set of the values from `start` on.
    pub fn from_start(start: T) -> (r: Self)
        requires
            total_order::<T>(),
        ensures
            r.wf(),
            !r.flag(),
            r.bounds() == seq![start],
            forall|x: T| r.contains(x) == !before(x, start),
    {
        let mut v: Vec<T> = Vec::new();
        v.push(start);
        let r = RangeSet(false, v);
        proof {
            assert forall|x: T| r.contains(x) == !before(x, start) by {
                let s = r.bounds();
                assert(s =~= seq![start]);
                if before(x, start) {
                    lemma_count_split(s, x, 0);
                } else {
                    lemma_count_split(s, x, 1);
                }
            }
        }
        r
    }

    /// The set of the values that come before `end`.
    pub fn from_end(end: T) -> (r: Self)
        requires
            total_order::<T>(),
        ensures
            r.wf(),
            r.flag(),
            r.bounds() == seq![end],
            forall|x: T| r.contains(x) == before(x, end),
    {
        let mut v: Vec<T> = Vec::new();
        v.push(end);
        let r = RangeSet(true, v);
        proof {
            assert forall|x: T| r.contains(x) == before(x, end) by {
                let s = r.bounds();
                assert(s =~= seq![end]);
                if before(x, end) {
                    lemma_count_split(s, x, 0);
                } else {
                    lemma_count_split(s, x, 1);
                }
            }
        }
        r
    }

    /// Whether `item` is in the set.
    pub fn has(&self, item: &T) -> (r: bool)
        requires
            total_order::<T>(),
            self.wf(),
        ensures
            r == self.contains(*item),
    {
        let mut lo: usize = 0;
        let mut hi: usize = self.1.len();
        while lo < hi
            invariant
                total_order::<T>(),
                self.wf(),
                lo <= hi <= self.1@.len(),
                forall|i: int| 0 <= i < lo ==> !before(*item, #[trigger] self.1@[i]),
                forall|i: int| hi <= i < self.1@.len() ==> before(*item, #[trigger] self.1@[i]),
            decreases hi - lo,
        {
            let mid = lo + (hi - lo) / 2;
            if is_before(item, &self.1[mid]) {
                proof {
                    assert forall|i: int| mid <= i < self.1@.len() implies before(
                        *item,
                        #[trigger] self.1@[i],
                    ) by {
                        if i > mid {
                            assert(before(self.1@[mid as int], self.1@[i]));
                        }
                    }
                }
                hi = mid;
            } else {
                proof {
                    assert forall|i: int| 0 <= i < mid + 1 implies !before(
                        *item,
                        #[trigger] self.1@[i],
                    ) by {
                        if i < mid {
                            assert(before(self.1@[i], self.1@[mid as int]));
                        }
                    }
                }
                lo = mid + 1;
            }
        }
        proof {
            lemma_count_split(self.1@, *item, lo as int);
        }
        (lo % 2 == 1) != self.0
    }

    /// The set of the values that are not in `self`.
    pub fn complement(self) -> (r: Self)
        ensures
            r.flag() == !self.flag(),
            r.bounds() == self.bounds(),
            forall|x: T| #[trigger] r.contains(x) == !self.contains(x),
    {
        RangeSet(!self.0, self.1)
    }
}

/// Whether `x` comes before the values of `a` from `i` on and those of `b`
/// from `j` on.
spec fn below<T: PartialOrd>(a: Seq<T>, b: Seq<T>, i: int, j: int, x: T) -> bool {
    &&& i < a.len() ==> before(x, a[i])
    &&& j < b.len() ==> before(x, b[j])
}

/// One step of combining two sets: where the combined set is right below
/// the bounds that are still to come, it stays so after the next bound,
/// `item`, was taken from `a`, from `b` or from both.
proof fn lemma_key_step<T: PartialOrd>(
    a: Seq<T>,
    b: Seq<T>,
    out: Seq<T>,
    out2: Seq<T>,
    i: int,
    j: int,
    i2: int,
    j2: int,
    item: T,
    fa0: bool,
    fb0: bool,
    flag: bool,
    op: Op,
    x: T,
)
    requires
        total_order::<T>(),
        increasing(a),
        increasing(b),
        0 <= i <= i2 <= a.len(),
        0 <= j <= j2 <= b.len(),
        i2 <= i + 1,
        j2 <= j + 1,
        i2 + j2 > i + j,
        out2 == out || out2 == out.push(item),
        i2 > i ==> a[i] == item,
        j2 > j ==> b[j] == item,
        i2 == i && i < a.len() ==> before(item, a[i]),
        j2 == j && j < b.len() ==> before(item, b[j]),
        forall|t: int| 0 <= t < i ==> before(#[trigger] a[t], item),
        forall|t: int| 0 <= t < j ==> before(#[trigger] b[t], item),
        forall|t: int| 0 <= t < out.len() ==> before(#[trigger] out[t], item),
        below(a, b, i, j, x) ==> member(flag, out, x) == op.apply_spec(
            member(fa0, a, x),
            member(fb0, b, x),
        ),
        (flag != (out2.len() % 2 == 1)) == op.apply_spec(
            fa0 != (i2 % 2 == 1),
            fb0 != (j2 % 2 == 1),
        ),
        below(a, b, i2, j2, x),
    ensures
        member(flag, out2, x) == op.apply_spec(member(fa0, a, x), member(fb0, b, x)),
{
    if before(x, item) {
        // `x` lies below all bounds that were still to come before the step
        assert(below(a, b, i, j, x));
        if out2 != out {
            assert(out2.drop_last() =~= out);
            assert(out2.last() == item);
        }
    } else {
        assert forall|t: int| 0 <= t < i2 implies !before(x, #[trigger] a[t]) by {
            if t < i {
                assert(before(a[t], item));
            }
        }
        assert forall|t: int| i2 <= t < a.len() implies before(x, #[trigger] a[t]) by {
            if t > i2 {
                assert(before(a[i2], a[t]));
            }
        }
        lemma_count_split(a, x, i2);
        assert forall|t: int| 0 <= t < j2 implies !before(x, #[trigger] b[t]) by {
            if t < j {
                assert(before(b[t], item));
            }
        }
        assert forall|t: int| j2 <= t < b.len() implies before(x, #[trigger] b[t]) by {
            if t > j2 {
                assert(before(b[j2], b[t]));
            }
        }
        lemma_count_split(b, x, j2);
        assert forall|t: int| 0 <= t < out2.len() implies !before(x, #[trigger] out2[t]) by {
            if t < out.len() {
                assert(out2[t] == out[t]);
                assert(before(out[t], item));
            } else {
                assert(out2[t] == item);
            }
        }
        lemma_count_split(out2, x, out2.len() as int);
    }
}

impl<T: PartialOrd> RangeSet<T> {
    /// The set of the values `x` for which `op` gives `true` on whether `x`
    /// is in `self` and whether it is in `rhs`.
    fn build(self, rhs: Self, op: Op) -> (r: Self)
        requires
            total_order::<T>(),
            self.wf(),
            rhs.wf(),
        ensures
            r.wf(),
            forall|x: T| #[trigger]
                r.contains(x) == op.apply_spec(self.contains(x), rhs.contains(x)),
    {
        let ghost a = self.1@;
        let ghost b = rhs.1@;
        let ghost fa0 = self.0;
        let ghost fb0 = rhs.0;
        let mut fa = self.0;
        let mut fb = rhs.0;
        let mut status = op.apply(fa, fb);
        let flag = status;
        let m = merge_iter(self.1, rhs.1);
        let ghost ms = m@;
        let mut stack = reversed(m);
        let mut out: Vec<T> = Vec::new();
        let ghost mut k: int = 0;
        proof {
            assert forall|x: T| below(a, b, 0, 0, x) implies member(flag, out@, x) == op.apply_spec(
                member(fa0, a, x),
                member(fb0, b, x),
            ) by {
                assert forall|t: int| 0 <= t < a.len() implies before(x, #[trigger] a[t]) by {
                    if t > 0 {
                        assert(before(a[0], a[t]));
                    }
                }
                assert forall|t: int| 0 <= t < b.len() implies before(x, #[trigger] b[t]) by {
                    if t > 0 {
                        assert(before(b[0], b[t]));
                    }
                }
                lemma_count_split(a, x, 0);
                lemma_count_split(b, x, 0);
            }
        }
        while stack.len() > 0
            invariant
                total_order::<T>(),
                increasing(a),
                increasing(b),
                merge_of(a, b, ms),
                0 <= k <= ms.len(),
                stack@.len() == ms.len() - k,
                forall|t: int| 0 <= t < stack@.len() ==> stack@[t] == ms[ms.len() - 1 - t],
                lefts(ms, k) <= a.len(),
                rights(ms, k) <= b.len(),
                fa == (fa0 != (lefts(ms, k) % 2 == 1)),
                fb == (fb0 != (rights(ms, k) % 2 == 1)),
                status == op.apply_spec(fa, fb),
                status == (flag != (out@.len() % 2 == 1)),
                increasing(out@),
                forall|t: int|
                    0 <= t < out@.len() ==> below(
                        a,
                        b,
                        lefts(ms, k) as int,
                        rights(ms, k) as int,
                        #[trigger] out@[t],
                    ),
                forall|t: int, u: int|
                    0 <= t < lefts(ms, k) && rights(ms, k) <= u < b.len() ==> before(
                        #[trigger] a[t],
                        #[trigger] b[u],
                    ),
                forall|t: int, u: int|
                    0 <= t < rights(ms, k) && lefts(ms, k) <= u < a.len() ==> before(
                        #[trigger] b[t],
                        #[trigger] a[u],
                    ),
                forall|x: T|
                    below(a, b, lefts(ms, k) as int, rights(ms, k) as int, x) ==> #[trigger] member(
                        flag,
                        out@,
                        x,
                    ) == op.apply_spec(member(fa0, a, x), member(fb0, b, x)),
            decreases stack@.len(),
        {
            let ghost i = lefts(ms, k) as int;
            let ghost j = rights(ms, k) as int;
            let ghost out0 = out@;
            let content = stack.pop().unwrap();
            proof {
                assert(content == ms[k]);
                assert(step_ok(a, b, ms, k));
            }
            let item = match content {
                MergeContent::Left(x) => {
                    fa = !fa;
                    x
                },
                MergeContent::Right(y) => {
                    fb = !fb;
                    y
                },
                MergeContent::Both(x, _) => {
                    fa = !fa;
                    fb = !fb;
                    x
                },
            };
            let next = op.apply(fa, fb);
            let ghost i2 = lefts(ms, k + 1) as int;
            let ghost j2 = rights(ms, k + 1) as int;
            proof {
                // every bound that was taken comes before `item`
                assert forall|t: int| 0 <= t < i implies before(#[trigger] a[t], item) by {
                    if i2 > i {
                        assert(before(a[t], a[i]));
                    } else {
                        assert(before(a[t], b[j]));
                    }
                }
                assert forall|t: int| 0 <= t < j implies before(#[trigger] b[t], item) by {
                    if j2 > j {
                        assert(before(b[t], b[j]));
                    } else {
                        assert(before(b[t], a[i]));
                    }
                }
                assert forall|t: int| 0 <= t < out0.len() implies before(
                    #[trigger] out0[t],
                    item,
                ) by {
                    assert(below(a, b, i, j, out0[t]));
                }
            }
            if status != next {
                status = next;
                out.push(item);
            }
            proof {
                let out2 = out@;
                assert forall|t: int, u: int| 0 <= t < u < out2.len() implies before(
                    #[trigger] out2[t],
                    #[trigger] out2[u],
                ) by {
                    if u < out0.len() {
                        assert(before(out0[t], out0[u]));
                    } else {
                        assert(before(out0[t], item));
                    }
                }
                assert forall|t: int, u: int| 0 <= t < i2 && j2 <= u < b.len() implies before(
                    #[trigger] a[t],
                    #[trigger] b[u],
                ) by {
                    if t < i {
                        if u >= j {
                        }
                    } else {
                        // `a[i]` was taken as `item`
                        if j2 == j {
                            if u > j {
                                assert(before(b[j], b[u]));
                            }
                        } else {
                            assert(before(b[j], b[u]));
                        }
                    }
                }
                assert forall|t: int, u: int| 0 <= t < j2 && i2 <= u < a.len() implies before(
                    #[trigger] b[t],
                    #[trigger] a[u],
                ) by {
                    if t < j {
                        if u >= i {
                        }
                    } else {
                        if i2 == i {
                            if u > i {
                                assert(before(a[i], a[u]));
                            }
                        } else {
                            assert(before(a[i], a[u]));
                        }
                    }
                }
                assert forall|t: int| 0 <= t < out2.len() implies below(
                    a,
                    b,
                    i2,
                    j2,
                    #[trigger] out2[t],
                ) by {
                    let e = out2[t];
                    if t < out0.len() {
                        assert(before(out0[t], item));
                    }
                    if i2 < a.len() {
                        if i2 > i {
                            assert(before(a[i], a[i2]));
                        }
                    }
                    if j2 < b.len() {
                        if j2 > j {
                            assert(before(b[j], b[j2]));
                        }
                    }
                }
                assert forall|x: T| below(a, b, i2, j2, x) implies #[trigger] member(flag, out2, x)
                    == op.apply_spec(member(fa0, a, x), member(fb0, b, x)) by {
                    lemma_key_step(a, b, out0, out2, i, j, i2, j2, item, fa0, fb0, flag, op, x);
                }
                k = k + 1;
            }
        }
        proof {
            assert(lefts(ms, k) == a.len());
            assert(rights(ms, k) == b.len());
        }
        let r = RangeSet(flag, out);
        proof {
            assert forall|x: T| #[trigger]
                r.contains(x) == op.apply_spec(self.contains(x), rhs.contains(x)) by {
                assert(below(a, b, a.len() as int, b.len() as int, x));
            }
        }
        r
    }

    /// The set of the values that are in both sets.
    pub fn and(self, rhs: Self) -> (r: Self)
        requires
            total_order::<T>(),
            self.wf(),
            rhs.wf(),
        ensures
            r.wf(),
            forall|x: T| #[trigger] r.contains(x) == (self.contains(x) && rhs.contains(x)),
    {
        self.build(rhs, Op::And)
    }

    /// The set of the values that are in one of the two sets, or in both.
    pub fn or(self, rhs: Self) -> (r: Self)
        requires
            total_order::<T>(),
            self.wf(),
            rhs.wf(),
        ensures
            r.wf(),
            forall|x: T| #[trigger] r.contains(x) == (self.contains(x) || rhs.contains(x)),
    {
        self.build(rhs, Op::Or)
    }

    /// The set of the values that are in one of the two sets and not in the other.
    pub fn xor(self, rhs: Self) -> (r: Self)
        requires
            total_order::<T>(),
            self.wf(),
            rhs.wf(),
        ensures
            r.wf(),
            forall|x: T| #[trigger] r.contains(x) == (self.contains(x) != rhs.contains(x)),
    {
        self.build(rhs, Op::Xor)
    }
}

impl<T: PartialOrd + Copy> RangeSet<T> {
    /// A set with the same bounds.
    fn copied(&self) -> (r: Self)
        ensures
            r.flag() == self.flag(),
            r.bounds() == self.bounds(),
    {
        let mut out: Vec<T> = Vec::new();
        let mut i: usize = 0;
        while i < self.1.len()
            invariant
                i <= self.1@.len(),
                out@ == self.1@.subrange(0, i as int),
            decreases self.1@.len() - i,
        {
            out.push(self.1[i]);
            assert(out@ =~= self.1@.subrange(0, i + 1));
            i += 1;
        }
        assert(out@ =~= self.1@);
        RangeSet(self.0, out)
    }

    /// The set of the values `x` for which `op` gives `true` on whether `x`
    /// is in `self` and whether it is in `rhs`; the two sets are left as
    /// they are.
    fn copy_build(&self, rhs: &Self, op: Op) -> (r: Self)
        requires
            total_order::<T>(),
            self.wf(),
            rhs.wf(),
        ensures
            r.wf(),
            forall|x: T| #[trigger]
                r.contains(x) == op.apply_spec(self.contains(x), rhs.contains(x)),
    {
        self.copied().build(rhs.copied(), op)
    }

    /// Leaves in `self` the values that are in `rhs` as well.
    pub fn and_with(&mut self, rhs: &Self)
        requires
            total_order::<T>(),
            old(self).wf(),
            rhs.wf(),
        ensures
            final(self).wf(),
            forall|x: T| #[trigger]
                final(self).contains(x) == (old(self).contains(x) && rhs.contains(x)),
    {
        let r = self.copy_build(rhs, Op::And);
        *self = r;
    }

    /// Puts the values of `rhs` into `self`.
    pub fn or_with(&mut self, rhs: &Self)
        requires
            total_order::<T>(),
            old(self).wf(),
            rhs.wf(),
        ensures
            final(self).wf(),
            forall|x: T| #[trigger]
                final(self).contains(x) == (old(self).contains(x) || rhs.contains(x)),
    {
        let r = self.copy_build(rhs, Op::Or);
        *self = r;
    }

    /// Leaves in `self` the values that are in one of `self` and `rhs` and
    /// not in the other.
    pub fn xor_with(&mut self, rhs: &Self)
        requires
            total_order::<T>(),
            old(self).wf(),
            rhs.wf(),
        ensures
            final(self).wf(),
            forall|x: T| #[trigger]
                final(self).contains(x) == (old(self).contains(x) != rhs.contains(x)),
    {
        let r = self.copy_build(rhs, Op::Xor);
        *self = r;
    }
}

impl<T: PartialOrd> Not for RangeSet<T> {
    type Output = Self;

    /// The set of the values that are not in `self`.
    fn not(self) -> (r: Self)
        ensures
            r.flag() == !self.flag(),
            r.bounds() == self.bounds(),
            forall|x: T| #[trigger] r.contains(x) == !self.contains(x),
    {
        self.complement()
    }
}

impl<T: PartialOrd> vstd::std_specs::ops::NotSpecImpl for RangeSet<T> {
    open spec fn obeys_not_spec() -> bool {
        false
    }

    open spec fn not_req(self) -> bool {
        true
    }

    open spec fn not_spec(self) -> Self {
        self
    }
}

impl<T: PartialOrd> BitAnd for RangeSet<T> {
    type Output = Self;

    /// The set of the values that are in both sets.
    fn bitand(self, rhs: Self) -> (r: Self)
        ensures
            r.wf(),
            forall|x: T| #[trigger] r.contains(x) == (self.contains(x) && rhs.contains(x)),
    {
        self.and(rhs)
    }
}

impl<T: PartialOrd> vstd::std_specs::ops::BitAndSpecImpl for RangeSet<T> {
    open spec fn obeys_bitand_spec() -> bool {
        false
    }

    open spec fn bitand_req(self, rhs: Self) -> bool {
        total_order::<T>() && self.wf() && rhs.wf()
    }

    open spec fn bitand_spec(self, rhs: Self) -> Self {
        self
    }
}

impl<T: PartialOrd> BitOr for RangeSet<T> {
    type Output = Self;

    /// The set of the values that are in one of the two sets, or in both.
    fn bitor(self, rhs: Self) -> (r: Self)
        ensures
            r.wf(),
            forall|x: T| #[trigger] r.contains(x) == (self.contains(x) || rhs.contains(x)),
    {
        self.or(rhs)
    }
}

impl<T: PartialOrd> vstd::std_specs::ops::BitOrSpecImpl for RangeSet<T> {
    open spec fn obeys_bitor_spec() -> bool {
        false
    }

    open spec fn bitor_req(self, rhs: Self) -> bool {
        total_order::<T>() && self.wf() && rhs.wf()
    }

    open spec fn bitor_spec(self, rhs: Self) -> Self {
        self
    }
}

impl<T: PartialOrd> BitXor for RangeSet<T> {
    type Output = Self;

    /// The set of the values that are in one of the two sets and not in
    /// the other.
    fn bitxor(self, rhs: Self) -> (r: Self)
        ensures
            r.wf(),
            forall|x: T| #[trigger] r.contains(x) == (self.contains(x) != rhs.contains(x)),
    {
        self.xor(rhs)
    }
}

impl<T: PartialOrd> vstd::std_specs::ops::BitXorSpecImpl for RangeSet<T> {
    open spec fn obeys_bitxor_spec() -> bool {
        false
    }

    open spec fn bitxor_req(self, rhs: Self) -> bool {
        total_order::<T>() && self.wf() && rhs.wf()
    }

    open spec fn bitxor_spec(self, rhs: Self) -> Self {
        self
    }
}

impl<T: PartialOrd> From<Range<T>> for RangeSet<T> {
    /// The set of the values from `value.start` on that come before
    /// `value.end`, where the first comes before the second.
    fn from(value: Range<T>) -> (r: Self)
        ensures
            !r.flag(),
            r.bounds() == seq![value.start, value.end],
    {
        let mut v: Vec<T> = Vec::new();
        v.push(value.start);
        v.push(value.end);
        RangeSet(false, v)
    }
}

impl<T: PartialOrd> vstd::std_specs::convert::FromSpecImpl<Range<T>> for RangeSet<T> {
    open spec fn obeys_from_spec() -> bool {
        false
    }

    open spec fn from_spec(v: Range<T>) -> Self {
        arbitrary()
    }
}

impl<T: PartialOrd> From<RangeFrom<T>> for RangeSet<T> {
    /// The set of the values from `value.start` on.
    fn from(value: RangeFrom<T>) -> (r: Self)
        ensures
            !r.flag(),
            r.bounds() == seq![value.start],
    {
        let mut v: Vec<T> = Vec::new();
        v.push(value.start);
        RangeSet(false, v)
    }
}

impl<T: PartialOrd> vstd::std_specs::convert::FromSpecImpl<RangeFrom<T>> for RangeSet<T> {
    open spec fn obeys_from_spec() -> bool {
        false
    }

    open spec fn from_spec(v: RangeFrom<T>) -> Self {
        arbitrary()
    }
}

impl<T: PartialOrd> From<RangeTo<T>> for RangeSet<T> {
    /// The set of the values that come before `value.end`.
    fn from(value: RangeTo<T>) -> (r: Self)
        ensures
            r.flag(),
            r.bounds() == seq![value.end],
    {
        let mut v: Vec<T> = Vec::new();
        v.push(value.end);
        RangeSet(true, v)
    }
}

impl<T: PartialOrd> vstd::std_specs::convert::FromSpecImpl<RangeTo<T>> for RangeSet<T> {
    open spec fn obeys_from_spec() -> bool {
        false
    }

    open spec fn from_spec(v: RangeTo<T>) -> Self {
        arbitrary()
    }
}

impl<T: PartialOrd> From<RangeFull> for RangeSet<T> {
    /// The set of all values.
    fn from(value: RangeFull) -> (r: Self)
        ensures
            r.flag(),
            r.bounds() == Seq::<T>::empty(),
    {
        RangeSet(true, Vec::new())
    }
}

impl<T: PartialOrd> vstd::std_specs::convert::FromSpecImpl<RangeFull> for RangeSet<T> {
    open spec fn obeys_from_spec() -> bool {
        false
    }

    open spec fn from_spec(v: RangeFull) -> Self {
        arbitrary()
    }
}

/// What the sets that are made from ranges hold.
pub proof fn lemma_from_ranges<T: PartialOrd>(r: RangeSet<T>, x: T)
    requires
        total_order::<T>(),
    ensures
        r.bounds() == Seq::<T>::empty() ==> r.wf() && r.contains(x) == r.flag(),
        r.bounds().len() == 1 ==> r.wf() && r.contains(x) == (r.flag() == before(
            x,
            r.bounds()[0],
        )),
        r.bounds().len() == 2 && !r.flag() && before(r.bounds()[0], r.bounds()[1]) ==> r.wf()
            && r.contains(x) == (!before(x, r.bounds()[0]) && before(x, r.bounds()[1])),
{
    let s = r.bounds();
    if s.len() == 0 {
        assert(s =~= Seq::<T>::empty());
    } else if s.len() == 1 {
        if before(x, s[0]) {
            lemma_count_split(s, x, 0);
        } else {
            lemma_count_split(s, x, 1);
        }
    } else if s.len() == 2 && !r.flag() && before(s[0], s[1]) {
        if before(x, s[0]) {
            lemma_count_split(s, x, 0);
        } else if before(x, s[1]) {
            lemma_count_split(s, x, 1);
        } else {
            lemma_count_split(s, x, 2);
        }
    }
}

} // verus!
