//! A binary indexed tree: point updates and range sums over a commutative group.

use crate::util::{
    fold_op, lemma_fold_op_concat, normalize, range_lower, range_upper, range_within,
    Commutativity, IndexRange,
};
use crate::weightedunionfind::Group;
use vstd::prelude::*;

verus! {

/// A commutative group.
pub trait AbelianGroup: Group + Commutativity {

}

impl<T: Group + Commutativity> AbelianGroup for T {

}

/// `x` without its lowest set bit: where the block that ends before
/// position `x` begins.
pub open spec fn start_of(x: usize) -> usize {
    x & ((x - 1) as usize)
}

/// Whether the block kept at position `i` holds position `p`.
pub open spec fn covers(i: int, p: int) -> bool {
    start_of((i + 1) as usize) <= p <= i
}

/// Every entry of the tree is the sum of its block of `a`.
pub open spec fn blocks_ok<G: AbelianGroup>(g: &G, t: Seq<G::T>, a: Seq<G::T>) -> bool {
    &&& t.len() == a.len()
    &&& forall|i: int|
        0 <= i < t.len() ==> #[trigger] t[i] == fold_op(
            g,
            a.subrange(start_of((i + 1) as usize) as int, i + 1),
        )
}

proof fn lemma_start(x: usize)
    requires
        x > 0,
    ensures
        start_of(x) < x,
        (x & !(x & !((x - 1) as usize))) == start_of(x),
{
    assert(x > 0 ==> x & ((x - 1) as usize) < x) by (bit_vector);
    assert(x > 0 ==> (x & !(x & !((x - 1) as usize))) == x & ((x - 1) as usize)) by (bit_vector);
}

proof fn lemma_next(j: usize)
    requires
        j < usize::MAX,
    ensures
        (j | (((j + 1) as usize) & !j)) == j | ((j + 1) as usize),
        (j | ((j + 1) as usize)) > j,
{
    assert(((j + 1) as usize) > j ==> (j | (((j + 1) as usize) & !j)) == j | ((j + 1) as usize))
        by (bit_vector);
    assert(((j + 1) as usize) > j ==> (j | ((j + 1) as usize)) > j) by (bit_vector);
}

/// No block between one that holds `p` and the next one up holds `p`.
proof fn lemma_between(p: usize, j: usize, i: usize)
    requires
        j < usize::MAX,
        i < usize::MAX,
        covers(j as int, p as int),
        j < i < (j | ((j + 1) as usize)),
    ensures
        !covers(i as int, p as int),
{
    assert(((j + 1) as usize) > j && ((i + 1) as usize) > i && ((j + 1) as usize) & j <= p && p
        <= j && j < i && i < (j | ((j + 1) as usize)) ==> ((i + 1) as usize) & i > p)
        by (bit_vector);
}

/// The next block up from one that holds `p` holds `p` too.
proof fn lemma_up(p: usize, j: usize)
    requires
        j < usize::MAX,
        (j | ((j + 1) as usize)) < usize::MAX,
        covers(j as int, p as int),
    ensures
        covers((j | ((j + 1) as usize)) as int, p as int),
{
    assert(((j + 1) as usize) > j && ((j + 1) as usize) & j <= p && p <= j ==> (((j | ((j
        + 1) as usize)) + 1) as usize) & (j | ((j + 1) as usize)) <= p) by (bit_vector);
    lemma_next(j);
}

/// The sum of a sequence of identities is the identity.
proof fn lemma_fold_fresh<G: AbelianGroup>(g: &G, s: Seq<G::T>)
    requires
        forall|i: int| 0 <= i < s.len() ==> s[i] == g.e_spec(),
    ensures
        fold_op(g, s) == g.e_spec(),
    decreases s.len(),
{
    if s.len() > 0 {
        lemma_fold_fresh(g, s.drop_last());
        g.identity(g.e_spec());
    }
}

/// Operating on one element of a sequence with `v` operates on its sum with `v`.
proof fn lemma_fold_bump<G: AbelianGroup>(g: &G, s: Seq<G::T>, k: int, v: G::T)
    requires
        0 <= k < s.len(),
    ensures
        fold_op(g, s.update(k, g.op_spec(s[k], v))) == g.op_spec(fold_op(g, s), v),
    decreases s.len(),
{
    let t = s.update(k, g.op_spec(s[k], v));
    let init = s.drop_last();
    if k == s.len() - 1 {
        assert(t.drop_last() =~= init);
        g.associative(fold_op(g, init), s[k], v);
    } else {
        assert(t.drop_last() =~= init.update(k, g.op_spec(init[k], v)));
        lemma_fold_bump(g, init, k, v);
        g.associative(fold_op(g, init), v, s.last());
        g.commutative(v, s.last());
        g.associative(fold_op(g, init), s.last(), v);
    }
}

/// A sequence over a commutative group with point updates and range sums in
/// logarithmic time.
pub struct BinaryIndexedTree<G: AbelianGroup>(Vec<G::T>, G, Ghost<Seq<G::T>>);

impl<G: AbelianGroup> View for BinaryIndexedTree<G> {
    type V = Seq<G::T>;

    /// The elements, in order.
    closed spec fn view(&self) -> Seq<G::T> {
        self.2@
    }
}

impl<G: AbelianGroup> BinaryIndexedTree<G> {
    /// Every entry of the tree is the sum of its block of elements.
    pub closed spec fn wf(&self) -> bool {
        blocks_ok(&self.1, self.0@, self.2@)
    }

    /// The group in which the elements are added up.
    pub closed spec fn group(&self) -> &G {
        &self.1
    }

    /// `n` elements, each the identity of `group`.
    pub fn new(group: G, n: usize) -> (r: Self)
        ensures
            r.wf(),
            r.group() == &group,
            r@.len() == n,
            forall|i: int| 0 <= i < n ==> r@[i] == group.e_spec(),
    {
        let mut tree: Vec<G::T> = Vec::new();
        let mut i: usize = 0;
        while i < n
            invariant
                i <= n,
                tree@.len() == i,
                forall|j: int| 0 <= j < i ==> tree@[j] == group.e_spec(),
            decreases n - i,
        {
            tree.push(group.e());
            i += 1;
        }
        let ghost values = Seq::new(n as nat, |j: int| group.e_spec());
        proof {
            assert forall|i: int| 0 <= i < n implies #[trigger] tree@[i] == fold_op(
                &group,
                values.subrange(start_of((i + 1) as usize) as int, i + 1),
            ) by {
                lemma_start((i + 1) as usize);
                lemma_fold_fresh(&group, values.subrange(start_of((i + 1) as usize) as int, i + 1));
            }
        }
        BinaryIndexedTree(tree, group, Ghost(values))
    }

    /// Number of elements.
    pub fn len(&self) -> (r: usize)
        requires
            self.wf(),
        ensures
            r == self@.len(),
    {
        self.0.len()
    }

    /// Whether there is no element.
    pub fn is_empty(&self) -> (r: bool)
        requires
            self.wf(),
        ensures
            r == (self@.len() == 0),
    {
        self.0.len() == 0
    }

    /// Operates on the element at `index` with `val`.
    pub fn add(&mut self, index: usize, val: &G::T)
        requires
            old(self).wf(),
            index < old(self)@.len(),
        ensures
            final(self).wf(),
            final(self).group() == old(self).group(),
            final(self)@ == old(self)@.update(
                index as int,
                old(self).group().op_spec(old(self)@[index as int], *val),
            ),
    {
        let n = self.0.len();
        let ghost t0 = self.0@;
        let ghost a0 = self.2@;
        let ghost a1 = a0.update(index as int, self.1.op_spec(a0[index as int], *val));
        proof {
            lemma_start((index + 1) as usize);
        }
        let mut at = index;
        while at < n
            invariant
                n == t0.len(),
                self.0@.len() == n,
                self.1 == old(self).1,
                self.2 == old(self).2,
                index < n,
                index <= at,
                at < n ==> covers(at as int, index as int),
                forall|i: int|
                    0 <= i < n ==> #[trigger] self.0@[i] == if i < at && covers(i, index as int) {
                        self.1.op_spec(t0[i], *val)
                    } else {
                        t0[i]
                    },
            decreases usize::MAX - at,
        {
            let sum = self.1.op(&self.0[at], val);
            self.0.set(at, sum);
            let next = at | ((at + 1) & !at);
            proof {
                lemma_next(at);
                assert forall|i: int| at < i < next && i < n implies !covers(i, index as int) by {
                    lemma_between(index, at, i as usize);
                }
                if next < n {
                    lemma_up(index, at);
                }
            }
            at = next;
        }
        self.2 = Ghost(a1);
        proof {
            let g = &self.1;
            assert forall|i: int| 0 <= i < n implies #[trigger] self.0@[i] == fold_op(
                g,
                a1.subrange(start_of((i + 1) as usize) as int, i + 1),
            ) by {
                let lo = start_of((i + 1) as usize) as int;
                lemma_start((i + 1) as usize);
                let block = a0.subrange(lo, i + 1);
                assert(t0[i] == fold_op(g, block));
                if covers(i, index as int) {
                    assert(0 <= index - lo < block.len());
                    assert(a1.subrange(lo, i + 1) =~= block.update(
                        index - lo,
                        g.op_spec(block[index - lo], *val),
                    ));
                    lemma_fold_bump(g, block, index - lo, *val);
                } else {
                    assert(a1.subrange(lo, i + 1) =~= block);
                }
            }
        }
    }

    /// The sum of the elements in `range`.
    pub fn sum<R: IndexRange>(&self, range: R) -> (r: G::T)
        requires
            self.wf(),
            range_within(&range, self@.len() as int),
        ensures
            r == fold_op(
                self.group(),
                self@.subrange(range_lower(&range), range_upper(&range, self@.len() as int)),
            ),
    {
        let (lo, hi) = normalize(&range, self.0.len());
        let g = &self.1;
        let ghost a = self.2@;
        let ghost target = fold_op(g, a.subrange(lo as int, hi as int));
        let mut left = lo;
        let mut right = hi;
        let mut s = g.e();
        proof {
            // prefix(hi) == prefix(lo) . target == target . prefix(lo)
            assert(a.subrange(0, hi as int) =~= a.subrange(0, lo as int) + a.subrange(
                lo as int,
                hi as int,
            ));
            lemma_fold_op_concat(g, a.subrange(0, lo as int), a.subrange(lo as int, hi as int));
            g.commutative(fold_op(g, a.subrange(0, lo as int)), target);
            g.identity(fold_op(g, a.subrange(0, hi as int)));
        }
        while left != right
            invariant
                self.wf(),
                g == &self.1,
                a == self.2@,
                left <= a.len(),
                right <= a.len(),
                g.op_spec(s, fold_op(g, a.subrange(0, right as int))) == g.op_spec(
                    target,
                    fold_op(g, a.subrange(0, left as int)),
                ),
            decreases left + right,
        {
            if left < right {
                let ghost from = start_of(right);
                proof {
                    lemma_start(right);
                    assert(a.subrange(0, right as int) =~= a.subrange(0, from as int) + a.subrange(
                        from as int,
                        right as int,
                    ));
                    lemma_fold_op_concat(
                        g,
                        a.subrange(0, from as int),
                        a.subrange(from as int, right as int),
                    );
                    let block = self.0@[right - 1];
                    let below = fold_op(g, a.subrange(0, from as int));
                    assert(block == fold_op(g, a.subrange(from as int, right as int)));
                    // (s . block) . below == s . (below . block)
                    g.associative(s, block, below);
                    g.commutative(block, below);
                }
                s = g.op(&s, &self.0[right - 1]);
                right = right & !(right & !(right - 1));
            } else {
                let ghost from = start_of(left);
                proof {
                    lemma_start(left);
                    assert(a.subrange(0, left as int) =~= a.subrange(0, from as int) + a.subrange(
                        from as int,
                        left as int,
                    ));
                    lemma_fold_op_concat(
                        g,
                        a.subrange(0, from as int),
                        a.subrange(from as int, left as int),
                    );
                    let block = self.0@[left - 1];
                    let below = fold_op(g, a.subrange(0, from as int));
                    let whole = fold_op(g, a.subrange(0, right as int));
                    assert(block == fold_op(g, a.subrange(from as int, left as int)));
                    // (s . inv(block)) . whole == (s . whole) . inv(block)
                    //   == (target . (below . block)) . inv(block) == target . below
                    g.associative(s, g.inv_spec(block), whole);
                    g.commutative(g.inv_spec(block), whole);
                    g.associative(s, whole, g.inv_spec(block));
                    g.associative(target, below, block);
                    g.cancels(block, g.op_spec(target, below));
                }
                s = g.opinv(&s, &self.0[left - 1]);
                left = left & !(left & !(left - 1));
            }
        }
        proof {
            let whole = fold_op(g, a.subrange(0, right as int));
            g.cancels(whole, s);
            g.cancels(whole, target);
        }
        s
    }
}

} // verus!
