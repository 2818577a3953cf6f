//! A segment tree with lazy propagation: range products and range updates
//! over a monoid on which a family of maps acts.

use crate::segmenttree::{
    layer_len, layer_off, lemma_apart, lemma_cell, lemma_layers, lemma_off_mono, lemma_pair,
    lemma_shift, lemma_size, lemma_small_layers, node_at, size_of, width, Monoid, SegmentTree,
};
use crate::util::{
    fold_op, lemma_fold_op_concat, lemma_fold_op_one, normalize, range_lower, range_upper,
    range_within, IndexRange,
};
use vstd::prelude::*;

verus! {

/// A monoid with a family of maps `F` that act on its elements: the maps
/// can be composed, one of them changes nothing, and each of them goes
/// through the operation of the monoid.
pub trait LazyMonoid: Monoid {
    /// The maps.
    type F;

    /// The map that changes nothing.
    spec fn id_spec(&self) -> Self::F;

    /// `g` after `f`.
    spec fn comp_spec(&self, g: Self::F, f: Self::F) -> Self::F;

    /// What `f` makes of `x`.
    spec fn map_spec(&self, f: Self::F, x: Self::T) -> Self::T;

    /// The map that changes nothing.
    fn id(&self) -> (r: Self::F)
        ensures
            r == self.id_spec(),
    ;

    /// `g` after `f`.
    fn comp(&self, g: &Self::F, f: &Self::F) -> (r: Self::F)
        ensures
            r == self.comp_spec(*g, *f),
    ;

    /// What `f` makes of `x`.
    fn map(&self, f: &Self::F, x: &Self::T) -> (r: Self::T)
        ensures
            r == self.map_spec(*f, *x),
    ;

    /// `id_spec()` changes nothing.
    proof fn map_id(&self, x: Self::T)
        ensures
            self.map_spec(self.id_spec(), x) == x,
    ;

    /// A composed map does what its parts do one after the other.
    proof fn map_comp(&self, g: Self::F, f: Self::F, x: Self::T)
        ensures
            self.map_spec(self.comp_spec(g, f), x) == self.map_spec(g, self.map_spec(f, x)),
    ;

    /// A map goes through the operation.
    proof fn map_op(&self, f: Self::F, x: Self::T, y: Self::T)
        ensures
            self.map_spec(f, self.op_spec(x, y)) == self.op_spec(
                self.map_spec(f, x),
                self.map_spec(f, y),
            ),
    ;
}

/// The map that waits at node `j` of layer `k`, which is not the lowest.
pub open spec fn lazy_at<F>(lazies: Seq<F>, n: nat, k: nat, j: int) -> F {
    lazies[layer_off(n, k) - n + j]
}

/// Whether `f` changes nothing.
pub open spec fn is_id<M: LazyMonoid>(m: &M, f: M::F) -> bool {
    forall|x: M::T| #[trigger] m.map_spec(f, x) == x
}

/// What the maps that wait above node `j` of layer `k` make of `x`, the
/// nearest first.
pub open spec fn up<M: LazyMonoid>(m: &M, lazies: Seq<M::F>, n: nat, k: nat, j: int,
    x: M::T) -> M::T
    decreases layer_len(n, k),
{
    if 0 <= j / 2 < layer_len(n, k + 1) && layer_len(n, k + 1) < layer_len(n, k) {
        up(m, lazies, n, k + 1, j / 2, m.map_spec(lazy_at(lazies, n, k + 1, j / 2), x))
    } else {
        x
    }
}

/// Whether node `j` of layer `k + 1` is what its map makes of the product
/// of its two children.
pub open spec fn joined<M: LazyMonoid>(
    m: &M,
    values: Seq<M::T>,
    lazies: Seq<M::F>,
    n: nat,
    k: nat,
    j: int,
) -> bool {
    node_at(values, n, k + 1, j) == m.map_spec(
        lazy_at(lazies, n, k + 1, j),
        m.op_spec(node_at(values, n, k, 2 * j), node_at(values, n, k, 2 * j + 1)),
    )
}

/// Every node above the elements is what its map makes of the product of
/// its two children.
pub open spec fn tree_ok<M: LazyMonoid>(m: &M, values: Seq<M::T>, lazies: Seq<M::F>,
    n: nat) -> bool {
    &&& values.len() == size_of(n)
    &&& lazies.len() == size_of(n) - n
    &&& 2 * n <= usize::MAX
    &&& forall|k: nat, j: int|
        0 <= j < layer_len(n, k + 1) ==> #[trigger] joined(m, values, lazies, n, k, j)
}

/// The element at `i`, with all maps that wait above it applied.
pub open spec fn element<M: LazyMonoid>(
    m: &M,
    values: Seq<M::T>,
    lazies: Seq<M::F>,
    n: nat,
    i: int,
) -> M::T {
    up(m, lazies, n, 0, i, values[i])
}

/// A sequence over a monoid with range products and range updates in
/// logarithmic time.
pub struct LazySegmentTree<M: LazyMonoid>(Vec<M::T>, Vec<M::F>, M);

impl<M: LazyMonoid> View for LazySegmentTree<M> {
    type V = Seq<M::T>;

    /// The elements, in order.
    closed spec fn view(&self) -> Seq<M::T> {
        Seq::new(
            (self.0@.len() - self.1@.len()) as nat,
            |i: int|
                element(&self.2, self.0@, self.1@, (self.0@.len() - self.1@.len()) as nat, i),
        )
    }
}

impl<M: LazyMonoid> LazySegmentTree<M> {
    /// Number of elements.
    pub closed spec fn spec_len(&self) -> nat {
        (self.0@.len() - self.1@.len()) as nat
    }

    /// Every node above the elements is what its map makes of the product
    /// of its two children.
    pub closed spec fn wf(&self) -> bool {
        &&& self.1@.len() <= self.0@.len()
        &&& tree_ok(&self.2, self.0@, self.1@, self.spec_len())
    }

    /// The monoid in which the elements are combined.
    pub closed spec fn monoid(&self) -> &M {
        &self.2
    }

    /// Number of elements.
    pub fn len(&self) -> (r: usize)
        requires
            self.wf(),
        ensures
            r == self@.len(),
            r == self.spec_len(),
    {
        self.0.len() - self.1.len()
    }

    /// Whether there is no element.
    pub fn is_empty(&self) -> (r: bool)
        requires
            self.wf(),
        ensures
            r == (self@.len() == 0),
    {
        self.len() == 0
    }
}

/// Whether no map that changes anything waits above node `j` of layer `k`.
pub open spec fn clean<M: LazyMonoid>(m: &M, lazies: Seq<M::F>, n: nat, k: nat, j: int) -> bool
    decreases layer_len(n, k),
{
    if 0 <= j / 2 < layer_len(n, k + 1) && layer_len(n, k + 1) < layer_len(n, k) {
        is_id(m, lazy_at(lazies, n, k + 1, j / 2)) && clean(m, lazies, n, k + 1, j / 2)
    } else {
        true
    }
}

/// Where nothing waits above a node, the node is what it stands for.
proof fn lemma_clean<M: LazyMonoid>(m: &M, lazies: Seq<M::F>, n: nat, k: nat, j: int, x: M::T)
    requires
        clean(m, lazies, n, k, j),
    ensures
        up(m, lazies, n, k, j, x) == x,
    decreases layer_len(n, k),
{
    if 0 <= j / 2 < layer_len(n, k + 1) && layer_len(n, k + 1) < layer_len(n, k) {
        lemma_clean(m, lazies, n, k + 1, j / 2, x);
    }
}

/// The maps that wait above a node go through the operation.
proof fn lemma_up_op<M: LazyMonoid>(
    m: &M,
    lazies: Seq<M::F>,
    n: nat,
    k: nat,
    j: int,
    x: M::T,
    y: M::T,
)
    ensures
        up(m, lazies, n, k, j, m.op_spec(x, y)) == m.op_spec(
            up(m, lazies, n, k, j, x),
            up(m, lazies, n, k, j, y),
        ),
    decreases layer_len(n, k),
{
    if 0 <= j / 2 < layer_len(n, k + 1) && layer_len(n, k + 1) < layer_len(n, k) {
        let f = lazy_at(lazies, n, k + 1, j / 2);
        m.map_op(f, x, y);
        lemma_up_op(m, lazies, n, k + 1, j / 2, m.map_spec(f, x), m.map_spec(f, y));
    }
}

/// A node that has a parent has fewer nodes above it than beside it.
proof fn lemma_parent(n: nat, k: nat, j: int)
    requires
        0 <= j < layer_len(n, k),
    ensures
        layer_len(n, k + 1) == layer_len(n, k) / 2,
        0 <= j / 2 < layer_len(n, k + 1) ==> layer_len(n, k + 1) < layer_len(n, k),
        0 <= j / 2 < layer_len(n, k + 1) <==> (j / 2) * 2 + 1 < layer_len(n, k),
{
    lemma_layers(n, k);
}

/// The elements that the tree stands for.
pub open spec fn elements<M: LazyMonoid>(m: &M, values: Seq<M::T>, lazies: Seq<M::F>,
    n: nat) -> Seq<
    M::T,
> {
    Seq::new(n, |i: int| element(m, values, lazies, n, i))
}

/// A node, with all maps that wait above it applied, is the product of the
/// elements that it stands for.
proof fn lemma_block<M: LazyMonoid>(
    m: &M,
    values: Seq<M::T>,
    lazies: Seq<M::F>,
    n: nat,
    k: nat,
    j: int,
)
    requires
        tree_ok(m, values, lazies, n),
        0 <= j < layer_len(n, k),
    ensures
        0 <= j * width(k),
        (j + 1) * width(k) <= n,
        up(m, lazies, n, k, j, node_at(values, n, k, j)) == fold_op(
            m,
            elements(m, values, lazies, n).subrange(j * width(k), (j + 1) * width(k)),
        ),
    decreases k,
{
    let a = elements(m, values, lazies, n);
    lemma_layers(n, k);
    lemma_size(n);
    let w = width(k);
    assert((j + 1) * w <= layer_len(n, k) * w && 0 <= j * w) by (nonlinear_arith)
        requires
            0 <= j,
            j + 1 <= layer_len(n, k),
            w >= 1,
    ;
    if k == 0 {
        assert(j * 1 == j && (j + 1) * 1 == j + 1);
        assert(a.subrange(j, j + 1) =~= seq![a[j]]);
        lemma_fold_op_one(m, a[j]);
    } else {
        let below = (k - 1) as nat;
        lemma_layers(n, below);
        let h = width(below);
        assert(joined(m, values, lazies, n, below, j));
        lemma_block(m, values, lazies, n, below, 2 * j);
        lemma_block(m, values, lazies, n, below, 2 * j + 1);
        let lo = j * w;
        let mid = lo + h;
        let hi = lo + 2 * h;
        assert((2 * j) * h == lo && (2 * j + 1) * h == mid && (2 * j + 1 + 1) * h == hi && (j + 1)
            * w == hi && lo >= 0) by (nonlinear_arith)
            requires
                w == 2 * h,
                lo == j * w,
                mid == lo + h,
                hi == lo + 2 * h,
                j >= 0,
                h >= 1,
        ;
        assert(a.subrange(lo, hi) =~= a.subrange(lo, mid) + a.subrange(mid, hi));
        lemma_fold_op_concat(m, a.subrange(lo, mid), a.subrange(mid, hi));
        // the children see the map of this node, then what this node sees
        let z = lazy_at(lazies, n, k, j);
        let l = node_at(values, n, below, 2 * j);
        let r = node_at(values, n, below, 2 * j + 1);
        m.map_op(z, l, r);
        lemma_up_op(m, lazies, n, k, j, m.map_spec(z, l), m.map_spec(z, r));
        lemma_parent(n, below, 2 * j);
        lemma_parent(n, below, 2 * j + 1);
        assert((2 * j) / 2 == j && (2 * j + 1) / 2 == j);
    }
}

impl<M: LazyMonoid> LazySegmentTree<M> {
    /// The elements of `vec`.
    pub fn from_vec(monoid: M, vec: Vec<M::T>) -> (r: Self)
        requires
            2 * vec@.len() <= usize::MAX,
        ensures
            r.wf(),
            r.monoid() == &monoid,
            r@ == vec@,
    {
        let n = vec.len();
        let (values, monoid) = SegmentTree::from_vec(monoid, vec).into_parts();
        let mut lazies: Vec<M::F> = Vec::new();
        proof {
            lemma_size(n as nat);
        }
        let count = values.len() - n;
        let mut i: usize = 0;
        while i < count
            invariant
                i <= count,
                lazies@.len() == i,
                forall|j: int| 0 <= j < i ==> #[trigger] lazies@[j] == monoid.id_spec(),
            decreases count - i,
        {
            lazies.push(monoid.id());
            i += 1;
        }
        let r = LazySegmentTree(values, lazies, monoid);
        proof {
            let m = &r.2;
            assert(is_id(m, m.id_spec())) by {
                assert forall|x: M::T| #[trigger] m.map_spec(m.id_spec(), x) == x by {
                    m.map_id(x);
                }
            }
            assert forall|k: nat, j: int| 0 <= j < layer_len(n as nat, k + 1)
                implies #[trigger] joined(
                m,
                r.0@,
                r.1@,
                n as nat,
                k,
                j,
            ) by {
                assert(crate::segmenttree::joined(m, r.0@, n as nat, k, j));
                lemma_cell(n as nat, k + 1, j);
                lemma_off_mono(n as nat, 1, k + 1);
            }
            assert forall|i: int| 0 <= i < n implies #[trigger] element(m, r.0@, r.1@, n as nat, i)
                == vec@[i] by {
                lemma_all_clean(m, r.1@, n as nat, 0, i);
                lemma_clean(m, r.1@, n as nat, 0, i, r.0@[i]);
                assert(r.0@.subrange(0, n as int)[i] == r.0@[i]);
            }
            assert(r@ =~= vec@);
        }
        r
    }

    /// `n` elements, each the identity of `monoid`.
    pub fn new(monoid: M, n: usize) -> (r: Self)
        requires
            2 * n <= usize::MAX,
        ensures
            r.wf(),
            r.monoid() == &monoid,
            r@.len() == n,
            forall|i: int| 0 <= i < n ==> r@[i] == monoid.e_spec(),
    {
        let mut vec: Vec<M::T> = Vec::new();
        let mut i: usize = 0;
        while i < n
            invariant
                i <= n,
                vec@.len() == i,
                forall|j: int| 0 <= j < i ==> vec@[j] == monoid.e_spec(),
            decreases n - i,
        {
            vec.push(monoid.e());
            i += 1;
        }
        Self::from_vec(monoid, vec)
    }
}

/// Where every map changes nothing, nothing waits above any node.
proof fn lemma_all_clean<M: LazyMonoid>(m: &M, lazies: Seq<M::F>, n: nat, k: nat, j: int)
    requires
        lazies.len() == size_of(n) - n,
        forall|i: int| 0 <= i < lazies.len() ==> is_id(m, #[trigger] lazies[i]),
        0 <= j < layer_len(n, k),
    ensures
        clean(m, lazies, n, k, j),
    decreases layer_len(n, k),
{
    lemma_parent(n, k, j);
    if 0 <= j / 2 < layer_len(n, k + 1) {
        lemma_cell(n, k + 1, j / 2);
        lemma_off_mono(n, 1, k + 1);
        lemma_all_clean(m, lazies, n, k + 1, j / 2);
    }
}

/// The values after the map of node `p` of layer `k + 1` was applied to its
/// two children.
pub open spec fn pushed_values<M: LazyMonoid>(
    m: &M,
    values: Seq<M::T>,
    lazies: Seq<M::F>,
    n: nat,
    k: nat,
    p: int,
) -> Seq<M::T> {
    let z = lazy_at(lazies, n, k + 1, p);
    let c = layer_off(n, k) + 2 * p;
    values.update(c, m.map_spec(z, values[c])).update(c + 1, m.map_spec(z, values[c + 1]))
}

/// The maps after the map of node `p` of layer `k + 1` was put before those
/// of its two children, and gave way to the map that changes nothing.
pub open spec fn pushed_lazies<M: LazyMonoid>(m: &M, lazies: Seq<M::F>, n: nat, k: nat,
    p: int) -> Seq<
    M::F,
> {
    let z = lazy_at(lazies, n, k + 1, p);
    let at = layer_off(n, k + 1) - n + p;
    let c = layer_off(n, k) - n + 2 * p;
    if k == 0 {
        lazies.update(at, m.id_spec())
    } else {
        lazies.update(c, m.comp_spec(z, lazies[c])).update(
            c + 1,
            m.comp_spec(z, lazies[c + 1]),
        ).update(at, m.id_spec())
    }
}

/// What is known of the cells of a node, of its children and of its map.
proof fn lemma_cells(n: nat, k: nat, p: int)
    requires
        0 <= p < layer_len(n, k + 1),
    ensures
        2 * p + 1 < layer_len(n, k),
        layer_off(n, k) + 2 * p + 1 < layer_off(n, k + 1),
        layer_off(n, k + 1) + p < size_of(n),
        n <= layer_off(n, k + 1),
        k >= 1 ==> n <= layer_off(n, k),
        layer_off(n, k + 1) == layer_off(n, k) + layer_len(n, k),
{
    lemma_layers(n, k);
    lemma_cell(n, k + 1, p);
    lemma_cell(n, k, 2 * p + 1);
    lemma_off_mono(n, 1, k + 1);
    if k >= 1 {
        lemma_off_mono(n, 1, k);
    }
}

/// What the push of a node changes in what waits above the other nodes:
/// nothing, but that its children no longer see its map.
proof fn lemma_push_up<M: LazyMonoid>(
    m: &M,
    lazies: Seq<M::F>,
    n: nat,
    k: nat,
    p: int,
    kk: nat,
    j: int,
    x: M::T,
)
    requires
        lazies.len() == size_of(n) - n,
        0 <= p < layer_len(n, k + 1),
        0 <= j < layer_len(n, kk),
    ensures
        up(m, pushed_lazies(m, lazies, n, k, p), n, kk, j, x) == if kk == k && j / 2 == p {
            up(m, lazies, n, k + 1, p, x)
        } else {
            up(m, lazies, n, kk, j, x)
        },
    decreases layer_len(n, kk),
{
    let after = pushed_lazies(m, lazies, n, k, p);
    let z = lazy_at(lazies, n, k + 1, p);
    lemma_cells(n, k, p);
    lemma_parent(n, kk, j);
    if 0 <= j / 2 < layer_len(n, kk + 1) {
        let q = j / 2;
        lemma_cells(n, kk, q);
        let before_z = lazy_at(lazies, n, kk + 1, q);
        let after_z = lazy_at(after, n, kk + 1, q);
        if kk == k {
            if q == p {
                // the map of `p` is gone
                assert(after_z == m.id_spec());
                m.map_id(x);
                lemma_push_up(m, lazies, n, k, p, kk + 1, q, x);
            } else {
                lemma_apart(n, kk + 1, q, k + 1, p);
                if k >= 1 {
                    lemma_apart(n, kk + 1, q, k, 2 * p);
                    lemma_apart(n, kk + 1, q, k, 2 * p + 1);
                }
                assert(after_z == before_z);
                lemma_push_up(m, lazies, n, k, p, kk + 1, q, m.map_spec(before_z, x));
            }
        } else if kk + 1 == k && q / 2 == p {
            // a child of a child of `p`: the map of the child has taken that of `p` in
            lemma_parent(n, kk + 1, q);
            lemma_apart(n, kk + 1, q, k + 1, p);
            if q == 2 * p {
                lemma_apart(n, k, 2 * p, k, 2 * p + 1);
            } else {
                assert(q == 2 * p + 1);
            }
            assert(after_z == m.comp_spec(z, before_z));
            m.map_comp(z, before_z, x);
            lemma_push_up(m, lazies, n, k, p, kk + 1, q, m.map_spec(z, m.map_spec(before_z, x)));
            assert(up(m, lazies, n, kk + 1, q, m.map_spec(before_z, x)) == up(
                m,
                lazies,
                n,
                k + 1,
                p,
                m.map_spec(z, m.map_spec(before_z, x)),
            ));
        } else {
            lemma_apart(n, kk + 1, q, k + 1, p);
            if k >= 1 {
                if kk + 1 != k || q != 2 * p {
                    lemma_apart(n, kk + 1, q, k, 2 * p);
                }
                if kk + 1 != k || q != 2 * p + 1 {
                    lemma_apart(n, kk + 1, q, k, 2 * p + 1);
                }
            }
            assert(after_z == before_z);
            lemma_push_up(m, lazies, n, k, p, kk + 1, q, m.map_spec(before_z, x));
        }
    }
}

/// The push of a node leaves the tree in order and every element as it was.
proof fn lemma_push<M: LazyMonoid>(
    m: &M,
    values: Seq<M::T>,
    lazies: Seq<M::F>,
    n: nat,
    k: nat,
    p: int,
)
    requires
        tree_ok(m, values, lazies, n),
        0 <= p < layer_len(n, k + 1),
    ensures
        tree_ok(m, pushed_values(m, values, lazies, n, k, p), pushed_lazies(m, lazies, n, k, p), n),
        elements(m, pushed_values(m, values, lazies, n, k, p), pushed_lazies(m, lazies, n, k, p), n)
            == elements(m, values, lazies, n),
        is_id(m, lazy_at(pushed_lazies(m, lazies, n, k, p), n, k + 1, p)),
{
    let v2 = pushed_values(m, values, lazies, n, k, p);
    let z2 = pushed_lazies(m, lazies, n, k, p);
    let z = lazy_at(lazies, n, k + 1, p);
    let c = layer_off(n, k) + 2 * p;
    lemma_cells(n, k, p);
    lemma_size(n);
    assert(is_id(m, m.id_spec())) by {
        assert forall|x: M::T| #[trigger] m.map_spec(m.id_spec(), x) == x by {
            m.map_id(x);
        }
    }
    assert forall|kk: nat, j: int| 0 <= j < layer_len(n, kk + 1) implies #[trigger] joined(
        m,
        v2,
        z2,
        n,
        kk,
        j,
    ) by {
        assert(joined(m, values, lazies, n, kk, j));
        lemma_cells(n, kk, j);
        // which of the cells of this node and its children are among those that changed
        if kk + 1 == k && j == 2 * p {
        } else {
            lemma_apart(n, kk + 1, j, k, 2 * p);
        }
        if kk + 1 == k && j == 2 * p + 1 {
        } else {
            lemma_apart(n, kk + 1, j, k, 2 * p + 1);
        }
        if kk == k && j == p {
            // the node that was pushed
            m.map_op(z, values[c], values[c + 1]);
            m.map_id(m.op_spec(v2[c], v2[c + 1]));
            lemma_apart(n, k + 1, p, k, 2 * p);
            lemma_apart(n, k + 1, p, k, 2 * p + 1);
        } else if kk + 1 == k && (j == 2 * p || j == 2 * p + 1) {
            // a child of the node that was pushed
            let zc = lazy_at(lazies, n, k, j);
            let g = m.op_spec(node_at(values, n, kk, 2 * j), node_at(values, n, kk, 2 * j + 1));
            m.map_comp(z, zc, g);
            lemma_apart(n, kk, 2 * j, k, 2 * p);
            lemma_apart(n, kk, 2 * j, k, 2 * p + 1);
            lemma_apart(n, kk, 2 * j + 1, k, 2 * p);
            lemma_apart(n, kk, 2 * j + 1, k, 2 * p + 1);
            lemma_apart(n, k, j, k + 1, p);
            lemma_apart(n, k, 2 * p, k, 2 * p + 1);
        } else {
            lemma_apart(n, kk + 1, j, k + 1, p);
            if kk != k || 2 * j != 2 * p {
                lemma_apart(n, kk, 2 * j, k, 2 * p);
            }
            lemma_apart(n, kk, 2 * j, k, 2 * p + 1);
            lemma_apart(n, kk, 2 * j + 1, k, 2 * p);
            if kk != k || 2 * j + 1 != 2 * p + 1 {
                lemma_apart(n, kk, 2 * j + 1, k, 2 * p + 1);
            }
        }
    }
    assert forall|i: int| 0 <= i < n implies element(m, v2, z2, n, i) == element(
        m,
        values,
        lazies,
        n,
        i,
    ) by {
        lemma_layers(n, 0);
        lemma_push_up(m, lazies, n, k, p, 0, i, v2[i]);
        lemma_parent(n, 0, i);
        if k == 0 && i / 2 == p {
            assert(v2[i] == m.map_spec(z, values[i]));
        } else {
            if k == 0 {
            } else {
                lemma_off_mono(n, 1, k);
            }
            assert(v2[i] == values[i]);
        }
    }
    assert(elements(m, v2, z2, n) =~= elements(m, values, lazies, n));
}

/// What the push of a node changes in whether something waits above the
/// other nodes: nothing, but that nothing of its own waits above its
/// children any more.
proof fn lemma_push_clean<M: LazyMonoid>(
    m: &M,
    lazies: Seq<M::F>,
    n: nat,
    k: nat,
    p: int,
    kk: nat,
    j: int,
)
    requires
        lazies.len() == size_of(n) - n,
        0 <= p < layer_len(n, k + 1),
        0 <= j,
        kk >= k,
    ensures
        clean(m, pushed_lazies(m, lazies, n, k, p), n, kk, j) == if kk == k && j / 2 == p {
            clean(m, lazies, n, k + 1, p)
        } else {
            clean(m, lazies, n, kk, j)
        },
    decreases layer_len(n, kk),
{
    let after = pushed_lazies(m, lazies, n, k, p);
    lemma_cells(n, k, p);
    if 0 <= j / 2 < layer_len(n, kk + 1) && layer_len(n, kk + 1) < layer_len(n, kk) {
        let q = j / 2;
        lemma_cells(n, kk, q);
        if kk == k && q == p {
            assert(lazy_at(after, n, k + 1, p) == m.id_spec());
            assert(is_id(m, m.id_spec())) by {
                assert forall|x: M::T| #[trigger] m.map_spec(m.id_spec(), x) == x by {
                    m.map_id(x);
                }
            }
        } else {
            lemma_apart(n, kk + 1, q, k + 1, p);
            if k >= 1 {
                lemma_apart(n, kk + 1, q, k, 2 * p);
                lemma_apart(n, kk + 1, q, k, 2 * p + 1);
            }
            assert(lazy_at(after, n, kk + 1, q) == lazy_at(lazies, n, kk + 1, q));
        }
        lemma_push_clean(m, lazies, n, k, p, kk + 1, q);
    }
}

/// Where nothing waits above a node, nothing waits above the node above it.
proof fn lemma_clean_above<M: LazyMonoid>(m: &M, lazies: Seq<M::F>, n: nat, k: nat, j: int)
    requires
        clean(m, lazies, n, k, j),
        0 <= j,
    ensures
        clean(m, lazies, n, k + 1, j / 2),
        0 <= j / 2 < layer_len(n, k + 1) ==> is_id(m, lazy_at(lazies, n, k + 1, j / 2)),
{
    lemma_layers(n, k);
    lemma_layers(n, k + 1);
    if !(0 <= j / 2 < layer_len(n, k + 1) && layer_len(n, k + 1) < layer_len(n, k)) {
        // there is no node above, and none above where that would be
        if 0 <= j / 2 < layer_len(n, k + 1) {
            assert(layer_len(n, k) >= 2 * layer_len(n, k + 1));
        }
        assert(!(0 <= (j / 2) / 2 < layer_len(n, k + 2)));
    }
}

impl<M: LazyMonoid> LazySegmentTree<M> {
    /// The highest layer and where it begins.
    fn top(&self) -> (r: (usize, usize))
        requires
            self.wf(),
        ensures
            r.0 < 64,
            r.1 == layer_off(self.spec_len(), r.0 as nat),
            layer_len(self.spec_len(), r.0 as nat) <= 1,
            layer_len(self.spec_len(), (r.0 + 1) as nat) == 0,
    {
        let n = self.len();
        let mut k: usize = 0;
        let mut off: usize = 0;
        let mut len = n;
        proof {
            lemma_size(n as nat);
            lemma_shift(n, 0);
        }
        while len > 1
            invariant
                k < 64,
                len == layer_len(n as nat, k as nat),
                off == layer_off(n as nat, k as nat),
                off + len <= size_of(n as nat),
                size_of(n as nat) <= 2 * n <= usize::MAX,
            decreases len,
        {
            proof {
                lemma_layers(n as nat, k as nat);
                lemma_layers(n as nat, (k + 1) as nat);
                lemma_shift(n, k);
                lemma_size((len / 2) as nat);
                assert(size_of(len as nat) == len + size_of((len / 2) as nat));
            }
            off = off + len;
            len = len / 2;
            k = k + 1;
        }
        proof {
            lemma_layers(n as nat, k as nat);
        }
        (k, off)
    }

    /// Applies the map of node `p` of layer `k + 1` to its two children,
    /// where it then waits, and takes it off the node.
    fn push(&mut self, Ghost(k): Ghost<nat>, off_child: usize, off_parent: usize, p: usize)
        requires
            old(self).wf(),
            p < layer_len(old(self).spec_len(), k + 1),
            off_child == layer_off(old(self).spec_len(), k),
            off_parent == layer_off(old(self).spec_len(), k + 1),
        ensures
            final(self).wf(),
            final(self).spec_len() == old(self).spec_len(),
            final(self).2 == old(self).2,
            final(self)@ == old(self)@,
            final(self).0@ == pushed_values(
                &old(self).2,
                old(self).0@,
                old(self).1@,
                old(self).spec_len(),
                k,
                p as int,
            ),
            final(self).1@ == pushed_lazies(
                &old(self).2,
                old(self).1@,
                old(self).spec_len(),
                k,
                p as int,
            ),
    {
        let n = self.0.len() - self.1.len();
        let ghost values = self.0@;
        let ghost lazies = self.1@;
        proof {
            lemma_cells(n as nat, k, p as int);
            lemma_size(n as nat);
            lemma_push(&self.2, values, lazies, n as nat, k, p as int);
        }
        let at = off_parent - n + p;
        let c = off_child + 2 * p;
        let left = self.2.map(&self.1[at], &self.0[c]);
        let right = self.2.map(&self.1[at], &self.0[c + 1]);
        self.0.set(c, left);
        self.0.set(c + 1, right);
        if off_child >= n && off_child > 0 {
            proof {
                // the children are not in the lowest layer
                if k == 0 {
                    assert(layer_off(n as nat, 0) == 0);
                }
            }
            let first = self.2.comp(&self.1[at], &self.1[c - n]);
            let second = self.2.comp(&self.1[at], &self.1[c + 1 - n]);
            self.1.set(c - n, first);
            self.1.set(c + 1 - n, second);
        } else {
            proof {
                if k >= 1 {
                    lemma_off_mono(n as nat, 1, k);
                    lemma_layers(n as nat, 0);
                }
            }
        }
        self.1.set(at, self.2.id());
        proof {
            assert(self.0@ =~= pushed_values(&self.2, values, lazies, n as nat, k, p as int));
            assert(self.1@ =~= pushed_lazies(&self.2, lazies, n as nat, k, p as int));
            assert(self@ =~= old(self)@);
        }
    }
}

/// The node of layer `k` above the element `i`.
pub open spec fn above(i: int, k: nat) -> int {
    layer_len(i as nat, k) as int
}

proof fn lemma_above(i: usize, k: usize)
    requires
        k < 64,
    ensures
        ((i as u64) >> (k as u64)) == above(i as int, k as nat),
        above(i as int, (k + 1) as nat) == above(i as int, k as nat) / 2,
        above(i as int, 0) == i,
{
    lemma_shift(i, k);
    lemma_layers(i as nat, k as nat);
    lemma_layers(i as nat, 0);
}

impl<M: LazyMonoid> LazySegmentTree<M> {
    /// Whether nothing waits above the element at `i`.
    pub closed spec fn settled(&self, i: int) -> bool {
        clean(&self.2, self.1@, self.spec_len(), 0, i)
    }

    /// Pushes down all maps that wait above the elements at `l` and at `r`.
    fn map_range(&mut self, l: usize, r: usize)
        requires
            old(self).wf(),
            l < old(self).spec_len(),
            r < old(self).spec_len(),
        ensures
            final(self).wf(),
            final(self).spec_len() == old(self).spec_len(),
            final(self).2 == old(self).2,
            final(self)@ == old(self)@,
            final(self).settled(l as int),
            final(self).settled(r as int),
    {
        let n = self.len();
        let (top, off_top) = self.top();
        let mut k = top;
        let mut off = off_top;
        proof {
            lemma_above(l, k);
            lemma_above(r, k);
        }
        while k > 0
            invariant
                self.wf(),
                self.spec_len() == n,
                n == old(self).spec_len(),
                self.2 == old(self).2,
                self@ == old(self)@,
                k < 64,
                l < n,
                r < n,
                off == layer_off(n as nat, k as nat),
                clean(&self.2, self.1@, n as nat, k as nat, above(l as int, k as nat)),
                clean(&self.2, self.1@, n as nat, k as nat, above(r as int, k as nat)),
            decreases k,
        {
            proof {
                lemma_shift(n, k);
                lemma_shift(n, (k - 1) as usize);
                lemma_above(l, k);
                lemma_above(r, k);
                lemma_above(l, (k - 1) as usize);
                lemma_above(r, (k - 1) as usize);
                lemma_layers(n as nat, (k - 1) as nat);
                lemma_size(n as nat);
            }
            let len_k = ((n as u64) >> (k as u64)) as usize;
            let len_child = ((n as u64) >> ((k - 1) as u64)) as usize;
            let pl = ((l as u64) >> (k as u64)) as usize;
            let pr = ((r as u64) >> (k as u64)) as usize;
            let off_child = off - len_child;
            let ghost start = self.1@;
            if pl < len_k {
                self.push(Ghost((k - 1) as nat), off_child, off, pl);
            }
            let ghost mid = self.1@;
            proof {
                let m = &self.2;
                let below = (k - 1) as nat;
                let cl = above(l as int, below);
                let cr = above(r as int, below);
                if pl < len_k {
                    lemma_push_clean(m, start, n as nat, below, pl as int, below, cl);
                    lemma_push_clean(m, start, n as nat, below, pl as int, below, cr);
                    lemma_push_clean(m, start, n as nat, below, pl as int, k as nat, pr as int);
                } else {
                    lemma_clean_none(m, start, n as nat, below, cl);
                }
                if pr == pl {
                } else if pr >= len_k {
                    lemma_clean_none(m, mid, n as nat, below, cr);
                }
            }
            if pr < len_k && pr != pl {
                self.push(Ghost((k - 1) as nat), off_child, off, pr);
                proof {
                    let m = &self.2;
                    let below = (k - 1) as nat;
                    let cl = above(l as int, below);
                    let cr = above(r as int, below);
                    lemma_push_clean(m, mid, n as nat, below, pr as int, below, cl);
                    lemma_push_clean(m, mid, n as nat, below, pr as int, below, cr);
                }
            }
            k = k - 1;
            off = off_child;
        }
        proof {
            lemma_above(l, 0);
            lemma_above(r, 0);
        }
    }
}

/// Nothing waits above a node that has no node above it.
proof fn lemma_clean_none<M: LazyMonoid>(m: &M, lazies: Seq<M::F>, n: nat, k: nat, j: int)
    requires
        !(0 <= j / 2 < layer_len(n, k + 1)),
    ensures
        clean(m, lazies, n, k, j),
{
}

/// The node of layer `k` above an element is the one whose elements
/// include it.
proof fn lemma_above_block(i: int, k: nat)
    requires
        0 <= i,
    ensures
        0 <= above(i, k),
        above(i, k) * width(k) <= i < (above(i, k) + 1) * width(k),
        above(i, k + 1) == above(i, k) / 2,
        width(k) >= 1,
        width(k + 1) == 2 * width(k),
    decreases k,
{
    lemma_layers(i as nat, k);
    if k > 0 {
        lemma_above_block(i, (k - 1) as nat);
        let a = above(i, (k - 1) as nat);
        let h = width((k - 1) as nat);
        assert((a / 2) * (2 * h) <= a * h && (a + 1) * h <= (a / 2 + 1) * (2 * h))
            by (nonlinear_arith)
            requires
                a >= 0,
                h >= 1,
        ;
    } else {
        assert(above(i, 0) == i);
        assert(i * 1 == i && (i + 1) * 1 == i + 1);
    }
}

/// A node whose elements include `i` is the node above `i`.
proof fn lemma_block_above(i: int, k: nat, j: int)
    requires
        0 <= i,
        0 <= j,
        j * width(k) <= i < (j + 1) * width(k),
    ensures
        above(i, k) == j,
{
    lemma_above_block(i, k);
    let a = above(i, k);
    let w = width(k);
    if a < j {
        assert((a + 1) * w <= j * w) by (nonlinear_arith)
            requires
                a + 1 <= j,
                w >= 1,
        ;
    } else if a > j {
        assert((j + 1) * w <= a * w) by (nonlinear_arith)
            requires
                j + 1 <= a,
                w >= 1,
        ;
    }
}

/// Whether some but not all elements of node `j` of layer `k` are among
/// those from `l` on that come before `r`.
pub open spec fn partial(k: nat, j: int, l: int, r: int) -> bool {
    &&& j * width(k) < r
    &&& l < (j + 1) * width(k)
    &&& !(l <= j * width(k) && (j + 1) * width(k) <= r)
}

/// A node of which only some elements are in a range stands above the
/// first or the last element of the range, and so does the node above it.
proof fn lemma_partial(k: nat, j: int, l: int, r: int)
    requires
        0 <= l < r,
        0 <= j,
        partial(k, j, l, r),
    ensures
        j == above(l, k) || j == above(r - 1, k),
        partial(k + 1, j / 2, l, r),
{
    let w = width(k);
    lemma_above_block(l, k);
    assert(0 <= j * w) by (nonlinear_arith)
        requires
            j >= 0,
            w >= 1,
    ;
    if j * w < l {
        lemma_block_above(l, k, j);
    } else {
        lemma_block_above(r - 1, k, j);
    }
    let q = j / 2;
    assert(q * (2 * w) <= j * w && (j + 1) * w <= (q + 1) * (2 * w)) by (nonlinear_arith)
        requires
            q == j / 2,
            j >= 0,
            w >= 1,
    ;
}

/// Whether the tree is in order but for the nodes from layer `from` on of
/// which only some elements are in the range: those have no map waiting,
/// and may not yet be the product of their children.
pub open spec fn tree_ok_but<M: LazyMonoid>(
    m: &M,
    values: Seq<M::T>,
    lazies: Seq<M::F>,
    n: nat,
    l: int,
    r: int,
    from: nat,
) -> bool {
    &&& values.len() == size_of(n)
    &&& lazies.len() == size_of(n) - n
    &&& 2 * n <= usize::MAX
    &&& forall|k: nat, j: int|
        0 <= j < layer_len(n, k + 1) && (k + 1 < from || !partial(k + 1, j, l, r))
            ==> #[trigger] joined(m, values, lazies, n, k, j)
    &&& forall|k: nat, j: int|
        0 <= j < layer_len(n, k + 1) && partial(k + 1, j, l, r) ==> is_id(
            m,
            #[trigger] lazy_at(lazies, n, k + 1, j),
        )
}

/// Where nothing waits above the first and the last element of a range,
/// no map waits at a node of which only some elements are in the range.
proof fn lemma_settled_partial<M: LazyMonoid>(
    m: &M,
    lazies: Seq<M::F>,
    n: nat,
    l: int,
    r: int,
    k: nat,
    j: int,
)
    requires
        0 <= l < r <= n,
        clean(m, lazies, n, 0, l),
        clean(m, lazies, n, 0, r - 1),
        0 <= j < layer_len(n, k + 1),
        partial(k + 1, j, l, r),
    ensures
        is_id(m, lazy_at(lazies, n, k + 1, j)),
{
    lemma_partial(k + 1, j, l, r);
    if j == above(l, k + 1) {
        lemma_clean_path(m, lazies, n, l, k);
        lemma_above_block(l, k);
        lemma_clean_above(m, lazies, n, k, above(l, k));
    } else {
        lemma_clean_path(m, lazies, n, r - 1, k);
        lemma_above_block(r - 1, k);
        lemma_clean_above(m, lazies, n, k, above(r - 1, k));
    }
}

/// Where nothing waits above an element, nothing waits above the nodes
/// above it.
proof fn lemma_clean_path<M: LazyMonoid>(m: &M, lazies: Seq<M::F>, n: nat, i: int, k: nat)
    requires
        0 <= i,
        clean(m, lazies, n, 0, i),
    ensures
        clean(m, lazies, n, k, above(i, k)),
    decreases k,
{
    lemma_layers(i as nat, 0);
    if k > 0 {
        lemma_clean_path(m, lazies, n, i, (k - 1) as nat);
        lemma_above_block(i, (k - 1) as nat);
        lemma_clean_above(m, lazies, n, (k - 1) as nat, above(i, (k - 1) as nat));
    }
}

impl<M: LazyMonoid> LazySegmentTree<M> {
    /// The element at `index`. The maps that waited above it are pushed down.
    pub fn get(&mut self, index: usize) -> (r: &M::T)
        requires
            old(self).wf(),
            index < old(self)@.len(),
        ensures
            final(self).wf(),
            final(self).monoid() == old(self).monoid(),
            final(self)@ == old(self)@,
            *r == old(self)@[index as int],
    {
        self.map_range(index, index);
        proof {
            lemma_clean(&self.2, self.1@, self.spec_len(), 0, index as int, self.0@[index as int]);
            assert(self@[index as int] == element(
                &self.2,
                self.0@,
                self.1@,
                self.spec_len(),
                index as int,
            ));
            lemma_size(self.spec_len());
        }
        &self.0[index]
    }

    /// The element at `index`.
    pub fn get_imu(&self, index: usize) -> (r: M::T)
        requires
            self.wf(),
            index < self@.len(),
        ensures
            r == self@[index as int],
    {
        let n = self.len();
        let m = &self.2;
        let (top, off_top) = self.top();
        let mut k = top;
        let mut off = off_top;
        let mut f = m.id();
        proof {
            lemma_above(index, k);
            assert forall|x: M::T| #[trigger]
                m.map_spec(f, x) == up(m, self.1@, n as nat, k as nat, above(
                    index as int,
                    k as nat,
                ), x) by {
                m.map_id(x);
            }
        }
        while k > 0
            invariant
                self.wf(),
                self.spec_len() == n,
                m == &self.2,
                k < 64,
                index < n,
                off == layer_off(n as nat, k as nat),
                forall|x: M::T| #[trigger]
                    m.map_spec(f, x) == up(
                        m,
                        self.1@,
                        n as nat,
                        k as nat,
                        above(index as int, k as nat),
                        x,
                    ),
            decreases k,
        {
            proof {
                lemma_shift(n, k);
                lemma_shift(n, (k - 1) as usize);
                lemma_above(index, k);
                lemma_above(index, (k - 1) as usize);
                lemma_layers(n as nat, (k - 1) as nat);
                lemma_size(n as nat);
                lemma_off_mono(n as nat, 1, k as nat);
            }
            let len_k = ((n as u64) >> (k as u64)) as usize;
            let len_child = ((n as u64) >> ((k - 1) as u64)) as usize;
            let p = ((index as u64) >> (k as u64)) as usize;
            let ghost child = above(index as int, (k - 1) as nat);
            if p < len_k {
                proof {
                    lemma_cells(n as nat, (k - 1) as nat, p as int);
                }
                let z = &self.1[off - n + p];
                let g = m.comp(&f, z);
                proof {
                    assert forall|x: M::T| #[trigger]
                        m.map_spec(g, x) == up(m, self.1@, n as nat, (k - 1) as nat, child, x) by {
                        m.map_comp(f, *z, x);
                    }
                }
                f = g;
            }
            k = k - 1;
            off = off - len_child;
        }
        proof {
            lemma_above(index, 0);
            lemma_size(n as nat);
        }
        m.map(&f, &self.0[index])
    }

    /// Computes anew, from the lowest layer up, the nodes of which only
    /// some elements are in the range from `l` to before `r`.
    fn fix(&mut self, l: usize, r: usize)
        requires
            old(self).1@.len() <= old(self).0@.len(),
            l < r <= old(self).spec_len(),
            tree_ok_but(
                &old(self).2,
                old(self).0@,
                old(self).1@,
                old(self).spec_len(),
                l as int,
                r as int,
                0,
            ),
        ensures
            final(self).wf(),
            final(self).spec_len() == old(self).spec_len(),
            final(self).2 == old(self).2,
            final(self).1@ == old(self).1@,
            final(self).0@.subrange(0, old(self).spec_len() as int) == old(self).0@.subrange(
                0,
                old(self).spec_len() as int,
            ),
    {
        let n = self.0.len() - self.1.len();
        let last = r - 1;
        let mut k: usize = 0;
        let mut off: usize = 0;
        let mut len = n;
        let mut w: usize = 1;
        proof {
            lemma_size(n as nat);
            lemma_shift(n, 0);
            lemma_above_block(l as int, 0);
            lemma_above_block(last as int, 0);
        }
        while len > 1
            invariant
                self.1@.len() <= self.0@.len(),
                self.spec_len() == n,
                n == old(self).spec_len(),
                self.2 == old(self).2,
                self.1@ == old(self).1@,
                self.0@.subrange(0, n as int) == old(self).0@.subrange(0, n as int),
                l < r <= n,
                last == r - 1,
                k < 64,
                len == layer_len(n as nat, k as nat),
                off == layer_off(n as nat, k as nat),
                off + len <= size_of(n as nat),
                size_of(n as nat) <= 2 * n <= usize::MAX,
                w == width(k as nat),
                w * len <= n,
                tree_ok_but(&self.2, self.0@, self.1@, n as nat, l as int, r as int,
                    (k + 1) as nat),
            decreases len,
        {
            let ghost kk = k as nat;
            proof {
                lemma_layers(n as nat, kk);
                lemma_layers(n as nat, kk + 1);
                lemma_shift(n, k);
                lemma_size((len / 2) as nat);
                assert(size_of(len as nat) == len + size_of((len / 2) as nat));
                lemma_above(l, k);
                lemma_above(last, k);
                lemma_above(l, (k + 1) as usize);
                lemma_above(last, (k + 1) as usize);
                lemma_above_block(l as int, kk + 1);
                lemma_above_block(last as int, kk + 1);
                assert((2 * w) * (len / 2) <= w * len && 2 * w <= w * len) by (nonlinear_arith)
                    requires
                        w >= 1,
                        len >= 2,
                ;
                lemma_off_mono(n as nat, 1, kk + 1);
            }
            let off_parent = off + len;
            let len_parent = len / 2;
            let w2 = 2 * w;
            let pl = ((l as u64) >> ((k + 1) as u64)) as usize;
            let pr = ((last as u64) >> ((k + 1) as u64)) as usize;
            let ghost before_layer = self.0@;
            if pl < len_parent {
                proof {
                    assert((pl + 1) * w2 <= len_parent * w2) by (nonlinear_arith)
                        requires
                            pl + 1 <= len_parent,
                            w2 >= 1,
                    ;
                }
                if !(l <= pl * w2 && (pl + 1) * w2 <= r) {
                    self.pull(Ghost(kk), Ghost(l as int), Ghost(r as int), off, off_parent, pl);
                }
            }
            if pr < len_parent && pr != pl {
                proof {
                    assert((pr + 1) * w2 <= len_parent * w2) by (nonlinear_arith)
                        requires
                            pr + 1 <= len_parent,
                            w2 >= 1,
                    ;
                }
                if !(l <= pr * w2 && (pr + 1) * w2 <= r) {
                    self.pull(Ghost(kk), Ghost(l as int), Ghost(r as int), off, off_parent, pr);
                }
            }
            proof {
                assert(self.0@.subrange(0, n as int) =~= before_layer.subrange(0, n as int));
                // all nodes of this layer of which only some elements are in the range are done
                let m = &self.2;
                assert forall|k2: nat, j: int|
                    0 <= j < layer_len(n as nat, k2 + 1) && (k2 + 1 < kk + 2 || !partial(
                        k2 + 1,
                        j,
                        l as int,
                        r as int,
                    )) implies #[trigger] joined(m, self.0@, self.1@, n as nat, k2, j) by {
                    if k2 == kk && partial(k2 + 1, j, l as int, r as int) {
                        lemma_partial(kk + 1, j, l as int, r as int);
                    }
                }
            }
            off = off_parent;
            len = len_parent;
            w = w2;
            k = k + 1;
        }
        proof {
            lemma_layers(n as nat, k as nat);
            let m = &self.2;
            assert forall|k2: nat, j: int| 0 <= j < layer_len(n as nat, k2 + 1)
                implies #[trigger] joined(
                m,
                self.0@,
                self.1@,
                n as nat,
                k2,
                j,
            ) by {
                if k2 + 1 > k {
                    lemma_small_layers(n as nat, k as nat, k2 + 1);
                }
            }
        }
    }

    /// Makes node `p` of layer `k + 1`, at which no map waits, the product
    /// of its two children.
    fn pull(
        &mut self,
        Ghost(k): Ghost<nat>,
        Ghost(l): Ghost<int>,
        Ghost(r): Ghost<int>,
        off_child: usize,
        off_parent: usize,
        p: usize,
    )
        requires
            old(self).1@.len() <= old(self).0@.len(),
            0 <= l < r <= old(self).spec_len(),
            tree_ok_but(&old(self).2, old(self).0@, old(self).1@, old(self).spec_len(), l, r,
                k + 1),
            p < layer_len(old(self).spec_len(), k + 1),
            partial(k + 1, p as int, l, r),
            off_child == layer_off(old(self).spec_len(), k),
            off_parent == layer_off(old(self).spec_len(), k + 1),
        ensures
            final(self).1@ == old(self).1@,
            final(self).2 == old(self).2,
            final(self).0@ == old(self).0@.update(
                layer_off(old(self).spec_len(), k + 1) + p,
                final(self).0@[layer_off(old(self).spec_len(), k + 1) + p],
            ),
            tree_ok_but(&final(self).2, final(self).0@, final(self).1@, old(self).spec_len(), l, r,
                k + 1),
            joined(&final(self).2, final(self).0@, final(self).1@, old(self).spec_len(), k,
                p as int),
    {
        let n = self.0.len() - self.1.len();
        let ghost values = self.0@;
        proof {
            lemma_cells(n as nat, k, p as int);
            lemma_size(n as nat);
        }
        let v = self.2.op(&self.0[off_child + 2 * p], &self.0[off_child + 2 * p + 1]);
        self.0.set(off_parent + p, v);
        proof {
            let m = &self.2;
            let cell = layer_off(n as nat, k + 1) + p;
            assert(is_id(m, lazy_at(self.1@, n as nat, k + 1, p as int)));
            lemma_apart(n as nat, k, 2 * p, k + 1, p as int);
            lemma_apart(n as nat, k, 2 * p + 1, k + 1, p as int);
            assert forall|k2: nat, j: int|
                0 <= j < layer_len(n as nat, k2 + 1) && (k2 + 1 < k + 1
                    || !partial(k2 + 1, j, l, r))
                    implies #[trigger] joined(m, self.0@, self.1@, n as nat, k2, j) by {
                assert(joined(m, values, self.1@, n as nat, k2, j));
                lemma_cells(n as nat, k2, j);
                lemma_apart(n as nat, k2 + 1, j, k + 1, p as int);
                if k2 == k + 1 && (2 * j == p || 2 * j + 1 == p) {
                    // the node above the one that was computed: only some of its elements
                    // are in the range as well
                    lemma_partial(k + 1, p as int, l, r);
                    assert(false);
                } else {
                    lemma_apart(n as nat, k2, 2 * j, k + 1, p as int);
                    lemma_apart(n as nat, k2, 2 * j + 1, k + 1, p as int);
                }
            }
        }
    }

    /// Puts `item` in place of the element at `index`.
    pub fn set(&mut self, index: usize, item: M::T)
        requires
            old(self).wf(),
            index < old(self)@.len(),
        ensures
            final(self).wf(),
            final(self).monoid() == old(self).monoid(),
            final(self)@ == old(self)@.update(index as int, item),
    {
        self.map_range(index, index);
        let ghost n = self.spec_len();
        let ghost values = self.0@;
        let ghost lazies = self.1@;
        proof {
            lemma_size(n);
        }
        self.0.set(index, item);
        proof {
            let m = &self.2;
            let l = index as int;
            let r = index + 1;
            assert forall|k: nat, j: int|
                0 <= j < layer_len(n, k + 1) && !partial(k + 1, j, l, r) implies #[trigger] joined(
                m,
                self.0@,
                lazies,
                n,
                k,
                j,
            ) by {
                assert(joined(m, values, lazies, n, k, j));
                lemma_cells(n, k, j);
                lemma_layers(n, 0);
                lemma_apart(n, k + 1, j, 0, l);
                if k > 0 {
                    lemma_apart(n, k, 2 * j, 0, l);
                    lemma_apart(n, k, 2 * j + 1, 0, l);
                } else {
                    // a node of the second layer above the element has more elements
                    assert(width(1) == 2 * width(0));
                    assert(width(0) == 1);
                    if 2 * j == l || 2 * j + 1 == l {
                        assert(j * 2 <= l < (j + 1) * 2);
                    }
                }
            }
            assert forall|k: nat, j: int|
                0 <= j < layer_len(n, k + 1) && partial(k + 1, j, l, r) implies is_id(
                m,
                #[trigger] lazy_at(lazies, n, k + 1, j),
            ) by {
                lemma_settled_partial(m, lazies, n, l, r, k, j);
            }
        }
        let ghost changed = self.0@;
        self.fix(index, index + 1);
        proof {
            let m = &self.2;
            assert forall|i: int| 0 <= i < n implies #[trigger] self@[i] == old(self)@.update(
                index as int,
                item,
            )[i] by {
                assert(self.0@.subrange(0, n as int)[i] == changed.subrange(0, n as int)[i]);
                assert(self.0@[i] == changed[i]);
                if i == index {
                    lemma_clean(m, lazies, n, 0, i, item);
                } else {
                    assert(changed[i] == values[i]);
                }
            }
            assert(self@ =~= old(self)@.update(index as int, item));
        }
    }
}

impl<M: LazyMonoid> LazySegmentTree<M> {
    /// Replaces the element at `index` by what `f` makes of it.
    pub fn setter<F: FnOnce(&M::T) -> M::T>(&mut self, index: usize, f: F)
        requires
            old(self).wf(),
            index < old(self)@.len(),
            f.requires((&old(self)@[index as int],)),
        ensures
            final(self).wf(),
            final(self).monoid() == old(self).monoid(),
            final(self)@.len() == old(self)@.len(),
            f.ensures((&old(self)@[index as int],), final(self)@[index as int]),
            final(self)@ == old(self)@.update(index as int, final(self)@[index as int]),
    {
        let value = f(self.get(index));
        self.set(index, value);
    }
}

/// Whether something waits above a node depends on the node above it only.
proof fn lemma_clean_beside<M: LazyMonoid>(
    m: &M,
    lazies: Seq<M::F>,
    n: nat,
    k: nat,
    j: int,
    other: int,
)
    requires
        j / 2 == other / 2,
    ensures
        clean(m, lazies, n, k, j) == clean(m, lazies, n, k, other),
{
}

impl<M: LazyMonoid> LazySegmentTree<M> {
    /// The product of the elements in `range`, from left to right. The maps
    /// that waited above the ends of the range are pushed down.
    pub fn prod<R: IndexRange>(&mut self, range: R) -> (r: M::T)
        requires
            old(self).wf(),
            range_within(&range, old(self)@.len() as int),
        ensures
            final(self).wf(),
            final(self).monoid() == old(self).monoid(),
            final(self)@ == old(self)@,
            r == fold_op(
                old(self).monoid(),
                old(self)@.subrange(
                    range_lower(&range),
                    range_upper(&range, old(self)@.len() as int),
                ),
            ),
    {
        let n = self.len();
        let (lo, hi) = normalize(&range, n);
        if lo == hi {
            assert(self@.subrange(lo as int, lo as int) =~= Seq::<M::T>::empty());
            return self.2.e();
        }
        self.map_range(lo, hi - 1);
        let m = &self.2;
        let ghost a = self@;
        let ghost target = fold_op(m, a.subrange(lo as int, hi as int));
        let ghost first = lo as int;
        let ghost last = hi - 1;
        let mut len = n;
        let mut left_index = lo;
        let mut right_index = hi;
        let mut left_val = m.e();
        let mut right_val = m.e();
        let mut offset: usize = 0;
        let ghost mut k: nat = 0;
        proof {
            lemma_layers(n as nat, 0);
            lemma_size(n as nat);
            m.identity(target);
            assert(left_index * 1 == left_index && right_index * 1 == right_index);
            lemma_above_block(first, 0);
            lemma_above_block(last, 0);
            assert(a =~= elements(m, self.0@, self.1@, n as nat));
        }
        while left_index != right_index
            invariant
                self.wf(),
                n == self.spec_len(),
                m == &self.2,
                a == elements(m, self.0@, self.1@, n as nat),
                0 <= first <= last < n,
                clean(m, self.1@, n as nat, 0, first),
                clean(m, self.1@, n as nat, 0, last),
                size_of(n as nat) <= 2 * n <= usize::MAX,
                len == layer_len(n as nat, k),
                offset == layer_off(n as nat, k),
                left_index <= right_index <= len,
                above(first, k) <= left_index <= above(first, k) + 1,
                above(last, k) <= right_index <= above(last, k) + 1,
                right_index * width(k) <= n,
                0 <= left_index * width(k) <= right_index * width(k),
                m.op_spec(
                    m.op_spec(
                        left_val,
                        fold_op(
                            m,
                            a.subrange(left_index * width(k), right_index * width(k)),
                        ),
                    ),
                    right_val,
                ) == target,
            decreases len,
        {
            let ghost w = width(k);
            let ghost l0 = left_index as int;
            let ghost r0 = right_index as int;
            let ghost lv0 = left_val;
            let ghost rv0 = right_val;
            proof {
                lemma_pair(left_index);
                lemma_pair(right_index);
                lemma_pair(len);
                lemma_layers(n as nat, k);
                lemma_layers(n as nat, k + 1);
                lemma_above_block(first, k);
                lemma_above_block(last, k);
                lemma_clean_path(m, self.1@, n as nat, first, k);
                lemma_clean_path(m, self.1@, n as nat, last, k);
            }
            if left_index & 1 == 1 {
                proof {
                    lemma_cell(n as nat, k, l0);
                    lemma_block(m, self.0@, self.1@, n as nat, k, l0);
                    lemma_clean_beside(m, self.1@, n as nat, k, above(first, k), l0);
                    lemma_clean(m, self.1@, n as nat, k, l0, node_at(self.0@, n as nat, k, l0));
                    assert(l0 * w <= (l0 + 1) * w <= r0 * w) by (nonlinear_arith)
                        requires
                            l0 + 1 <= r0,
                            w >= 1,
                            l0 >= 0,
                    ;
                    let head = a.subrange(l0 * w, (l0 + 1) * w);
                    let tail = a.subrange((l0 + 1) * w, r0 * w);
                    assert(a.subrange(l0 * w, r0 * w) =~= head + tail);
                    lemma_fold_op_concat(m, head, tail);
                    m.associative(lv0, fold_op(m, head), fold_op(m, tail));
                }
                left_val = m.op(&left_val, &self.0[offset + left_index]);
                left_index += 1;
            }
            let ghost l1 = left_index as int;
            let ghost lv1 = left_val;
            if right_index & 1 == 1 {
                right_index -= 1;
                proof {
                    let r1 = right_index as int;
                    lemma_cell(n as nat, k, r1);
                    lemma_block(m, self.0@, self.1@, n as nat, k, r1);
                    lemma_clean_beside(m, self.1@, n as nat, k, above(last, k), r1);
                    lemma_clean(m, self.1@, n as nat, k, r1, node_at(self.0@, n as nat, k, r1));
                    assert(l1 * w <= r1 * w <= (r1 + 1) * w) by (nonlinear_arith)
                        requires
                            l1 <= r1,
                            w >= 1,
                            l1 >= 0,
                    ;
                    let head = a.subrange(l1 * w, r1 * w);
                    let tail = a.subrange(r1 * w, (r1 + 1) * w);
                    assert(a.subrange(l1 * w, r0 * w) =~= head + tail);
                    lemma_fold_op_concat(m, head, tail);
                    m.associative(lv1, fold_op(m, head), fold_op(m, tail));
                    m.associative(m.op_spec(lv1, fold_op(m, head)), fold_op(m, tail), rv0);
                }
                right_val = m.op(&self.0[offset + right_index], &right_val);
            }
            proof {
                let l2 = left_index as int;
                let r2 = right_index as int;
                lemma_pair(left_index);
                lemma_pair(right_index);
                assert((l2 / 2) * (2 * w) == l2 * w && (r2 / 2) * (2 * w) == r2 * w)
                    by (nonlinear_arith)
                    requires
                        l2 % 2 == 0,
                        r2 % 2 == 0,
                ;
                assert(l2 * w <= r2 * w && 0 <= l2 * w) by (nonlinear_arith)
                    requires
                        0 <= l2 <= r2,
                        w >= 1,
                ;
                assert(r2 * w <= r0 * w) by (nonlinear_arith)
                    requires
                        r2 <= r0,
                        w >= 1,
                ;
                k = k + 1;
            }
            offset = offset + len;
            len = len >> 1;
            left_index = left_index >> 1;
            right_index = right_index >> 1;
        }
        proof {
            assert(a.subrange(left_index * width(k), right_index * width(k)) =~= Seq::<
                M::T,
            >::empty());
            m.identity(left_val);
        }
        m.op(&left_val, &right_val)
    }
}

/// The values after `f` was applied to node `j` of layer `k`.
pub open spec fn marked_values<M: LazyMonoid>(
    m: &M,
    values: Seq<M::T>,
    n: nat,
    k: nat,
    j: int,
    f: M::F,
) -> Seq<M::T> {
    let c = layer_off(n, k) + j;
    values.update(c, m.map_spec(f, values[c]))
}

/// The maps after `f` was put before the map of node `j` of layer `k`.
pub open spec fn marked_lazies<M: LazyMonoid>(
    m: &M,
    lazies: Seq<M::F>,
    n: nat,
    k: nat,
    j: int,
    f: M::F,
) -> Seq<M::F> {
    if k == 0 {
        lazies
    } else {
        let c = layer_off(n, k) - n + j;
        lazies.update(c, m.comp_spec(f, lazies[c]))
    }
}

/// What a map that is put to a node, above which nothing waits, changes in
/// what waits above the other nodes: the nodes below it see it at the end.
proof fn lemma_mark_up<M: LazyMonoid>(
    m: &M,
    lazies: Seq<M::F>,
    n: nat,
    k: nat,
    j: int,
    f: M::F,
    kk: nat,
    jj: int,
    x: M::T,
)
    requires
        lazies.len() == size_of(n) - n,
        0 <= j < layer_len(n, k),
        clean(m, lazies, n, k, j),
        0 <= jj < layer_len(n, kk),
    ensures
        up(m, marked_lazies(m, lazies, n, k, j, f), n, kk, jj, x) == if kk < k && layer_len(
            jj as nat,
            (k - kk) as nat,
        ) == j {
            m.map_spec(f, up(m, lazies, n, kk, jj, x))
        } else {
            up(m, lazies, n, kk, jj, x)
        },
    decreases layer_len(n, kk),
{
    let after = marked_lazies(m, lazies, n, k, j, f);
    lemma_parent(n, kk, jj);
    lemma_layers(jj as nat, 0);
    if kk < k {
        lemma_layers_shift(jj as nat, (k - kk) as nat);
    }
    if 0 <= jj / 2 < layer_len(n, kk + 1) {
        let q = jj / 2;
        lemma_cells(n, kk, q);
        let z = lazy_at(lazies, n, kk + 1, q);
        if kk + 1 == k && q == j {
            // the node to which the map was put
            assert(lazy_at(after, n, k, j) == m.comp_spec(f, z));
            m.map_comp(f, z, x);
            lemma_mark_up(m, lazies, n, k, j, f, k, j, m.map_spec(f, m.map_spec(z, x)));
            lemma_clean(m, lazies, n, k, j, m.map_spec(f, m.map_spec(z, x)));
            lemma_clean(m, lazies, n, k, j, m.map_spec(z, x));
            assert(layer_len(jj as nat, 1) == q);
        } else {
            if k >= 1 {
                lemma_cell(n, k, j);
                lemma_off_mono(n, 1, k);
                lemma_apart(n, kk + 1, q, k, j);
            }
            assert(lazy_at(after, n, kk + 1, q) == z);
            lemma_mark_up(m, lazies, n, k, j, f, kk + 1, q, m.map_spec(z, x));
            if kk + 1 < k {
                // the node is below the marked one if and only if the node above it is
                lemma_layers(q as nat, 0);
            } else if kk + 1 == k {
                assert(layer_len(jj as nat, 1) == q);
            }
        }
    } else {
        // no node above, so the marked node is not above either
        if kk < k {
            lemma_layers(n, kk);
            lemma_no_node_above(n, kk, jj, (k - kk) as nat);
        }
    }
}

/// Halving `d` times is halving once and then `d - 1` times.
proof fn lemma_layers_shift(i: nat, d: nat)
    requires
        d >= 1,
    ensures
        layer_len(i, d) == layer_len(i / 2, (d - 1) as nat),
    decreases d,
{
    lemma_layers(i, 0);
    if d > 1 {
        lemma_layers_shift(i, (d - 1) as nat);
        lemma_layers(i, (d - 1) as nat);
        lemma_layers(i / 2, (d - 2) as nat);
    } else {
        lemma_layers(i / 2, 0);
    }
}

/// Above a place that holds no node are only places that hold none.
proof fn lemma_no_node_above(n: nat, kk: nat, jj: int, d: nat)
    requires
        0 <= jj,
        !(jj / 2 < layer_len(n, kk + 1)),
        d >= 1,
    ensures
        !(layer_len(jj as nat, d) < layer_len(n, kk + d)),
    decreases d,
{
    lemma_layers(jj as nat, 0);
    lemma_layers(n, kk + 1);
    if d > 1 {
        lemma_no_node_above(n, kk, jj, (d - 1) as nat);
        lemma_layers(jj as nat, (d - 1) as nat);
        lemma_layers(n, kk + (d - 1) as nat);
    }
}

/// A map that is put to a node all of whose elements are in the range,
/// while only some of those of the node above it are, leaves the tree in
/// order where it was, and is applied to the elements of the node.
proof fn lemma_mark<M: LazyMonoid>(
    m: &M,
    values: Seq<M::T>,
    lazies: Seq<M::F>,
    n: nat,
    l: int,
    r: int,
    k: nat,
    j: int,
    f: M::F,
)
    requires
        0 <= l < r <= n,
        tree_ok_but(m, values, lazies, n, l, r, 0),
        0 <= j < layer_len(n, k),
        l <= j * width(k),
        (j + 1) * width(k) <= r,
        0 <= j / 2 < layer_len(n, k + 1) ==> partial(k + 1, j / 2, l, r),
    ensures
        tree_ok_but(
            m,
            marked_values(m, values, n, k, j, f),
            marked_lazies(m, lazies, n, k, j, f),
            n,
            l,
            r,
            0,
        ),
        forall|i: int|
            0 <= i < n ==> #[trigger] element(
                m,
                marked_values(m, values, n, k, j, f),
                marked_lazies(m, lazies, n, k, j, f),
                n,
                i,
            ) == if j * width(k) <= i < (j + 1) * width(k) {
                m.map_spec(f, element(m, values, lazies, n, i))
            } else {
                element(m, values, lazies, n, i)
            },
{
    let v2 = marked_values(m, values, n, k, j, f);
    let z2 = marked_lazies(m, lazies, n, k, j, f);
    let w = width(k);
    lemma_cell(n, k, j);
    lemma_size(n);
    lemma_layers(n, k);
    if k >= 1 {
        lemma_off_mono(n, 1, k);
    }
    lemma_partial_clean(m, lazies, n, l, r, k, j);
    assert forall|kk: nat, jj: int|
        0 <= jj < layer_len(n, kk + 1) && !partial(kk + 1, jj, l, r) implies #[trigger] joined(
        m,
        v2,
        z2,
        n,
        kk,
        jj,
    ) by {
        assert(joined(m, values, lazies, n, kk, jj));
        lemma_cells(n, kk, jj);
        if kk + 1 == k && jj == j {
            let zc = lazy_at(lazies, n, k, j);
            let g = m.op_spec(node_at(values, n, kk, 2 * jj), node_at(values, n, kk, 2 * jj + 1));
            m.map_comp(f, zc, g);
            lemma_apart(n, kk, 2 * jj, k, j);
            lemma_apart(n, kk, 2 * jj + 1, k, j);
        } else if kk == k && jj == j / 2 {
            // the node above the marked one has only some of its elements in the range
            assert(false);
        } else {
            lemma_apart(n, kk + 1, jj, k, j);
            lemma_apart(n, kk, 2 * jj, k, j);
            lemma_apart(n, kk, 2 * jj + 1, k, j);
        }
    }
    assert forall|kk: nat, jj: int|
        0 <= jj < layer_len(n, kk + 1) && partial(kk + 1, jj, l, r) implies is_id(
        m,
        #[trigger] lazy_at(z2, n, kk + 1, jj),
    ) by {
        assert(is_id(m, lazy_at(lazies, n, kk + 1, jj)));
        lemma_cells(n, kk, jj);
        if kk + 1 == k && jj == j {
            assert(false);
        } else if k >= 1 {
            lemma_apart(n, kk + 1, jj, k, j);
        }
    }
    assert forall|i: int| 0 <= i < n implies #[trigger] element(m, v2, z2, n, i) == if j * w <= i
        < (j + 1) * w {
        m.map_spec(f, element(m, values, lazies, n, i))
    } else {
        element(m, values, lazies, n, i)
    } by {
        lemma_layers(n, 0);
        lemma_above_block(i, k);
        lemma_mark_up(m, lazies, n, k, j, f, 0, i, v2[i]);
        if k == 0 {
            assert(w == 1);
            assert(j * 1 == j && (j + 1) * 1 == j + 1);
            if i == j {
                lemma_clean(m, lazies, n, 0, j, v2[i]);
                lemma_clean(m, lazies, n, 0, j, values[i]);
            }
        } else {
            assert(v2[i] == values[i]);
            if above(i, k) == j {
            } else {
                if j * w <= i < (j + 1) * w {
                    lemma_block_above(i, k, j);
                }
            }
        }
    }
}

/// Nothing waits above a node if only some of the elements of the node
/// above it are in the range, and no map waits at any such node.
proof fn lemma_partial_clean<M: LazyMonoid>(
    m: &M,
    lazies: Seq<M::F>,
    n: nat,
    l: int,
    r: int,
    k: nat,
    j: int,
)
    requires
        0 <= l < r,
        0 <= j,
        forall|k: nat, j: int|
            0 <= j < layer_len(n, k + 1) && partial(k + 1, j, l, r) ==> is_id(
                m,
                #[trigger] lazy_at(lazies, n, k + 1, j),
            ),
        0 <= j / 2 < layer_len(n, k + 1) ==> partial(k + 1, j / 2, l, r),
    ensures
        clean(m, lazies, n, k, j),
    decreases layer_len(n, k),
{
    if 0 <= j / 2 < layer_len(n, k + 1) && layer_len(n, k + 1) < layer_len(n, k) {
        let q = j / 2;
        assert(is_id(m, lazy_at(lazies, n, k + 1, q)));
        lemma_partial(k + 1, q, l, r);
        lemma_partial_clean(m, lazies, n, l, r, k + 1, q);
    }
}

impl<M: LazyMonoid> LazySegmentTree<M> {
    /// Applies `f` to node `j` of the layer that begins at `off`, and lets
    /// it wait there for the nodes below.
    fn mark(
        &mut self,
        Ghost(k): Ghost<nat>,
        Ghost(l): Ghost<int>,
        Ghost(r): Ghost<int>,
        off: usize,
        j: usize,
        f: &M::F,
    )
        requires
            old(self).1@.len() <= old(self).0@.len(),
            0 <= l < r <= old(self).spec_len(),
            tree_ok_but(&old(self).2, old(self).0@, old(self).1@, old(self).spec_len(), l, r, 0),
            j < layer_len(old(self).spec_len(), k),
            off == layer_off(old(self).spec_len(), k),
            l <= j * width(k),
            (j + 1) * width(k) <= r,
            0 <= j / 2 < layer_len(old(self).spec_len(), k + 1)
                ==> partial(k + 1, j as int / 2, l, r),
        ensures
            final(self).1@.len() <= final(self).0@.len(),
            final(self).spec_len() == old(self).spec_len(),
            final(self).2 == old(self).2,
            tree_ok_but(&final(self).2, final(self).0@, final(self).1@, old(self).spec_len(), l, r,
                0),
            forall|i: int|
                0 <= i < old(self).spec_len() ==> #[trigger] element(
                    &final(self).2,
                    final(self).0@,
                    final(self).1@,
                    old(self).spec_len(),
                    i,
                ) == if j * width(k) <= i < (j + 1) * width(k) {
                    old(self).2.map_spec(
                        *f,
                        element(&old(self).2, old(self).0@, old(self).1@, old(self).spec_len(), i),
                    )
                } else {
                    element(&old(self).2, old(self).0@, old(self).1@, old(self).spec_len(), i)
                },
    {
        let n = self.0.len() - self.1.len();
        let ghost values = self.0@;
        let ghost lazies = self.1@;
        proof {
            lemma_mark(&self.2, values, lazies, n as nat, l, r, k, j as int, *f);
            lemma_cell(n as nat, k, j as int);
            lemma_size(n as nat);
            if k >= 1 {
                lemma_off_mono(n as nat, 1, k);
            } else {
                lemma_layers(n as nat, 0);
            }
        }
        let v = self.2.map(f, &self.0[off + j]);
        self.0.set(off + j, v);
        if off > 0 {
            let z = self.2.comp(f, &self.1[off - n + j]);
            self.1.set(off - n + j, z);
        }
        proof {
            assert(self.0@ =~= marked_values(&self.2, values, n as nat, k, j as int, *f));
            assert(self.1@ =~= marked_lazies(&self.2, lazies, n as nat, k, j as int, *f));
        }
    }

    /// Applies `f` to each element in `range`, and to no other.
    pub fn apply<R: IndexRange>(&mut self, range: R, f: &M::F)
        requires
            old(self).wf(),
            range_within(&range, old(self)@.len() as int),
        ensures
            final(self).wf(),
            final(self).monoid() == old(self).monoid(),
            final(self)@.len() == old(self)@.len(),
            forall|i: int|
                0 <= i < old(self)@.len() ==> #[trigger] final(self)@[i] == if range_lower(&range)
                    <= i < range_upper(&range, old(self)@.len() as int) {
                    old(self).monoid().map_spec(*f, old(self)@[i])
                } else {
                    old(self)@[i]
                },
    {
        let n = self.len();
        let (lo, hi) = normalize(&range, n);
        if lo == hi {
            return ;
        }
        self.map_range(lo, hi - 1);
        let ghost a = self@;
        let ghost l = lo as int;
        let ghost r = hi as int;
        let mut len = n;
        let mut left = lo;
        let mut right = hi;
        let mut off: usize = 0;
        let ghost mut k: nat = 0;
        proof {
            let m = &self.2;
            lemma_layers(n as nat, 0);
            lemma_size(n as nat);
            assert(left * 1 == left && right * 1 == right);
            assert(a =~= elements(m, self.0@, self.1@, n as nat));
            assert forall|k: nat, j: int|
                0 <= j < layer_len(n as nat, k + 1) && partial(k + 1, j, l, r) implies is_id(
                m,
                #[trigger] lazy_at(self.1@, n as nat, k + 1, j),
            ) by {
                lemma_settled_partial(m, self.1@, n as nat, l, r, k, j);
            }
        }
        while left != right
            invariant
                self.1@.len() <= self.0@.len(),
                self.spec_len() == n,
                self.2 == old(self).2,
                0 <= l < r <= n,
                l == lo,
                r == hi,
                a.len() == n,
                tree_ok_but(&self.2, self.0@, self.1@, n as nat, l, r, 0),
                size_of(n as nat) <= 2 * n <= usize::MAX,
                len == layer_len(n as nat, k),
                off == layer_off(n as nat, k),
                left <= right <= len,
                l <= left * width(k) < l + width(k),
                r - width(k) < right * width(k) <= r,
                forall|i: int|
                    0 <= i < n ==> #[trigger] element(&self.2, self.0@, self.1@, n as nat, i)
                        == if (l <= i < left * width(k)) || (right * width(k) <= i < r) {
                        self.2.map_spec(*f, a[i])
                    } else {
                        a[i]
                    },
            decreases len,
        {
            let ghost w = width(k);
            let ghost l0 = left as int;
            let ghost r0 = right as int;
            proof {
                lemma_pair(left);
                lemma_pair(right);
                lemma_pair(len);
                lemma_layers(n as nat, k);
                lemma_layers(n as nat, k + 1);
                assert(l0 * w < r0 * w) by (nonlinear_arith)
                    requires
                        l0 < r0,
                        w >= 1,
                ;
            }
            if left & 1 == 1 {
                proof {
                    let q = l0 / 2;
                    assert((l0 + 1) * w <= r0 * w
                        && (l0 + 1) * w == l0 * w + w) by (nonlinear_arith)
                        requires
                            l0 + 1 <= r0,
                            w >= 1,
                    ;
                    // the node above begins before the range
                    assert(q * (2 * w) == l0 * w - w && (q + 1) * (2 * w) == l0 * w + w)
                        by (nonlinear_arith)
                        requires
                            l0 == 2 * q + 1,
                    ;
                }
                self.mark(Ghost(k), Ghost(l), Ghost(r), off, left, f);
                left += 1;
            }
            let ghost l1 = left as int;
            if right & 1 == 1 {
                right -= 1;
                proof {
                    let r1 = right as int;
                    let q = r1 / 2;
                    assert(l1 * w <= r1 * w && (r1 + 1) * w == r1 * w + w && 0 <= l1 * w)
                        by (nonlinear_arith)
                        requires
                            0 <= l1 <= r1,
                            w >= 1,
                    ;
                    // the node above ends behind the range
                    assert(q * (2 * w) == r1 * w && (q + 1) * (2 * w) == r1 * w + 2 * w)
                        by (nonlinear_arith)
                        requires
                            r1 == 2 * q,
                    ;
                }
                self.mark(Ghost(k), Ghost(l), Ghost(r), off, right, f);
            }
            proof {
                let l2 = left as int;
                let r2 = right as int;
                lemma_pair(left);
                lemma_pair(right);
                assert((l2 / 2) * (2 * w) == l2 * w && (r2 / 2) * (2 * w) == r2 * w)
                    by (nonlinear_arith)
                    requires
                        l2 % 2 == 0,
                        r2 % 2 == 0,
                ;
                assert(l2 * w == l0 * w || l2 * w == l0 * w + w) by (nonlinear_arith)
                    requires
                        l2 == l0 || l2 == l0 + 1,
                ;
                assert(r2 * w == r0 * w || r2 * w == r0 * w - w) by (nonlinear_arith)
                    requires
                        r2 == r0 || r2 == r0 - 1,
                ;
                k = k + 1;
            }
            off = off + len;
            len = len >> 1;
            left = left >> 1;
            right = right >> 1;
        }
        let ghost marked_values = self.0@;
        let ghost marked_lazies = self.1@;
        self.fix(lo, hi);
        proof {
            let m = &self.2;
            assert forall|i: int| 0 <= i < n implies #[trigger] self@[i] == if l <= i < r {
                m.map_spec(*f, a[i])
            } else {
                a[i]
            } by {
                assert(self.0@.subrange(0, n as int)[i] == marked_values.subrange(0, n as int)[i]);
                assert(self.0@[i] == marked_values[i]);
                assert(element(m, self.0@, self.1@, n as nat, i) == element(
                    m,
                    marked_values,
                    marked_lazies,
                    n as nat,
                    i,
                ));
            }
        }
    }
}

} // verus!
