//! A segment tree over a monoid: point updates and range products.

use crate::util::{
    fold_op, lemma_fold_op_concat, lemma_fold_op_one, normalize, range_lower, range_upper,
    range_within, Associativity, Identity, IndexRange,
};
use vstd::prelude::*;

verus! {

/// A monoid: associative, with an identity.
pub trait Monoid: Associativity + Identity {

}

impl<T: Associativity + Identity> Monoid for T {

}

/// Number of nodes in layer `k` of a tree over `n` elements: each layer has
/// half as many as the one below, rounded down.
pub open spec fn layer_len(n: nat, k: nat) -> nat
    decreases k,
{
    if k == 0 {
        n
    } else {
        layer_len(n, (k - 1) as nat) / 2
    }
}

/// Where layer `k` begins in the array: behind all layers below it.
pub open spec fn layer_off(n: nat, k: nat) -> nat
    decreases k,
{
    if k == 0 {
        0
    } else {
        layer_off(n, (k - 1) as nat) + layer_len(n, (k - 1) as nat)
    }
}

/// Number of elements that a node of layer `k` stands for.
pub open spec fn width(k: nat) -> nat
    decreases k,
{
    if k == 0 {
        1
    } else {
        2 * width((k - 1) as nat)
    }
}

/// Length of the array of a tree over `n` elements.
pub open spec fn size_of(n: nat) -> nat
    decreases n,
{
    if n <= 1 {
        n
    } else {
        n + size_of(n / 2)
    }
}

/// Node `j` of layer `k`.
pub open spec fn node_at<T>(data: Seq<T>, n: nat, k: nat, j: int) -> T {
    data[layer_off(n, k) + j]
}

/// Whether node `j` of layer `k + 1` is the product of its two children.
pub open spec fn joined<M: Monoid>(m: &M, data: Seq<M::T>, n: nat, k: nat, j: int) -> bool {
    node_at(data, n, k + 1, j) == m.op_spec(
        node_at(data, n, k, 2 * j),
        node_at(data, n, k, 2 * j + 1),
    )
}

/// Every node above the elements is the product of its two children.
pub open spec fn layers_ok<M: Monoid>(m: &M, data: Seq<M::T>, n: nat) -> bool {
    &&& data.len() == size_of(n)
    &&& 2 * n <= usize::MAX
    &&& forall|k: nat, j: int|
        0 <= j < layer_len(n, k + 1) ==> #[trigger] joined(m, data, n, k, j)
}

pub proof fn lemma_layers(n: nat, k: nat)
    ensures
        layer_off(n, k) + size_of(layer_len(n, k)) == size_of(n),
        layer_len(n, k) * width(k) <= n,
        width(k) >= 1,
        layer_len(n, k) <= n,
        layer_len(n, k + 1) == layer_len(n, k) / 2,
        layer_off(n, k + 1) == layer_off(n, k) + layer_len(n, k),
        width(k + 1) == 2 * width(k),
    decreases k,
{
    if k > 0 {
        lemma_layers(n, (k - 1) as nat);
        let below = layer_len(n, (k - 1) as nat);
        let w = width((k - 1) as nat);
        assert((below / 2) * (2 * w) <= below * w) by (nonlinear_arith)
            requires
                w >= 1,
        ;
        assert(layer_len(n, k) == below / 2);
        assert(width(k) == 2 * w);
        if below <= 1 {
            assert(size_of(below / 2) == 0);
        }
    } else {
        assert(layer_len(n, k) * width(k) == n) by (nonlinear_arith)
            requires
                layer_len(n, k) == n,
                width(k) == 1,
        ;
    }
}

/// The array is at least as long as the sequence, and at most twice as long.
pub proof fn lemma_size(n: nat)
    ensures
        n <= size_of(n) <= 2 * n,
    decreases n,
{
    if n > 1 {
        lemma_size(n / 2);
    }
}

/// The cells of a layer lie within the array, and before every higher layer.
pub proof fn lemma_cell(n: nat, k: nat, j: int)
    requires
        0 <= j < layer_len(n, k),
    ensures
        layer_off(n, k) + j < size_of(n),
        layer_off(n, k) + j < layer_off(n, k + 1),
{
    lemma_layers(n, k);
    let len = layer_len(n, k);
    assert(size_of(len) >= len);
}

pub proof fn lemma_off_mono(n: nat, a: nat, b: nat)
    requires
        a <= b,
    ensures
        layer_off(n, a) <= layer_off(n, b),
    decreases b - a,
{
    if a < b {
        lemma_off_mono(n, a, (b - 1) as nat);
    }
}

/// Two different nodes are two different cells of the array.
pub proof fn lemma_apart(n: nat, k1: nat, j1: int, k2: nat, j2: int)
    requires
        0 <= j1 < layer_len(n, k1),
        0 <= j2 < layer_len(n, k2),
        k1 != k2 || j1 != j2,
    ensures
        layer_off(n, k1) + j1 != layer_off(n, k2) + j2,
{
    lemma_cell(n, k1, j1);
    lemma_cell(n, k2, j2);
    if k1 < k2 {
        lemma_off_mono(n, k1 + 1, k2);
    } else if k2 < k1 {
        lemma_off_mono(n, k2 + 1, k1);
    }
}

/// A node is the product of the elements it stands for.
proof fn lemma_block<M: Monoid>(m: &M, data: Seq<M::T>, n: nat, k: nat, j: int)
    requires
        layers_ok(m, data, n),
        0 <= j < layer_len(n, k),
    ensures
        (j + 1) * width(k) <= n,
        node_at(data, n, k, j) == fold_op(
            m,
            data.subrange(0, n as int).subrange(j * width(k), (j + 1) * width(k)),
        ),
    decreases k,
{
    let a = data.subrange(0, n as int);
    lemma_layers(n, k);
    lemma_size(n);
    let w = width(k);
    assert((j + 1) * w <= layer_len(n, k) * w) by (nonlinear_arith)
        requires
            j + 1 <= layer_len(n, k),
            w >= 1,
    ;
    if k == 0 {
        assert(j * 1 == j && (j + 1) * 1 == j + 1);
        assert(a.subrange(j, j + 1) =~= seq![data[j]]);
        lemma_fold_op_one(m, data[j]);
    } else {
        let below = (k - 1) as nat;
        lemma_layers(n, below);
        let h = width(below);
        assert(joined(m, data, n, below, j));
        lemma_block(m, data, n, below, 2 * j);
        lemma_block(m, data, n, below, 2 * j + 1);
        let lo = j * w;
        let mid = lo + h;
        let hi = lo + 2 * h;
        assert((2 * j) * h == lo && (2 * j + 1) * h == mid && (2 * j + 1 + 1) * h == hi && (j + 1)
            * w == hi && lo >= 0) by (nonlinear_arith)
            requires
                w == 2 * h,
                lo == j * w,
                mid == lo + h,
                hi == lo + 2 * h,
                j >= 0,
                h >= 1,
        ;
        assert(a.subrange(lo, hi) =~= a.subrange(lo, mid) + a.subrange(mid, hi));
        lemma_fold_op_concat(m, a.subrange(lo, mid), a.subrange(mid, hi));
    }
}

/// A sequence over a monoid with point updates and range products in
/// logarithmic time.
pub struct SegmentTree<M: Monoid>(Vec<M::T>, usize, M);

impl<M: Monoid> View for SegmentTree<M> {
    type V = Seq<M::T>;

    /// The elements, in order.
    closed spec fn view(&self) -> Seq<M::T> {
        self.0@.subrange(0, self.1 as int)
    }
}

impl<M: Monoid> SegmentTree<M> {
    /// Every node above the elements is the product of its two children.
    pub closed spec fn wf(&self) -> bool {
        layers_ok(&self.2, self.0@, self.1 as nat)
    }

    /// The monoid in which the elements are combined.
    pub closed spec fn monoid(&self) -> &M {
        &self.2
    }

    /// `n` elements, each the identity of `monoid`.
    pub fn new(monoid: M, n: usize) -> (r: Self)
        requires
            2 * n <= usize::MAX,
        ensures
            r.wf(),
            r.monoid() == &monoid,
            r@.len() == n,
            forall|i: int| 0 <= i < n ==> r@[i] == monoid.e_spec(),
    {
        let mut vec: Vec<M::T> = Vec::new();
        let mut i: usize = 0;
        while i < n
            invariant
                i <= n,
                vec@.len() == i,
                forall|j: int| 0 <= j < i ==> vec@[j] == monoid.e_spec(),
            decreases n - i,
        {
            vec.push(monoid.e());
            i += 1;
        }
        Self::from_vec(monoid, vec)
    }

    /// The elements of `vec`.
    pub fn from_vec(monoid: M, vec: Vec<M::T>) -> (r: Self)
        requires
            2 * vec@.len() <= usize::MAX,
        ensures
            r.wf(),
            r.monoid() == &monoid,
            r@ == vec@,
    {
        let mut vec = vec;
        let n = vec.len();
        let ghost a = vec@;
        let mut len = n;
        let mut offset: usize = 0;
        let ghost mut k: nat = 0;
        proof {
            lemma_layers(n as nat, 0);
            lemma_size(n as nat);
        }
        while len > 1
            invariant
                size_of(n as nat) <= 2 * n,
                n <= offset + len,
                len == layer_len(n as nat, k),
                offset == layer_off(n as nat, k),
                vec@.len() == offset + len,
                2 * n <= usize::MAX,
                vec@.subrange(0, n as int) == a,
                a.len() == n,
                forall|kk: nat, j: int|
                    kk < k && 0 <= j < layer_len(n as nat, kk + 1) ==> #[trigger] joined(
                        &monoid,
                        vec@,
                        n as nat,
                        kk,
                        j,
                    ),
            decreases len,
        {
            let ghost start = vec@;
            proof {
                lemma_layers(n as nat, k);
                lemma_layers(n as nat, k + 1);
                assert(size_of(len as nat) == len + size_of((len / 2) as nat));
                lemma_size((len / 2) as nat);
            }
            let half = len / 2;
            let mut j: usize = 0;
            while j < half
                invariant
                    j <= half,
                    half == len / 2,
                    len == layer_len(n as nat, k),
                    offset == layer_off(n as nat, k),
                    offset + len + half <= size_of(n as nat),
                    2 * n <= usize::MAX,
                    size_of(n as nat) <= 2 * n,
                    vec@.len() == offset + len + j,
                    vec@.subrange(0, offset + len) == start,
                    forall|i: int|
                        0 <= i < j ==> #[trigger] vec@[offset + len + i] == monoid.op_spec(
                            start[offset + 2 * i],
                            start[offset + 2 * i + 1],
                        ),
                decreases half - j,
            {
                let ghost before = vec@;
                let v = monoid.op(&vec[offset + 2 * j], &vec[offset + 2 * j + 1]);
                vec.push(v);
                proof {
                    assert(before[offset + 2 * j] == before.subrange(0, offset + len)[offset + 2
                        * j]);
                    assert(before[offset + 2 * j + 1] == before.subrange(0, offset + len)[offset
                        + 2 * j + 1]);
                    assert(vec@.subrange(0, offset + len) =~= before.subrange(0, offset + len));
                }
                j += 1;
            }
            proof {
                assert forall|kk: nat, i: int|
                    kk < k + 1 && 0 <= i < layer_len(n as nat, kk + 1) implies #[trigger] joined(
                    &monoid,
                    vec@,
                    n as nat,
                    kk,
                    i,
                ) by {
                    lemma_layers(n as nat, kk);
                    lemma_layers(n as nat, kk + 1);
                    if kk < k {
                        assert(joined(&monoid, start, n as nat, kk, i));
                        lemma_cell(n as nat, kk + 1, i);
                        lemma_cell(n as nat, kk, 2 * i);
                        lemma_cell(n as nat, kk, 2 * i + 1);
                        lemma_off_mono(n as nat, kk + 1, k);
                        lemma_off_mono(n as nat, kk + 2, k + 1);
                        assert(vec@.subrange(0, offset + len)[layer_off(n as nat, kk + 1) + i]
                            == start[layer_off(n as nat, kk + 1) + i]);
                        assert(vec@.subrange(0, offset + len)[layer_off(n as nat, kk) + 2 * i]
                            == start[layer_off(n as nat, kk) + 2 * i]);
                        assert(vec@.subrange(0, offset + len)[layer_off(n as nat, kk) + 2 * i + 1]
                            == start[layer_off(n as nat, kk) + 2 * i + 1]);
                    } else {
                        assert(vec@.subrange(0, offset + len)[offset + 2 * i] == start[offset + 2
                            * i]);
                        assert(vec@.subrange(0, offset + len)[offset + 2 * i + 1] == start[offset
                            + 2 * i + 1]);
                    }
                }
                assert(vec@.subrange(0, n as int) =~= vec@.subrange(0, offset + len).subrange(
                    0,
                    n as int,
                ));
                k = k + 1;
            }
            offset = offset + len;
            len = half;
        }
        proof {
            lemma_layers(n as nat, k);
            assert forall|kk: nat, j: int| 0 <= j < layer_len(n as nat, kk + 1)
                implies #[trigger] joined(
                &monoid,
                vec@,
                n as nat,
                kk,
                j,
            ) by {
                if kk >= k {
                    lemma_small_layers(n as nat, k, kk + 1);
                }
            }
        }
        SegmentTree(vec, n, monoid)
    }

    /// The array of the tree, the elements first and the layers above them
    /// behind, and the monoid.
    pub fn into_parts(self) -> (r: (Vec<M::T>, M))
        requires
            self.wf(),
        ensures
            layers_ok(&r.1, r.0@, self@.len()),
            r.0@.subrange(0, self@.len() as int) == self@,
            r.1 == *self.monoid(),
    {
        proof {
            lemma_layers(self.1 as nat, 0);
            lemma_size(self.1 as nat);
        }
        (self.0, self.2)
    }

    /// Number of elements.
    pub fn len(&self) -> (r: usize)
        requires
            self.wf(),
        ensures
            r == self@.len(),
    {
        proof {
            lemma_layers(self.1 as nat, 0);
        }
        self.1
    }

    /// Whether there is no element.
    pub fn is_empty(&self) -> (r: bool)
        requires
            self.wf(),
        ensures
            r == (self@.len() == 0),
    {
        proof {
            lemma_layers(self.1 as nat, 0);
        }
        self.1 == 0
    }

    /// The element at `index`.
    pub fn get(&self, index: usize) -> (r: &M::T)
        requires
            self.wf(),
            index < self@.len(),
        ensures
            *r == self@[index as int],
    {
        proof {
            lemma_layers(self.1 as nat, 0);
        }
        &self.0[index]
    }
}

/// Above a layer with at most one node there are no nodes.
pub proof fn lemma_small_layers(n: nat, k: nat, above: nat)
    requires
        layer_len(n, k) <= 1,
        k < above,
    ensures
        layer_len(n, above) == 0,
    decreases above - k,
{
    if above > k + 1 {
        lemma_small_layers(n, k, (above - 1) as nat);
    }
}

pub proof fn lemma_pair(i: usize)
    ensures
        i & !1usize == (i / 2) * 2,
        i | 1usize == (i / 2) * 2 + 1,
        i >> 1usize == i / 2,
        (i & 1usize == 1) == (i % 2 == 1),
{
    assert(i & !1usize == (i / 2) * 2) by (bit_vector);
    assert(i >> 1usize == i / 2) by (bit_vector);
    assert((i & 1usize == 1) == (i % 2 == 1)) by (bit_vector);
    assert(i | 1usize == (i / 2) * 2 + 1) by (bit_vector);
}

impl<M: Monoid> SegmentTree<M> {
    /// Computes anew the nodes above the element at `index`.
    fn update(&mut self, index: usize)
        requires
            old(self).0@.len() == size_of(old(self).1 as nat),
            2 * old(self).1 <= usize::MAX,
            index < old(self).1,
            forall|k: nat, j: int|
                0 <= j < layer_len(old(self).1 as nat, k + 1) && !(k == 0 && j == index / 2)
                    ==> #[trigger] joined(&old(self).2, old(self).0@, old(self).1 as nat, k, j),
        ensures
            final(self).wf(),
            final(self).1 == old(self).1,
            final(self).2 == old(self).2,
            final(self)@ == old(self)@,
    {
        let n = self.1;
        let mut len = n;
        let mut offset: usize = 0;
        let mut index = index;
        let ghost mut k: nat = 0;
        proof {
            lemma_size(n as nat);
        }
        while (index | 1) < len
            invariant
                self.1 == n,
                self.2 == old(self).2,
                self.0@.len() == size_of(n as nat),
                size_of(n as nat) <= 2 * n <= usize::MAX,
                len == layer_len(n as nat, k),
                offset == layer_off(n as nat, k),
                index < len,
                self.0@.subrange(0, n as int) == old(self).0@.subrange(0, n as int),
                forall|kk: nat, j: int|
                    0 <= j < layer_len(n as nat, kk + 1) && !(kk == k && j == index / 2)
                        ==> #[trigger] joined(&self.2, self.0@, n as nat, kk, j),
            decreases len,
        {
            let ghost before = self.0@;
            let ghost parent: int = index as int / 2;
            proof {
                lemma_pair(index);
                lemma_pair(len);
                lemma_layers(n as nat, k);
                lemma_layers(n as nat, k + 1);
                lemma_cell(n as nat, k, 2 * parent);
                lemma_cell(n as nat, k, 2 * parent + 1);
                lemma_cell(n as nat, k + 1, parent);
            }
            let val = self.2.op(&self.0[offset + (index & !1)], &self.0[offset + (index | 1)]);
            offset = offset + len;
            len = len >> 1;
            index = index >> 1;
            self.0.set(offset + index, val);
            proof {
                let m = &self.2;
                let cell = layer_off(n as nat, k + 1) + parent;
                assert(self.0@ == before.update(cell, val));
                assert forall|kk: nat, j: int|
                    0 <= j < layer_len(n as nat, kk + 1) && !(kk == k + 1 && j == index
                        / 2) implies #[trigger] joined(m, self.0@, n as nat, kk, j) by {
                    lemma_layers(n as nat, kk);
                    lemma_layers(n as nat, kk + 1);
                    lemma_cell(n as nat, kk + 1, j);
                    lemma_cell(n as nat, kk, 2 * j);
                    lemma_cell(n as nat, kk, 2 * j + 1);
                    if kk == k && j == parent {
                        lemma_apart(n as nat, k, 2 * parent, k + 1, parent);
                        lemma_apart(n as nat, k, 2 * parent + 1, k + 1, parent);
                    } else {
                        assert(joined(m, before, n as nat, kk, j));
                        lemma_apart(n as nat, kk + 1, j, k + 1, parent);
                        lemma_apart(n as nat, kk, 2 * j, k + 1, parent);
                        lemma_apart(n as nat, kk, 2 * j + 1, k + 1, parent);
                    }
                }
                lemma_off_mono(n as nat, 1, k + 1);
                assert(self.0@.subrange(0, n as int) =~= before.subrange(0, n as int));
                k = k + 1;
            }
        }
        proof {
            lemma_pair(index);
            lemma_layers(n as nat, k);
        }
    }

    /// Puts `value` at `index`.
    pub fn set(&mut self, index: usize, value: M::T)
        requires
            old(self).wf(),
            index < old(self)@.len(),
        ensures
            final(self).wf(),
            final(self).monoid() == old(self).monoid(),
            final(self)@ == old(self)@.update(index as int, value),
    {
        let ghost before = self.0@;
        let ghost n = self.1 as nat;
        proof {
            lemma_layers(n, 0);
            lemma_size(n);
        }
        self.0.set(index, value);
        proof {
            let m = &self.2;
            assert forall|k: nat, j: int|
                0 <= j < layer_len(n, k + 1) && !(k == 0 && j == index / 2)
                    implies #[trigger] joined(
                m,
                self.0@,
                n,
                k,
                j,
            ) by {
                assert(joined(m, before, n, k, j));
                lemma_layers(n, k);
                lemma_layers(n, k + 1);
                lemma_cell(n, k + 1, j);
                lemma_cell(n, k, 2 * j);
                lemma_cell(n, k, 2 * j + 1);
                lemma_apart(n, k + 1, j, 0, index as int);
                if k > 0 || 2 * j != index {
                    lemma_apart(n, k, 2 * j, 0, index as int);
                }
                if k > 0 || 2 * j + 1 != index {
                    lemma_apart(n, k, 2 * j + 1, 0, index as int);
                }
            }
            assert(self.0@.subrange(0, n as int) =~= before.subrange(0, n as int).update(
                index as int,
                value,
            ));
        }
        self.update(index);
    }

    /// Replaces the element at `index` by what `f` makes of it.
    pub fn setter<F: FnOnce(&M::T) -> M::T>(&mut self, index: usize, f: F)
        requires
            old(self).wf(),
            index < old(self)@.len(),
            f.requires((&old(self)@[index as int],)),
        ensures
            final(self).wf(),
            final(self).monoid() == old(self).monoid(),
            final(self)@.len() == old(self)@.len(),
            f.ensures((&old(self)@[index as int],), final(self)@[index as int]),
            final(self)@ == old(self)@.update(index as int, final(self)@[index as int]),
    {
        let value = f(self.get(index));
        self.set(index, value);
    }

    /// The product of the elements in `range`, from left to right.
    pub fn prod<R: IndexRange>(&self, range: R) -> (r: M::T)
        requires
            self.wf(),
            range_within(&range, self@.len() as int),
        ensures
            r == fold_op(
                self.monoid(),
                self@.subrange(range_lower(&range), range_upper(&range, self@.len() as int)),
            ),
    {
        let n = self.1;
        proof {
            lemma_layers(n as nat, 0);
            lemma_size(n as nat);
        }
        let (lo, hi) = normalize(&range, n);
        let m = &self.2;
        let ghost a = self.0@.subrange(0, n as int);
        let ghost target = fold_op(m, a.subrange(lo as int, hi as int));
        let mut len = n;
        let mut left_index = lo;
        let mut right_index = hi;
        let mut left_val = m.e();
        let mut right_val = m.e();
        let mut offset: usize = 0;
        let ghost mut k: nat = 0;
        proof {
            m.identity(target);
            assert(left_index * 1 == left_index && right_index * 1 == right_index);
        }
        while left_index != right_index
            invariant
                self.wf(),
                n == self.1,
                m == &self.2,
                a == self.0@.subrange(0, n as int),
                size_of(n as nat) <= 2 * n <= usize::MAX,
                len == layer_len(n as nat, k),
                offset == layer_off(n as nat, k),
                left_index <= right_index <= len,
                right_index * width(k) <= n,
                0 <= left_index * width(k) <= right_index * width(k),
                m.op_spec(
                    m.op_spec(
                        left_val,
                        fold_op(
                            m,
                            a.subrange(left_index * width(k), right_index * width(k)),
                        ),
                    ),
                    right_val,
                ) == target,
            decreases len,
        {
            let ghost w = width(k);
            let ghost l0 = left_index as int;
            let ghost r0 = right_index as int;
            let ghost lv0 = left_val;
            let ghost rv0 = right_val;
            proof {
                lemma_pair(left_index);
                lemma_pair(right_index);
                lemma_pair(len);
                lemma_layers(n as nat, k);
                lemma_layers(n as nat, k + 1);
            }
            if left_index & 1 == 1 {
                proof {
                    lemma_cell(n as nat, k, l0);
                    lemma_block(m, self.0@, n as nat, k, l0);
                    assert(l0 * w <= (l0 + 1) * w <= r0 * w) by (nonlinear_arith)
                        requires
                            l0 + 1 <= r0,
                            w >= 1,
                            l0 >= 0,
                    ;
                    let head = a.subrange(l0 * w, (l0 + 1) * w);
                    let tail = a.subrange((l0 + 1) * w, r0 * w);
                    assert(a.subrange(l0 * w, r0 * w) =~= head + tail);
                    lemma_fold_op_concat(m, head, tail);
                    m.associative(lv0, fold_op(m, head), fold_op(m, tail));
                }
                left_val = m.op(&left_val, &self.0[offset + left_index]);
                left_index += 1;
            }
            let ghost l1 = left_index as int;
            let ghost lv1 = left_val;
            if right_index & 1 == 1 {
                right_index -= 1;
                proof {
                    let r1 = right_index as int;
                    lemma_cell(n as nat, k, r1);
                    lemma_block(m, self.0@, n as nat, k, r1);
                    assert(l1 * w <= r1 * w <= (r1 + 1) * w) by (nonlinear_arith)
                        requires
                            l1 <= r1,
                            w >= 1,
                            l1 >= 0,
                    ;
                    let head = a.subrange(l1 * w, r1 * w);
                    let tail = a.subrange(r1 * w, (r1 + 1) * w);
                    assert(a.subrange(l1 * w, r0 * w) =~= head + tail);
                    lemma_fold_op_concat(m, head, tail);
                    m.associative(lv1, fold_op(m, head), fold_op(m, tail));
                    m.associative(m.op_spec(lv1, fold_op(m, head)), fold_op(m, tail), rv0);
                }
                right_val = m.op(&self.0[offset + right_index], &right_val);
            }
            proof {
                let l2 = left_index as int;
                let r2 = right_index as int;
                lemma_pair(left_index);
                lemma_pair(right_index);
                assert((l2 / 2) * (2 * w) == l2 * w && (r2 / 2) * (2 * w) == r2 * w)
                    by (nonlinear_arith)
                    requires
                        l2 % 2 == 0,
                        r2 % 2 == 0,
                ;
                assert(l2 * w <= r2 * w && 0 <= l2 * w) by (nonlinear_arith)
                    requires
                        0 <= l2 <= r2,
                        w >= 1,
                ;
                assert(r2 * w <= r0 * w) by (nonlinear_arith)
                    requires
                        r2 <= r0,
                        w >= 1,
                ;
                k = k + 1;
            }
            offset = offset + len;
            len = len >> 1;
            left_index = left_index >> 1;
            right_index = right_index >> 1;
        }
        proof {
            assert(a.subrange(left_index * width(k), right_index * width(k)) =~= Seq::<
                M::T,
            >::empty());
            m.identity(left_val);
        }
        m.op(&left_val, &right_val)
    }
}

/// Shifting the length right by `sh` gives the length of layer `sh`.
pub proof fn lemma_shift(n: usize, sh: usize)
    requires
        sh < 64,
    ensures
        ((n as u64) >> (sh as u64)) == layer_len(n as nat, sh as nat),
        ((n as u64) >> (sh as u64)) > 1 ==> sh < 63,
    decreases sh,
{
    let x = n as u64;
    let s = sh as u64;
    if sh == 0 {
        assert(x >> 0u64 == x) by (bit_vector);
    } else {
        lemma_shift(n, (sh - 1) as usize);
        let t = (sh - 1) as u64;
        assert(0 < s < 64 && t == s - 1 ==> (x >> t) / 2 == x >> s) by (bit_vector);
    }
    assert(s < 64 && (x >> s) > 1 ==> s < 63) by (bit_vector);
}

impl<M: Monoid> SegmentTree<M> {
    /// Searches to the right of `index` for the end of a range that `f`
    /// accepts: the product of the range from `index` to the result was
    /// accepted by `f`, and the product of the range that is longer by one
    /// element, if there is one, was refused. Where `f` accepts a range only
    /// if it accepts every shorter one, this is the longest range that `f`
    /// accepts. The empty range counts as accepted.
    pub fn binary_search<F: Fn(&M::T) -> bool>(&self, index: usize, f: F) -> (r: usize)
        requires
            self.wf(),
            index <= self@.len(),
            forall|v: M::T| f.requires((&v,)),
        ensures
            index <= r <= self@.len(),
            r > index ==> f.ensures(
                (&fold_op(self.monoid(), self@.subrange(index as int, r as int)),),
                true,
            ),
            r < self@.len() ==> f.ensures(
                (&fold_op(self.monoid(), self@.subrange(index as int, r + 1)),),
                false,
            ),
    {
        let n = self.1;
        let m = &self.2;
        let ghost a = self.0@.subrange(0, n as int);
        let ghost from = index as int;
        let mut index = index;
        let mut sh: usize = 0;
        let mut offset: usize = 0;
        let mut acc = m.e();
        let ghost mut k: nat = 0;
        let ghost mut pos: int = index as int;
        let ghost mut at_end: bool = true;
        let ghost mut bad: int = 0;
        proof {
            lemma_layers(n as nat, 0);
            lemma_size(n as nat);
            lemma_shift(n, 0);
            assert(a.subrange(from, from) =~= Seq::<M::T>::empty());
        }
        let mut len = n;
        while index < len
            invariant_except_break
                at_end,
            invariant
                self.wf(),
                n == self.1,
                m == &self.2,
                a == self.0@.subrange(0, n as int),
                forall|v: M::T| f.requires((&v,)),
                size_of(n as nat) <= 2 * n <= usize::MAX,
                sh == k,
                sh < 64,
                len == layer_len(n as nat, k),
                offset == layer_off(n as nat, k),
                index <= len,
                pos == index * width(k),
                0 <= from <= pos <= n,
                acc == fold_op(m, a.subrange(from, pos)),
                pos > from ==> f.ensures((&acc,), true),
            ensures
                at_end ==> index == len,
                !at_end ==> index < len && bad == (index + 1) * width(k) && bad <= n && f.ensures(
                    (&fold_op(m, a.subrange(from, bad)),),
                    false,
                ),
            decreases n - pos,
        {
            while index & 1 == 0 && len > 1
                invariant
                    size_of(n as nat) <= 2 * n <= usize::MAX,
                    sh == k,
                    sh < 64,
                    len == layer_len(n as nat, k),
                    offset == layer_off(n as nat, k),
                    index <= len,
                    pos == index * width(k),
                decreases len,
            {
                proof {
                    lemma_pair(index);
                    lemma_shift(n, sh);
                    lemma_shift(n, (sh + 1) as usize);
                    lemma_layers(n as nat, k);
                    lemma_layers(n as nat, k + 1);
                    lemma_cell(n as nat, k, 0);
                    assert((index / 2) * (2 * width(k)) == index * width(k)) by (nonlinear_arith)
                        requires
                            index % 2 == 0,
                    ;
                    k = k + 1;
                }
                index = index >> 1;
                offset = offset + len;
                sh = sh + 1;
                len = ((n as u64) >> (sh as u64)) as usize;
            }
            if index == len {
                break ;
            }
            let ghost w = width(k);
            proof {
                lemma_layers(n as nat, k);
                lemma_cell(n as nat, k, index as int);
                lemma_block(m, self.0@, n as nat, k, index as int);
                assert((index + 1) * w == pos + w) by (nonlinear_arith)
                    requires
                        pos == index * w,
                ;
                assert(a.subrange(from, pos + w) =~= a.subrange(from, pos) + a.subrange(
                    pos,
                    pos + w,
                ));
                lemma_fold_op_concat(m, a.subrange(from, pos), a.subrange(pos, pos + w));
            }
            let temp = m.op(&acc, &self.0[index + offset]);
            if !f(&temp) {
                proof {
                    at_end = false;
                    bad = pos + w;
                    assert(bad == (index + 1) * width(k));
                }
                break ;
            }
            acc = temp;
            index += 1;
            proof {
                pos = pos + w;
            }
        }
        while sh > 0
            invariant
                self.wf(),
                n == self.1,
                m == &self.2,
                a == self.0@.subrange(0, n as int),
                forall|v: M::T| f.requires((&v,)),
                size_of(n as nat) <= 2 * n <= usize::MAX,
                sh == k,
                sh < 64,
                offset == layer_off(n as nat, k),
                index <= layer_len(n as nat, k),
                pos == index * width(k),
                0 <= from <= pos <= n,
                acc == fold_op(m, a.subrange(from, pos)),
                pos > from ==> f.ensures((&acc,), true),
                at_end ==> index == layer_len(n as nat, k),
                !at_end ==> index < layer_len(n as nat, k) && bad == (index + 1) * width(k) && bad
                    <= n && f.ensures((&fold_op(m, a.subrange(from, bad)),), false),
            decreases sh,
        {
            let ghost up = layer_len(n as nat, k);
            let ghost w2 = width(k);
            let ghost old_index = index as int;
            proof {
                lemma_shift(n, (sh - 1) as usize);
                lemma_layers(n as nat, (k - 1) as nat);
                lemma_size(n as nat);
                lemma_layers(n as nat, k);
                k = (k - 1) as nat;
            }
            sh = sh - 1;
            let below = ((n as u64) >> (sh as u64)) as usize;
            offset = offset - below;
            index = index * 2;
            let ghost w = width(k);
            proof {
                assert(w2 == 2 * w);
                assert((2 * old_index) * w == old_index * (2 * w)) by (nonlinear_arith);
                assert((2 * old_index + 2) * w == (old_index + 1) * (2 * w)) by (nonlinear_arith);
            }
            if index == below {
                continue ;
            }
            proof {
                lemma_cell(n as nat, k, index as int);
                lemma_block(m, self.0@, n as nat, k, index as int);
                assert((index + 1) * w == pos + w) by (nonlinear_arith)
                    requires
                        pos == index * w,
                ;
                assert(a.subrange(from, pos + w) =~= a.subrange(from, pos) + a.subrange(
                    pos,
                    pos + w,
                ));
                lemma_fold_op_concat(m, a.subrange(from, pos), a.subrange(pos, pos + w));
            }
            let temp = m.op(&acc, &self.0[index + offset]);
            if f(&temp) {
                acc = temp;
                index += 1;
                proof {
                    pos = pos + w;
                    assert((index + 1) * w == pos + w) by (nonlinear_arith)
                        requires
                            pos == index * w,
                    ;
                }
            } else {
                proof {
                    at_end = false;
                    bad = pos + w;
                }
            }
        }
        proof {
            lemma_layers(n as nat, 0);
            assert(index * 1 == index);
        }
        index
    }
}

} // verus!
