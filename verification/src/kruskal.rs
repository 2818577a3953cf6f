//! Kruskal's choice of edges: the lightest edges of a graph that join what
//! was not joined before.

use crate::order::{before, one_order, total_order};
use crate::unionfind::UnionFind;
use vstd::prelude::*;

verus! {

/// The labels after the sets of `a` and `b` became one: both get the lesser
/// of their two labels.
pub open spec fn joined(labels: Seq<int>, a: int, b: int) -> Seq<int> {
    let to = if labels[a] <= labels[b] {
        labels[a]
    } else {
        labels[b]
    };
    Seq::new(
        labels.len(),
        |i: int|
            if labels[i] == labels[a] || labels[i] == labels[b] {
                to
            } else {
                labels[i]
            },
    )
}

/// The edges that are chosen where the edges are taken in the order
/// `order` and each vertex `v` is in the set `labels[v]`: an edge is chosen
/// if its ends are in two sets, which then become one.
pub open spec fn chosen<T>(edges: Seq<(usize, usize, T)>, order: Seq<usize>,
    labels: Seq<int>) -> Seq<
    usize,
>
    decreases order.len(),
{
    if order.len() == 0 {
        Seq::empty()
    } else {
        let e = order[0] as int;
        let a = edges[e].0 as int;
        let b = edges[e].1 as int;
        if labels[a] == labels[b] {
            chosen(edges, order.drop_first(), labels)
        } else {
            seq![order[0]] + chosen(edges, order.drop_first(), joined(labels, a, b))
        }
    }
}

/// Whether `order` lists every edge once, no edge before a lighter one.
pub open spec fn by_weight<T: PartialOrd>(edges: Seq<(usize, usize, T)>,
    order: Seq<usize>) -> bool {
    &&& order.to_multiset() == Seq::new(edges.len(), |i: int| i as usize).to_multiset()
    &&& forall|i: int| 0 <= i < order.len() ==> #[trigger] order[i] < edges.len()
    &&& forall|i: int, j: int|
        0 <= i <= j < order.len() ==> !before(
            edges[#[trigger] order[j] as int].2,
            edges[#[trigger] order[i] as int].2,
        )
}

/// `<[usize]>::sort_unstable_by_key` with the weight of an edge as the key
/// of its index: afterwards the vector holds the indices it held, each as
/// often as before, and none stands before the index of a lighter edge.
/// The sort goes by `Ord::cmp` of the weights, which has to be a total
/// order, and to be the order that `before` speaks of.
#[verifier::external_body]
fn sort_by_weight<T: Ord>(order: &mut Vec<usize>, edges: &[(usize, usize, T)])
    requires
        total_order::<T>(),
        one_order::<T>(),
        forall|i: int| 0 <= i < old(order)@.len() ==> #[trigger] old(order)@[i] < edges@.len(),
    ensures
        final(order)@.to_multiset() == old(order)@.to_multiset(),
        forall|i: int, j: int|
            0 <= i <= j < final(order)@.len() ==> !before(
                edges@[#[trigger] final(order)@[j] as int].2,
                edges@[#[trigger] final(order)@[i] as int].2,
            ),
{
    order.sort_unstable_by_key(|&i| &edges[i].2);
}

/// The indices of the edges that Kruskal's algorithm chooses among the
/// edges `(a, b, weight)` of a graph on the vertices `0..n`, in the order in
/// which it chooses them: it takes the edges from the lightest on, and
/// chooses an edge if its ends are not joined by the edges chosen before.
pub fn kruskal<T: Ord>(n: usize, edges: &[(usize, usize, T)]) -> (r: Vec<usize>)
    requires
        total_order::<T>(),
        one_order::<T>(),
        n <= isize::MAX,
        forall|e: int| 0 <= e < edges@.len() ==> (#[trigger] edges@[e]).0 < n && edges@[e].1 < n,
    ensures
        exists|order: Seq<usize>| #[trigger]
            by_weight(edges@, order) && r@ == chosen(
                edges@,
                order,
                Seq::new(n as nat, |i: int| i),
            ),
{
    let m = edges.len();
    let mut iv: Vec<usize> = Vec::new();
    let mut i: usize = 0;
    while i < m
        invariant
            i <= m,
            iv@ == Seq::new(i as nat, |k: int| k as usize),
        decreases m - i,
    {
        iv.push(i);
        assert(iv@ =~= Seq::new((i + 1) as nat, |k: int| k as usize));
        i += 1;
    }
    let ghost listed = iv@;
    sort_by_weight(&mut iv, edges);
    let ghost order = iv@;
    proof {
        listed.to_multiset_ensures();
        order.to_multiset_ensures();
        assert forall|k: int| 0 <= k < order.len() implies #[trigger] order[k] < m by {
            assert(order.contains(order[k]));
            assert(listed.to_multiset().count(order[k]) > 0);
            assert(listed.contains(order[k]));
        }
        assert(by_weight(edges@, order));
    }
    let mut uf = UnionFind::new(n);
    let mut result: Vec<usize> = Vec::new();
    let ghost mut labels: Seq<int> = Seq::new(n as nat, |i: int| i);
    let ghost start = labels;
    let mut k: usize = 0;
    proof {
        assert(order.subrange(0, order.len() as int) =~= order);
    }
    while k < iv.len()
        invariant
            iv@ == order,
            k <= order.len(),
            order.len() == m,
            m == edges@.len(),
            forall|e: int| 0 <= e < edges@.len()
                ==> (#[trigger] edges@[e]).0 < n && edges@[e].1 < n,
            forall|x: int| 0 <= x < order.len() ==> #[trigger] order[x] < m,
            uf.wf(),
            uf.spec_len() == n,
            labels.len() == n,
            forall|v: int| 0 <= v < n ==> #[trigger] labels[v] == uf.root_of(v),
            result@ + chosen(edges@, order.subrange(k as int, order.len() as int),
                labels) == chosen(
                edges@,
                order,
                start,
            ),
        decreases order.len() - k,
    {
        let e = iv[k];
        let a = edges[e].0;
        let b = edges[e].1;
        let ghost rest = order.subrange(k as int, order.len() as int);
        let ghost before_result = result@;
        let ghost held = uf;
        proof {
            assert(rest[0] == e);
            assert(rest.drop_first() =~= order.subrange(k + 1, order.len() as int));
        }
        if !uf.same(a, b) {
            let ghost mid = uf;
            let root = uf.union(a, b);
            result.push(e);
            proof {
                let next = joined(labels, a as int, b as int);
                assert forall|v: int| 0 <= v < n implies #[trigger] next[v] == uf.root_of(v) by {
                    assert(mid.root_of(v) == held.root_of(v));
                    assert(mid.root_of(a as int) == held.root_of(a as int));
                    assert(mid.root_of(b as int) == held.root_of(b as int));
                }
                assert(result@ + chosen(edges@, rest.drop_first(), next) =~= before_result + (seq![
                    e,
                ] + chosen(edges@, rest.drop_first(), next)));
                labels = next;
            }
        } else {
            proof {
                assert forall|v: int| 0 <= v < n implies #[trigger] labels[v] == uf.root_of(v) by {
                    assert(uf.root_of(v) == held.root_of(v));
                }
            }
        }
        k += 1;
    }
    proof {
        assert(order.subrange(k as int, order.len() as int) =~= Seq::<usize>::empty());
        assert(result@ + Seq::<usize>::empty() =~= result@);
    }
    result
}

} // verus!
