//! Disjoint sets whose elements carry weights in a group: within a set, any
//! two elements have a known difference.

use crate::util::{Associativity, Identity, Inverse};
use vstd::prelude::*;
use vstd::std_specs::cmp::PartialEqSpec;

verus! {

/// A group: associative, with an identity and inverses.
pub trait Group: Identity + Associativity + Inverse {

}

impl<T: Identity + Associativity + Inverse> Group for T {

}

/// What is known of two elements.
#[derive(Clone, Copy, PartialEq, Eq, Hash, Debug)]
pub enum Diff<T> {
    /// They are in one set, of which contradicting differences were given.
    Invaild,
    /// They are in two sets.
    Unconnected,
    /// They are in one set, and this is their difference.
    Connected(T),
}

/// A root with the size of its set and whether all is consistent in it, or
/// a link to another element with the difference to it.
pub enum Node<G: Group> {
    Root(usize, bool),
    NotRoot(usize, G::T),
}

/// Whether `i` has a link that leads on: to an element of lower rank.
pub open spec fn leads_on<G: Group>(nodes: Seq<Node<G>>, rank: Seq<nat>, i: int) -> bool {
    &&& 0 <= i < nodes.len()
    &&& nodes[i] matches Node::NotRoot(p, _)
    &&& p < nodes.len()
    &&& rank[p as int] < rank[i]
}

/// Where the link of `i` leads.
pub open spec fn parent_of<G: Group>(nodes: Seq<Node<G>>, i: int) -> int {
    match nodes[i] {
        Node::NotRoot(p, _) => p as int,
        Node::Root(_, _) => i,
    }
}

/// The difference that the link of `i` carries.
pub open spec fn weight_of<G: Group>(g: &G, nodes: Seq<Node<G>>, i: int) -> G::T {
    match nodes[i] {
        Node::NotRoot(_, w) => w,
        Node::Root(_, _) => g.e_spec(),
    }
}

/// Every link leads to an element of lower rank.
pub open spec fn links_ok<G: Group>(nodes: Seq<Node<G>>, rank: Seq<nat>) -> bool {
    &&& rank.len() == nodes.len()
    &&& forall|i: int|
        0 <= i < nodes.len() && #[trigger] nodes[i] is NotRoot ==> leads_on(nodes, rank, i)
}

/// The root that the links lead to from `i`.
pub open spec fn root_in<G: Group>(nodes: Seq<Node<G>>, rank: Seq<nat>, i: int) -> int
    decreases rank[i],
{
    if leads_on(nodes, rank, i) {
        root_in(nodes, rank, parent_of(nodes, i))
    } else {
        i
    }
}

/// The difference of `i` to its root: the differences along the links,
/// combined from `i` on.
pub open spec fn pot_in<G: Group>(g: &G, nodes: Seq<Node<G>>, rank: Seq<nat>, i: int) -> G::T
    decreases rank[i],
{
    if leads_on(nodes, rank, i) {
        g.op_spec(weight_of(g, nodes, i), pot_in(g, nodes, rank, parent_of(nodes, i)))
    } else {
        g.e_spec()
    }
}

/// How many of the first `k` elements have the root `r`.
pub open spec fn members_in<G: Group>(nodes: Seq<Node<G>>, rank: Seq<nat>, k: int, r: int) -> nat
    decreases k,
{
    if k <= 0 {
        0
    } else {
        members_in(nodes, rank, k - 1, r) + if root_in(nodes, rank, k - 1) == r {
            1nat
        } else {
            0nat
        }
    }
}

/// Every root keeps the number of elements that lead to it.
pub open spec fn sizes_ok<G: Group>(nodes: Seq<Node<G>>, rank: Seq<nat>) -> bool {
    forall|r: int|
        0 <= r < nodes.len() ==> (#[trigger] nodes[r] matches Node::Root(s, _) ==> s == members_in(
            nodes,
            rank,
            nodes.len() as int,
            r,
        ))
}

proof fn lemma_root<G: Group>(nodes: Seq<Node<G>>, rank: Seq<nat>, i: int)
    requires
        links_ok(nodes, rank),
        0 <= i < nodes.len(),
    ensures
        0 <= root_in(nodes, rank, i) < nodes.len(),
        nodes[root_in(nodes, rank, i)] is Root,
        root_in(nodes, rank, root_in(nodes, rank, i)) == root_in(nodes, rank, i),
    decreases rank[i],
{
    if leads_on(nodes, rank, i) {
        lemma_root(nodes, rank, parent_of(nodes, i));
    }
}

proof fn lemma_members_bound<G: Group>(nodes: Seq<Node<G>>, rank: Seq<nat>, k: int, r: int)
    requires
        0 <= k,
    ensures
        members_in(nodes, rank, k, r) <= k,
    decreases k,
{
    if k > 0 {
        lemma_members_bound(nodes, rank, k - 1, r);
    }
}

proof fn lemma_members_two<G: Group>(nodes: Seq<Node<G>>, rank: Seq<nat>, k: int, a: int, b: int)
    requires
        0 <= k,
        a != b,
    ensures
        members_in(nodes, rank, k, a) + members_in(nodes, rank, k, b) <= k,
    decreases k,
{
    if k > 0 {
        lemma_members_two(nodes, rank, k - 1, a, b);
    }
}

proof fn lemma_members_one<G: Group>(nodes: Seq<Node<G>>, rank: Seq<nat>, k: int, i: int)
    requires
        0 <= i < k,
    ensures
        members_in(nodes, rank, k, root_in(nodes, rank, i)) >= 1,
    decreases k,
{
    if k - 1 > i {
        lemma_members_one(nodes, rank, k - 1, i);
    }
}

/// The links after `a` was linked past its parent, to the parent of its
/// parent, with the two differences combined.
pub open spec fn halved<G: Group>(g: &G, nodes: Seq<Node<G>>, a: int) -> Seq<Node<G>> {
    let b = parent_of(nodes, a);
    nodes.update(
        a,
        Node::NotRoot(
            parent_of(nodes, b) as usize,
            g.op_spec(weight_of(g, nodes, a), weight_of(g, nodes, b)),
        ),
    )
}

/// Linking an element past its parent changes no root and no difference.
proof fn lemma_halved<G: Group>(g: &G, nodes: Seq<Node<G>>, rank: Seq<nat>, a: int, i: int)
    requires
        links_ok(nodes, rank),
        0 <= a < nodes.len(),
        nodes[a] is NotRoot,
        nodes[parent_of(nodes, a)] is NotRoot,
        0 <= i < nodes.len(),
    ensures
        links_ok(halved(g, nodes, a), rank),
        root_in(halved(g, nodes, a), rank, i) == root_in(nodes, rank, i),
        pot_in(g, halved(g, nodes, a), rank, i) == pot_in(g, nodes, rank, i),
    decreases rank[i],
{
    let after = halved(g, nodes, a);
    let b = parent_of(nodes, a);
    let c = parent_of(nodes, b);
    assert(leads_on(nodes, rank, a));
    assert(leads_on(nodes, rank, b));
    assert forall|j: int| 0 <= j < after.len() && #[trigger] after[j] is NotRoot implies leads_on(
        after,
        rank,
        j,
    ) by {
        if j != a {
            assert(nodes[j] is NotRoot);
            assert(leads_on(nodes, rank, j));
        }
    }
    if i == a {
        lemma_halved(g, nodes, rank, a, c);
        assert(leads_on(after, rank, a));
        assert(parent_of(after, a) == c);
        assert(root_in(nodes, rank, a) == root_in(nodes, rank, b));
        assert(root_in(nodes, rank, b) == root_in(nodes, rank, c));
        assert(root_in(after, rank, a) == root_in(after, rank, c));
        g.associative(
            weight_of(g, nodes, a),
            weight_of(g, nodes, b),
            pot_in(g, nodes, rank, c),
        );
        assert(pot_in(g, nodes, rank, b) == g.op_spec(
            weight_of(g, nodes, b),
            pot_in(g, nodes, rank, c),
        ));
    } else if leads_on(nodes, rank, i) {
        assert(after[i] == nodes[i]);
        assert(leads_on(after, rank, i));
        lemma_halved(g, nodes, rank, a, parent_of(nodes, i));
    } else {
        assert(after[i] == nodes[i]);
        assert(!leads_on(after, rank, i));
    }
}

proof fn lemma_halved_members<G: Group>(
    g: &G,
    nodes: Seq<Node<G>>,
    rank: Seq<nat>,
    a: int,
    k: int,
    r: int,
)
    requires
        links_ok(nodes, rank),
        0 <= a < nodes.len(),
        nodes[a] is NotRoot,
        nodes[parent_of(nodes, a)] is NotRoot,
        0 <= k <= nodes.len(),
    ensures
        members_in(halved(g, nodes, a), rank, k, r) == members_in(nodes, rank, k, r),
    decreases k,
{
    if k > 0 {
        lemma_halved_members(g, nodes, rank, a, k - 1, r);
        lemma_halved(g, nodes, rank, a, k - 1);
    }
}

/// Disjoint sets over `0..len()` in which each element has a difference to
/// every other element of its set.
pub struct WeightedUnionFind<G: Group>(Vec<Node<G>>, G, Ghost<Seq<nat>>);

impl<G: Group> WeightedUnionFind<G> {
    /// The links are sound and every root keeps the size of its set.
    pub closed spec fn wf(&self) -> bool {
        &&& links_ok(self.0@, self.2@)
        &&& sizes_ok(self.0@, self.2@)
    }

    /// Number of elements.
    pub closed spec fn spec_len(&self) -> nat {
        self.0@.len()
    }

    /// The group of the differences.
    pub closed spec fn group(&self) -> &G {
        &self.1
    }

    /// The root of the set that holds `i`.
    pub closed spec fn root_of(&self, i: int) -> int {
        root_in(self.0@, self.2@, i)
    }

    /// The difference of `i` to the root of its set.
    pub closed spec fn pot_of(&self, i: int) -> G::T {
        pot_in(&self.1, self.0@, self.2@, i)
    }

    /// Whether no contradicting differences were given in the set of the root `r`.
    pub closed spec fn consistent(&self, r: int) -> bool {
        self.0@[r] matches Node::Root(_, true)
    }

    /// Number of elements whose root is `r`.
    pub closed spec fn members(&self, r: int) -> nat {
        members_in(self.0@, self.2@, self.0@.len() as int, r)
    }

    /// The difference of `a` and `b`, where they are in one set.
    pub open spec fn diff_of(&self, a: int, b: int) -> G::T {
        self.group().op_spec(self.pot_of(a), self.group().inv_spec(self.pot_of(b)))
    }

    /// What is known of `a` and `b`.
    pub open spec fn diff_spec(&self, a: int, b: int) -> Diff<G::T> {
        if self.root_of(a) != self.root_of(b) {
            Diff::Unconnected
        } else if self.consistent(self.root_of(a)) {
            Diff::Connected(self.diff_of(a, b))
        } else {
            Diff::Invaild
        }
    }

    /// Whether `other` holds the same sets with the same differences.
    pub open spec fn same_as(&self, other: &Self) -> bool {
        &&& self.spec_len() == other.spec_len()
        &&& self.group() == other.group()
        &&& forall|i: int|
            0 <= i < self.spec_len() ==> #[trigger] self.root_of(i) == other.root_of(i)
        &&& forall|i: int| 0 <= i < self.spec_len() ==> #[trigger] self.pot_of(i) == other.pot_of(i)
        &&& forall|r: int|
            0 <= r < self.spec_len() ==> #[trigger] self.consistent(r) == other.consistent(r)
        &&& forall|r: int| #[trigger] self.members(r) == other.members(r)
    }

    /// The root of a set is an element and its own root, and the set has at
    /// least the element that one started from.
    pub proof fn lemma_root_of(&self, i: int)
        requires
            self.wf(),
            0 <= i < self.spec_len(),
        ensures
            0 <= self.root_of(i) < self.spec_len(),
            self.root_of(self.root_of(i)) == self.root_of(i),
            self.members(self.root_of(i)) >= 1,
    {
        lemma_root(self.0@, self.2@, i);
        lemma_members_one(self.0@, self.2@, self.0@.len() as int, i);
    }

    /// `n` sets of one element each.
    pub fn new(group: G, n: usize) -> (r: Self)
        ensures
            r.wf(),
            r.spec_len() == n,
            r.group() == &group,
            forall|i: int| 0 <= i < n ==> r.root_of(i) == i,
            forall|i: int| 0 <= i < n ==> r.pot_of(i) == group.e_spec(),
            forall|i: int| 0 <= i < n ==> r.consistent(i),
            forall|i: int| 0 <= i < n ==> r.members(i) == 1,
    {
        let mut nodes: Vec<Node<G>> = Vec::new();
        let mut i: usize = 0;
        while i < n
            invariant
                i <= n,
                nodes@.len() == i,
                forall|j: int| 0 <= j < i ==> #[trigger] nodes@[j] == Node::<G>::Root(1, true),
            decreases n - i,
        {
            nodes.push(Node::Root(1, true));
            i += 1;
        }
        let ghost rank = Seq::new(n as nat, |j: int| 0nat);
        proof {
            assert forall|r: int| 0 <= r < n implies members_in(nodes@, rank, n as int, r)
                == 1 by {
                lemma_fresh(nodes@, rank, n as int, r);
            }
        }
        WeightedUnionFind(nodes, group, Ghost(rank))
    }

    /// Number of elements.
    pub fn len(&self) -> (r: usize)
        ensures
            r == self.spec_len(),
    {
        self.0.len()
    }

    /// Whether there is no element.
    pub fn is_empty(&self) -> (r: bool)
        ensures
            r == (self.spec_len() == 0),
    {
        self.0.len() == 0
    }

    /// The root of `a`, the size of its set and whether it is consistent.
    fn find_internal_imu(&self, a: usize) -> (r: (usize, usize, bool))
        requires
            self.wf(),
            a < self.spec_len(),
        ensures
            r.0 == self.root_of(a as int),
            r.1 == self.members(r.0 as int),
            r.2 == self.consistent(r.0 as int),
    {
        let mut at = a;
        loop
            invariant
                self.wf(),
                at < self.0@.len(),
                root_in(self.0@, self.2@, at as int) == root_in(self.0@, self.2@, a as int),
            decreases self.2@[at as int],
        {
            match &self.0[at] {
                Node::Root(s, v) => {
                    return (at, *s, *v);
                },
                Node::NotRoot(x, _) => {
                    proof {
                        assert(leads_on(self.0@, self.2@, at as int));
                    }
                    at = *x;
                },
            }
        }
    }

    /// The root of `a`, the size of its set, and the difference of `a` to
    /// the root where the set is consistent.
    fn diff_internal_imu(&self, a: usize) -> (r: (usize, usize, Option<G::T>))
        requires
            self.wf(),
            a < self.spec_len(),
        ensures
            r.0 == self.root_of(a as int),
            r.1 == self.members(r.0 as int),
            r.2 == if self.consistent(r.0 as int) {
                Some(self.pot_of(a as int))
            } else {
                None
            },
    {
        let g = &self.1;
        let mut h = g.e();
        let mut at = a;
        proof {
            g.identity(pot_in(g, self.0@, self.2@, a as int));
        }
        loop
            invariant
                self.wf(),
                g == &self.1,
                at < self.0@.len(),
                root_in(self.0@, self.2@, at as int) == root_in(self.0@, self.2@, a as int),
                g.op_spec(h, pot_in(g, self.0@, self.2@, at as int)) == pot_in(
                    g,
                    self.0@,
                    self.2@,
                    a as int,
                ),
            decreases self.2@[at as int],
        {
            match &self.0[at] {
                Node::Root(s, v) => {
                    proof {
                        g.identity(h);
                    }
                    return (
                        at,
                        *s,
                        if *v {
                            Some(h)
                        } else {
                            None
                        },
                    );
                },
                Node::NotRoot(x, y) => {
                    proof {
                        assert(leads_on(self.0@, self.2@, at as int));
                        g.associative(h, *y, pot_in(g, self.0@, self.2@, *x as int));
                    }
                    h = g.op(&h, y);
                    at = *x;
                },
            }
        }
    }

    /// What is known of `a` and `b`.
    pub fn diff_imu(&self, a: usize, b: usize) -> (r: Diff<G::T>)
        requires
            self.wf(),
            a < self.spec_len(),
            b < self.spec_len(),
        ensures
            r == self.diff_spec(a as int, b as int),
    {
        let (ra, _, ah) = self.diff_internal_imu(a);
        let (rb, _, bh) = self.diff_internal_imu(b);
        if ra != rb {
            Diff::Unconnected
        } else {
            match (ah, bh) {
                (Some(ah), Some(bh)) => Diff::Connected(self.1.opinv(&ah, &bh)),
                _ => Diff::Invaild,
            }
        }
    }

    /// The root of the set of `a`.
    pub fn find_imu(&self, a: usize) -> (r: usize)
        requires
            self.wf(),
            a < self.spec_len(),
        ensures
            r == self.root_of(a as int),
    {
        self.find_internal_imu(a).0
    }

    /// Number of elements in the set of `a`.
    pub fn size_imu(&self, a: usize) -> (r: usize)
        requires
            self.wf(),
            a < self.spec_len(),
        ensures
            r == self.members(self.root_of(a as int)),
    {
        self.find_internal_imu(a).1
    }
}

proof fn lemma_fresh<G: Group>(nodes: Seq<Node<G>>, rank: Seq<nat>, k: int, r: int)
    requires
        0 <= k <= nodes.len(),
        forall|i: int| 0 <= i < nodes.len() ==> #[trigger] nodes[i] is Root,
    ensures
        members_in(nodes, rank, k, r) == if 0 <= r < k {
            1nat
        } else {
            0nat
        },
    decreases k,
{
    if k > 0 {
        lemma_fresh(nodes, rank, k - 1, r);
    }
}

/// An element and its inverse cancel, in either order.
pub proof fn lemma_inverse<G: Group>(g: &G, a: G::T)
    ensures
        g.op_spec(a, g.inv_spec(a)) == g.e_spec(),
        g.op_spec(g.inv_spec(a), a) == g.e_spec(),
{
    g.cancels(a, g.e_spec());
    g.identity(a);
}

/// The inverse of the inverse is the element.
pub proof fn lemma_inverse_twice<G: Group>(g: &G, a: G::T)
    ensures
        g.inv_spec(g.inv_spec(a)) == a,
{
    lemma_inverse(g, a);
    g.cancels(g.inv_spec(a), a);
    g.identity(g.inv_spec(g.inv_spec(a)));
}

/// The inverse of a product is the product of the inverses, the other way round.
pub proof fn lemma_inverse_of_product<G: Group>(g: &G, a: G::T, b: G::T)
    ensures
        g.inv_spec(g.op_spec(a, b)) == g.op_spec(g.inv_spec(b), g.inv_spec(a)),
{
    let z = g.op_spec(a, b);
    let w = g.op_spec(g.inv_spec(b), g.inv_spec(a));
    // z w == e
    g.associative(a, b, w);
    g.associative(b, g.inv_spec(b), g.inv_spec(a));
    lemma_inverse(g, b);
    g.identity(g.inv_spec(a));
    lemma_inverse(g, a);
    // w == inv(z) (z w) == inv(z)
    g.cancels(z, w);
    g.identity(g.inv_spec(z));
}

/// The links after the root `moved` was linked to the root `keep` with the
/// difference `k`.
pub open spec fn linked<G: Group>(
    nodes: Seq<Node<G>>,
    keep: int,
    moved: int,
    size: usize,
    valid: bool,
    k: G::T,
) -> Seq<Node<G>> {
    nodes.update(keep, Node::Root(size, valid)).update(moved, Node::NotRoot(keep as usize, k))
}

/// The ranks after the set of `moved` came under `keep`: its elements rise
/// above `keep`.
pub open spec fn raised<G: Group>(
    nodes: Seq<Node<G>>,
    rank: Seq<nat>,
    keep: int,
    moved: int,
) -> Seq<nat> {
    Seq::new(
        rank.len(),
        |x: int|
            if root_in(nodes, rank, x) == moved {
                rank[x] + rank[keep] + 1
            } else {
                rank[x]
            },
    )
}

proof fn lemma_linked<G: Group>(
    g: &G,
    nodes: Seq<Node<G>>,
    rank: Seq<nat>,
    keep: int,
    moved: int,
    size: usize,
    valid: bool,
    k: G::T,
    i: int,
)
    requires
        links_ok(nodes, rank),
        nodes.len() <= usize::MAX,
        0 <= keep < nodes.len(),
        0 <= moved < nodes.len(),
        keep != moved,
        nodes[keep] is Root,
        nodes[moved] is Root,
        0 <= i < nodes.len(),
    ensures
        links_ok(linked(nodes, keep, moved, size, valid, k), raised(nodes, rank, keep, moved)),
        root_in(
            linked(nodes, keep, moved, size, valid, k),
            raised(nodes, rank, keep, moved),
            i,
        ) == if root_in(nodes, rank, i) == moved {
            keep
        } else {
            root_in(nodes, rank, i)
        },
        pot_in(
            g,
            linked(nodes, keep, moved, size, valid, k),
            raised(nodes, rank, keep, moved),
            i,
        ) == if root_in(nodes, rank, i) == moved {
            g.op_spec(pot_in(g, nodes, rank, i), k)
        } else {
            pot_in(g, nodes, rank, i)
        },
    decreases rank[i],
{
    let after = linked(nodes, keep, moved, size, valid, k);
    let up = raised(nodes, rank, keep, moved);
    assert(!leads_on(nodes, rank, keep));
    assert(!leads_on(nodes, rank, moved));
    assert forall|j: int| 0 <= j < after.len() && #[trigger] after[j] is NotRoot implies leads_on(
        after,
        up,
        j,
    ) by {
        assert(root_in(nodes, rank, keep) == keep);
        assert(root_in(nodes, rank, moved) == moved);
        if j == moved {
        } else {
            assert(j != keep);
            assert(after[j] == nodes[j]);
            assert(nodes[j] is NotRoot);
            assert(leads_on(nodes, rank, j));
            assert(root_in(nodes, rank, j) == root_in(nodes, rank, parent_of(nodes, j)));
        }
    }
    assert(root_in(nodes, rank, keep) == keep);
    assert(root_in(nodes, rank, moved) == moved);
    if i == moved {
        assert(leads_on(after, up, moved));
        assert(parent_of(after, moved) == keep);
        assert(!leads_on(after, up, keep));
        assert(root_in(after, up, moved) == root_in(after, up, keep));
        assert(pot_in(g, after, up, keep) == g.e_spec());
        g.identity(k);
    } else if i == keep {
        assert(!leads_on(after, up, keep));
    } else if leads_on(nodes, rank, i) {
        let p = parent_of(nodes, i);
        assert(after[i] == nodes[i]);
        assert(leads_on(after, up, i));
        lemma_linked(g, nodes, rank, keep, moved, size, valid, k, p);
        g.associative(weight_of(g, nodes, i), pot_in(g, nodes, rank, p), k);
    } else {
        assert(after[i] == nodes[i]);
        assert(!leads_on(after, up, i));
    }
}

proof fn lemma_linked_members<G: Group>(
    g: &G,
    nodes: Seq<Node<G>>,
    rank: Seq<nat>,
    keep: int,
    moved: int,
    size: usize,
    valid: bool,
    k: G::T,
    upto: int,
    r: int,
)
    requires
        links_ok(nodes, rank),
        nodes.len() <= usize::MAX,
        0 <= keep < nodes.len(),
        0 <= moved < nodes.len(),
        keep != moved,
        nodes[keep] is Root,
        nodes[moved] is Root,
        0 <= upto <= nodes.len(),
    ensures
        members_in(
            linked(nodes, keep, moved, size, valid, k),
            raised(nodes, rank, keep, moved),
            upto,
            r,
        ) == if r == keep {
            members_in(nodes, rank, upto, keep) + members_in(nodes, rank, upto, moved)
        } else if r == moved {
            0
        } else {
            members_in(nodes, rank, upto, r)
        },
    decreases upto,
{
    if upto > 0 {
        lemma_linked_members(g, nodes, rank, keep, moved, size, valid, k, upto - 1, r);
        lemma_linked(g, nodes, rank, keep, moved, size, valid, k, upto - 1);
    }
}

impl<G: Group> WeightedUnionFind<G> {
    /// Links `a` past its parent. Nothing changes but the length of the way
    /// to the root.
    fn halve(&mut self, a: usize, c: usize, nf: G::T)
        requires
            old(self).wf(),
            a < old(self).spec_len(),
            old(self).0@[a as int] is NotRoot,
            old(self).0@[parent_of(old(self).0@, a as int)] is NotRoot,
            c == parent_of(old(self).0@, parent_of(old(self).0@, a as int)),
            nf == old(self).1.op_spec(
                weight_of(&old(self).1, old(self).0@, a as int),
                weight_of(&old(self).1, old(self).0@, parent_of(old(self).0@, a as int)),
            ),
        ensures
            final(self).wf(),
            final(self).same_as(old(self)),
            final(self).2 == old(self).2,
            final(self).0@ == halved(&old(self).1, old(self).0@, a as int),
    {
        let ghost nodes = self.0@;
        let ghost rank = self.2@;
        self.0.set(a, Node::NotRoot(c, nf));
        proof {
            let g = &self.1;
            assert(self.0@ =~= halved(g, nodes, a as int));
            assert forall|i: int| 0 <= i < nodes.len() implies root_in(self.0@, rank, i) == root_in(
                nodes,
                rank,
                i,
            ) && pot_in(g, self.0@, rank, i) == pot_in(g, nodes, rank, i) by {
                lemma_halved(g, nodes, rank, a as int, i);
            }
            lemma_halved(g, nodes, rank, a as int, 0);
            assert forall|i: int| 0 <= i < nodes.len() implies #[trigger] self.root_of(i) == old(
                self,
            ).root_of(i) by {
                lemma_halved(g, nodes, rank, a as int, i);
            }
            assert forall|i: int| 0 <= i < nodes.len() implies #[trigger] self.pot_of(i) == old(
                self,
            ).pot_of(i) by {
                lemma_halved(g, nodes, rank, a as int, i);
            }
            assert forall|r: int| #[trigger] self.members(r) == old(self).members(r) by {
                lemma_halved_members(g, nodes, rank, a as int, nodes.len() as int, r);
            }
            assert forall|r: int|
                members_in(self.0@, rank, nodes.len() as int, r) == members_in(
                    nodes,
                    rank,
                    nodes.len() as int,
                    r,
                ) by {
                lemma_halved_members(g, nodes, rank, a as int, nodes.len() as int, r);
            }
            assert forall|r: int| 0 <= r < nodes.len()
                implies (#[trigger] self.0@[r] matches Node::Root(
                s,
                _,
            ) ==> s == members_in(self.0@, rank, nodes.len() as int, r)) by {
                if r != a {
                    assert(self.0@[r] == nodes[r]);
                }
            }
            assert forall|r: int| 0 <= r < nodes.len() implies #[trigger] self.consistent(r) == old(
                self,
            ).consistent(r) by {
                if r != a {
                    assert(self.0@[r] == nodes[r]);
                }
            }
        }
    }

    /// The root of `a`, the size of its set and whether it is consistent.
    /// The way from `a` to the root is halved.
    fn find_internal(&mut self, a: usize) -> (r: (usize, usize, bool))
        requires
            old(self).wf(),
            a < old(self).spec_len(),
        ensures
            final(self).wf(),
            final(self).same_as(old(self)),
            r.0 == old(self).root_of(a as int),
            r.1 == old(self).members(r.0 as int),
            r.2 == old(self).consistent(r.0 as int),
    {
        let mut at = a;
        loop
            invariant
                self.wf(),
                self.same_as(old(self)),
                at < self.0@.len(),
                self.root_of(at as int) == old(self).root_of(a as int),
            decreases self.2@[at as int],
        {
            let ghost held = *self;
            let (c, nf) = match &self.0[at] {
                Node::Root(s, v) => {
                    proof {
                        assert(self.members(at as int) == old(self).members(at as int));
                        assert(self.consistent(at as int) == old(self).consistent(at as int));
                    }
                    return (at, *s, *v);
                },
                Node::NotRoot(b, f) => {
                    proof {
                        assert(leads_on(self.0@, self.2@, at as int));
                    }
                    match &self.0[*b] {
                        Node::Root(s, v) => {
                            proof {
                                assert(!leads_on(self.0@, self.2@, *b as int));
                                assert(root_in(self.0@, self.2@, at as int) == root_in(
                                    self.0@,
                                    self.2@,
                                    *b as int,
                                ));
                                assert(root_in(self.0@, self.2@, *b as int) == *b);
                                assert(self.members(*b as int) == old(self).members(*b as int));
                                assert(self.consistent(*b as int) == old(self).consistent(
                                    *b as int,
                                ));
                            }
                            return (*b, *s, *v);
                        },
                        Node::NotRoot(c, g) => {
                            proof {
                                assert(leads_on(self.0@, self.2@, *b as int));
                            }
                            (*c, self.1.op(f, g))
                        },
                    }
                },
            };
            proof {
                assert(self.root_of(at as int) == self.root_of(parent_of(self.0@, at as int)));
                assert(self.root_of(parent_of(self.0@, at as int)) == self.root_of(c as int));
            }
            self.halve(at, c, nf);
            proof {
                assert(self.root_of(c as int) == held.root_of(c as int));
            }
            at = c;
        }
    }

    /// The root of `a`, the size of its set, and the difference of `a` to
    /// the root where the set is consistent. The way from `a` to the root is
    /// halved.
    fn diff_internal(&mut self, a: usize) -> (r: (usize, usize, Option<G::T>))
        requires
            old(self).wf(),
            a < old(self).spec_len(),
        ensures
            final(self).wf(),
            final(self).same_as(old(self)),
            r.0 == old(self).root_of(a as int),
            r.1 == old(self).members(r.0 as int),
            r.2 == if old(self).consistent(r.0 as int) {
                Some(old(self).pot_of(a as int))
            } else {
                None
            },
    {
        let mut h = self.1.e();
        let mut at = a;
        proof {
            self.1.identity(self.pot_of(a as int));
        }
        loop
            invariant
                self.wf(),
                self.same_as(old(self)),
                at < self.0@.len(),
                self.root_of(at as int) == old(self).root_of(a as int),
                self.1.op_spec(h, self.pot_of(at as int)) == old(self).pot_of(a as int),
            decreases self.2@[at as int],
        {
            let ghost held = *self;
            let ghost g = &self.1;
            let (c, nf) = match &self.0[at] {
                Node::Root(s, v) => {
                    proof {
                        g.identity(h);
                        assert(self.members(at as int) == old(self).members(at as int));
                        assert(self.consistent(at as int) == old(self).consistent(at as int));
                    }
                    return (
                        at,
                        *s,
                        if *v {
                            Some(h)
                        } else {
                            None
                        },
                    );
                },
                Node::NotRoot(b, f) => {
                    proof {
                        assert(leads_on(self.0@, self.2@, at as int));
                    }
                    match &self.0[*b] {
                        Node::Root(s, v) => {
                            proof {
                                assert(!leads_on(self.0@, self.2@, *b as int));
                                g.identity(*f);
                                assert(root_in(self.0@, self.2@, at as int) == root_in(
                                    self.0@,
                                    self.2@,
                                    *b as int,
                                ));
                                assert(root_in(self.0@, self.2@, *b as int) == *b);
                                assert(pot_in(g, self.0@, self.2@, *b as int) == g.e_spec());
                                assert(pot_in(g, self.0@, self.2@, at as int) == g.op_spec(
                                    *f,
                                    g.e_spec(),
                                ));
                                assert(self.members(*b as int) == old(self).members(*b as int));
                                assert(self.consistent(*b as int) == old(self).consistent(
                                    *b as int,
                                ));
                            }
                            return (
                                *b,
                                *s,
                                if *v {
                                    Some(self.1.op(&h, f))
                                } else {
                                    None
                                },
                            );
                        },
                        Node::NotRoot(c, w) => {
                            proof {
                                assert(leads_on(self.0@, self.2@, *b as int));
                                let pc = pot_in(g, self.0@, self.2@, *c as int);
                                // h (f (w pc)) == (h (f w)) pc
                                g.associative(*f, *w, pc);
                                g.associative(h, g.op_spec(*f, *w), pc);
                                assert(pot_in(g, self.0@, self.2@, *b as int) == g.op_spec(
                                    *w,
                                    pc,
                                ));
                                assert(pot_in(g, self.0@, self.2@, at as int) == g.op_spec(
                                    *f,
                                    pot_in(g, self.0@, self.2@, *b as int),
                                ));
                                assert(g.op_spec(g.op_spec(h, g.op_spec(*f, *w)), pc) == old(
                                    self,
                                ).pot_of(a as int));
                            }
                            (*c, self.1.op(f, w))
                        },
                    }
                },
            };
            proof {
                assert(self.root_of(at as int) == self.root_of(parent_of(self.0@, at as int)));
                assert(self.root_of(parent_of(self.0@, at as int)) == self.root_of(c as int));
            }
            h = self.1.op(&h, &nf);
            self.halve(at, c, nf);
            proof {
                assert(self.root_of(c as int) == held.root_of(c as int));
                assert(self.pot_of(c as int) == held.pot_of(c as int));
            }
            at = c;
        }
    }

    /// What is known of `a` and `b`. The ways from `a` and `b` to their
    /// roots are halved.
    pub fn diff(&mut self, a: usize, b: usize) -> (r: Diff<G::T>)
        requires
            old(self).wf(),
            a < old(self).spec_len(),
            b < old(self).spec_len(),
        ensures
            final(self).wf(),
            final(self).same_as(old(self)),
            r == old(self).diff_spec(a as int, b as int),
    {
        let (ra, _, ah) = self.diff_internal(a);
        let ghost mid = *self;
        let (rb, _, bh) = self.diff_internal(b);
        proof {
            assert(mid.root_of(b as int) == old(self).root_of(b as int));
            assert(mid.pot_of(b as int) == old(self).pot_of(b as int));
            old(self).lemma_root_of(b as int);
            assert(mid.consistent(rb as int) == old(self).consistent(rb as int));
            Self::lemma_same_as_trans(self, &mid, old(self));
        }
        if ra != rb {
            Diff::Unconnected
        } else {
            match (ah, bh) {
                (Some(ah), Some(bh)) => Diff::Connected(self.1.opinv(&ah, &bh)),
                _ => Diff::Invaild,
            }
        }
    }

    proof fn lemma_same_as_trans(a: &Self, b: &Self, c: &Self)
        requires
            a.same_as(b),
            b.same_as(c),
        ensures
            a.same_as(c),
    {
        assert forall|i: int| 0 <= i < a.spec_len() implies #[trigger] a.root_of(i) == c.root_of(
            i,
        ) by {
            assert(a.root_of(i) == b.root_of(i));
            assert(b.root_of(i) == c.root_of(i));
        }
        assert forall|i: int| 0 <= i < a.spec_len() implies #[trigger] a.pot_of(i) == c.pot_of(
            i,
        ) by {
            assert(a.pot_of(i) == b.pot_of(i));
            assert(b.pot_of(i) == c.pot_of(i));
        }
        assert forall|r: int| 0 <= r < a.spec_len() implies #[trigger] a.consistent(r)
            == c.consistent(r) by {
            assert(a.consistent(r) == b.consistent(r));
            assert(b.consistent(r) == c.consistent(r));
        }
        assert forall|r: int| #[trigger] a.members(r) == c.members(r) by {
            assert(a.members(r) == b.members(r));
            assert(b.members(r) == c.members(r));
        }
    }

    /// The root of the set of `a`. The way from `a` to the root is halved.
    pub fn find(&mut self, a: usize) -> (r: usize)
        requires
            old(self).wf(),
            a < old(self).spec_len(),
        ensures
            final(self).wf(),
            final(self).same_as(old(self)),
            r == old(self).root_of(a as int),
    {
        self.find_internal(a).0
    }

    /// Number of elements in the set of `a`. The way from `a` to the root
    /// is halved.
    pub fn size(&mut self, a: usize) -> (r: usize)
        requires
            old(self).wf(),
            a < old(self).spec_len(),
        ensures
            final(self).wf(),
            final(self).same_as(old(self)),
            r == old(self).members(old(self).root_of(a as int)),
    {
        self.find_internal(a).1
    }
}

/// Changing what a root keeps changes no root and no difference.
proof fn lemma_reflag<G: Group>(
    g: &G,
    nodes: Seq<Node<G>>,
    rank: Seq<nat>,
    r: int,
    size: usize,
    valid: bool,
    i: int,
)
    requires
        links_ok(nodes, rank),
        0 <= r < nodes.len(),
        nodes[r] is Root,
        0 <= i < nodes.len(),
    ensures
        links_ok(nodes.update(r, Node::Root(size, valid)), rank),
        root_in(nodes.update(r, Node::Root(size, valid)), rank, i) == root_in(nodes, rank, i),
        pot_in(g, nodes.update(r, Node::Root(size, valid)), rank, i) == pot_in(g, nodes, rank, i),
    decreases rank[i],
{
    let after = nodes.update(r, Node::<G>::Root(size, valid));
    assert forall|j: int| 0 <= j < after.len() && #[trigger] after[j] is NotRoot implies leads_on(
        after,
        rank,
        j,
    ) by {
        assert(after[j] == nodes[j]);
        assert(leads_on(nodes, rank, j));
    }
    if leads_on(nodes, rank, i) {
        assert(after[i] == nodes[i]);
        assert(leads_on(after, rank, i));
        lemma_reflag(g, nodes, rank, r, size, valid, parent_of(nodes, i));
    } else {
        assert(!leads_on(after, rank, i));
    }
}

proof fn lemma_reflag_members<G: Group>(
    g: &G,
    nodes: Seq<Node<G>>,
    rank: Seq<nat>,
    r: int,
    size: usize,
    valid: bool,
    upto: int,
    x: int,
)
    requires
        links_ok(nodes, rank),
        0 <= r < nodes.len(),
        nodes[r] is Root,
        0 <= upto <= nodes.len(),
    ensures
        members_in(nodes.update(r, Node::Root(size, valid)), rank, upto, x) == members_in(
            nodes,
            rank,
            upto,
            x,
        ),
    decreases upto,
{
    if upto > 0 {
        lemma_reflag_members(g, nodes, rank, r, size, valid, upto - 1, x);
        lemma_reflag(g, nodes, rank, r, size, valid, upto - 1);
    }
}

/// With the link `inv(d y) x` from the root of `b` to the root of `a`, where
/// `x` and `y` were the differences of `a` and `b` to their roots, the
/// difference of `a` and `b` is `d`.
proof fn lemma_link_left<G: Group>(g: &G, d: G::T, x: G::T, y: G::T)
    ensures
        g.op_spec(
            x,
            g.inv_spec(g.op_spec(y, g.op_spec(g.inv_spec(g.op_spec(d, y)), x))),
        ) == d,
{
    let dy = g.op_spec(d, y);
    let k = g.op_spec(g.inv_spec(dy), x);
    // y k == inv(d) x
    lemma_inverse_of_product(g, d, y);
    g.associative(g.inv_spec(y), g.inv_spec(d), x);
    g.associative(y, g.inv_spec(y), g.op_spec(g.inv_spec(d), x));
    lemma_inverse(g, y);
    g.identity(g.op_spec(g.inv_spec(d), x));
    let yk = g.op_spec(y, k);
    assert(yk == g.op_spec(g.inv_spec(d), x));
    // x inv(inv(d) x) == x (inv(x) d) == d
    lemma_inverse_of_product(g, g.inv_spec(d), x);
    lemma_inverse_twice(g, d);
    g.associative(x, g.inv_spec(x), d);
    lemma_inverse(g, x);
    g.identity(d);
}

/// With the link `(inv(x) d) y` from the root of `a` to the root of `b`,
/// the difference of `a` and `b` is `d`.
proof fn lemma_link_right<G: Group>(g: &G, d: G::T, x: G::T, y: G::T)
    ensures
        g.op_spec(
            g.op_spec(x, g.op_spec(g.op_spec(g.inv_spec(x), d), y)),
            g.inv_spec(y),
        ) == d,
{
    // x ((inv(x) d) y) == (x (inv(x) d)) y == d y
    g.associative(x, g.op_spec(g.inv_spec(x), d), y);
    g.associative(x, g.inv_spec(x), d);
    lemma_inverse(g, x);
    g.identity(d);
    g.cancels(y, d);
}

impl<G: Group> WeightedUnionFind<G> {
    /// What `after` holds where the sets of `a` and `b`, which were two in
    /// `self`, became one in it: the smaller set, or that of `a` if they
    /// were equal in size, came under the root of the other, and each of its
    /// elements has the difference of its old root to the new one behind
    /// its own.
    pub open spec fn joined(&self, after: &Self, a: int, b: int) -> bool {
        let ra = self.root_of(a);
        let rb = self.root_of(b);
        let keep = if self.members(ra) > self.members(rb) {
            ra
        } else {
            rb
        };
        let moved = if self.members(ra) > self.members(rb) {
            rb
        } else {
            ra
        };
        &&& forall|i: int|
            0 <= i < self.spec_len() ==> #[trigger] after.root_of(i) == if self.root_of(i)
                == moved {
                keep
            } else {
                self.root_of(i)
            }
        &&& forall|i: int|
            0 <= i < self.spec_len() ==> #[trigger] after.pot_of(i) == if self.root_of(i)
                == moved {
                self.group().op_spec(self.pot_of(i), after.pot_of(moved))
            } else {
                self.pot_of(i)
            }
        &&& forall|r: int| #[trigger]
            after.members(r) == if r == keep {
                self.members(ra) + self.members(rb)
            } else if r == moved {
                0
            } else {
                self.members(r)
            }
        &&& forall|r: int|
            0 <= r < self.spec_len() && r != moved ==> #[trigger] after.consistent(r) == if r
                == keep {
                self.consistent(ra) && self.consistent(rb)
            } else {
                self.consistent(r)
            }
    }

    /// Takes note that the difference of `a` and `b` is `diff`. Where they
    /// were in two sets, the two become one. Where they were in one set
    /// and had another difference, the set is no longer consistent.
    pub fn union(&mut self, a: usize, b: usize, diff: &G::T) where G::T: PartialEq
        requires
            old(self).wf(),
            a < old(self).spec_len(),
            b < old(self).spec_len(),
            G::T::obeys_eq_spec(),
            forall|x: G::T, y: G::T| #[trigger] x.eq_spec(&y) <==> (x == y),
        ensures
            final(self).wf(),
            final(self).spec_len() == old(self).spec_len(),
            final(self).group() == old(self).group(),
            old(self).root_of(a as int) != old(self).root_of(b as int) ==> {
                &&& old(self).joined(final(self), a as int, b as int)
                &&& old(self).consistent(old(self).root_of(a as int)) && old(self).consistent(
                    old(self).root_of(b as int),
                ) ==> final(self).diff_of(a as int, b as int) == *diff
            },
            old(self).root_of(a as int) == old(self).root_of(b as int) ==> {
                &&& forall|i: int|
                    0 <= i < old(self).spec_len() ==> #[trigger] final(self).root_of(i) == old(
                        self,
                    ).root_of(i)
                &&& forall|i: int|
                    0 <= i < old(self).spec_len() ==> #[trigger] final(self).pot_of(i) == old(
                        self,
                    ).pot_of(i)
                &&& forall|r: int| #[trigger] final(self).members(r) == old(self).members(r)
                &&& forall|r: int|
                    0 <= r < old(self).spec_len() ==> #[trigger] final(self).consistent(r) == (old(
                        self,
                    ).consistent(r) && (r == old(self).root_of(a as int) ==> old(self).diff_of(
                        a as int,
                        b as int,
                    ) == *diff))
            },
    {
        let (ra, a_size, ah) = self.diff_internal(a);
        let ghost mid = *self;
        let (rb, b_size, bh) = self.diff_internal(b);
        let ghost held = *self;
        let ghost nodes = self.0@;
        let ghost rank = self.2@;
        let n = self.0.len();
        proof {
            assert(mid.root_of(b as int) == old(self).root_of(b as int));
            assert(mid.pot_of(b as int) == old(self).pot_of(b as int));
            old(self).lemma_root_of(a as int);
            old(self).lemma_root_of(b as int);
            assert(mid.consistent(rb as int) == old(self).consistent(rb as int));
            assert(mid.members(rb as int) == old(self).members(rb as int));
            Self::lemma_same_as_trans(self, &mid, old(self));
            assert(held.root_of(ra as int) == old(self).root_of(ra as int));
            assert(held.root_of(rb as int) == old(self).root_of(rb as int));
            lemma_root(nodes, rank, ra as int);
            lemma_root(nodes, rank, rb as int);
            assert(held.consistent(ra as int) == old(self).consistent(ra as int));
            assert(held.consistent(rb as int) == old(self).consistent(rb as int));
        }
        let g = &self.1;
        if ra == rb {
            match (ah, bh) {
                (Some(ah), Some(bh)) => {
                    let known = g.opinv(&ah, &bh);
                    if !(known == *diff) {
                        self.0.set(ra, Node::Root(a_size, false));
                        proof {
                            self.lemma_reflagged(&held, ra as int, a_size, false);
                        }
                    }
                },
                _ => {},
            }
            proof {
                assert forall|i: int| 0 <= i < n implies #[trigger] self.root_of(i) == old(
                    self,
                ).root_of(i) by {
                    assert(held.root_of(i) == old(self).root_of(i));
                }
                assert forall|i: int| 0 <= i < n implies #[trigger] self.pot_of(i) == old(
                    self,
                ).pot_of(i) by {
                    assert(held.pot_of(i) == old(self).pot_of(i));
                }
                assert forall|r: int| #[trigger] self.members(r) == old(self).members(r) by {
                    assert(held.members(r) == old(self).members(r));
                }
                assert forall|r: int| 0 <= r < n implies #[trigger] self.consistent(r) == (old(
                    self,
                ).consistent(r) && (r == old(self).root_of(a as int) ==> old(self).diff_of(
                    a as int,
                    b as int,
                ) == *diff)) by {
                    assert(held.consistent(r) == old(self).consistent(r));
                }
            }
            return ;
        }
        proof {
            lemma_members_two(nodes, rank, n as int, ra as int, rb as int);
            assert(held.members(ra as int) == old(self).members(ra as int));
            assert(held.members(rb as int) == old(self).members(rb as int));
        }
        let size = a_size + b_size;
        let both = ah.is_some() && bh.is_some();
        if a_size > b_size {
            let k = match (ah, bh) {
                (Some(ah), Some(bh)) => {
                    proof {
                        lemma_link_left(g, *diff, ah, bh);
                    }
                    g.invop(&g.op(diff, &bh), &ah)
                },
                _ => g.e(),
            };
            self.0.set(ra, Node::Root(size, both));
            self.0.set(rb, Node::NotRoot(ra, k));
            self.2 = Ghost(raised(nodes, rank, ra as int, rb as int));
            proof {
                self.lemma_joined(&held, ra as int, rb as int, size, both, k);
                Self::lemma_joined_from(old(self), &held, self, a as int, b as int);
            }
        } else {
            let k = match (ah, bh) {
                (Some(ah), Some(bh)) => {
                    proof {
                        lemma_link_right(g, *diff, ah, bh);
                    }
                    g.op(&g.invop(&ah, diff), &bh)
                },
                _ => g.e(),
            };
            self.0.set(rb, Node::Root(size, both));
            self.0.set(ra, Node::NotRoot(rb, k));
            self.2 = Ghost(raised(nodes, rank, rb as int, ra as int));
            proof {
                self.lemma_joined(&held, rb as int, ra as int, size, both, k);
                Self::lemma_joined_from(old(self), &held, self, a as int, b as int);
            }
        }
    }

    /// What a set looks like after its root was given another size or flag.
    proof fn lemma_reflagged(&self, before: &Self, r: int, size: usize, valid: bool)
        requires
            before.wf(),
            0 <= r < before.spec_len(),
            before.0@[r] matches Node::Root(s, _) && s == size,
            self.0@ == before.0@.update(r, Node::Root(size, valid)),
            self.1 == before.1,
            self.2 == before.2,
        ensures
            self.wf(),
            self.spec_len() == before.spec_len(),
            forall|i: int|
                0 <= i < before.spec_len() ==> #[trigger] self.root_of(i) == before.root_of(i),
            forall|i: int|
                0 <= i < before.spec_len() ==> #[trigger] self.pot_of(i) == before.pot_of(i),
            forall|x: int| #[trigger] self.members(x) == before.members(x),
            forall|x: int|
                0 <= x < before.spec_len() ==> #[trigger] self.consistent(x) == if x == r {
                    valid
                } else {
                    before.consistent(x)
                },
    {
        let g = &self.1;
        let nodes = before.0@;
        let rank = before.2@;
        lemma_reflag(g, nodes, rank, r, size, valid, 0);
        assert forall|i: int| 0 <= i < nodes.len() implies #[trigger] self.root_of(i)
            == before.root_of(i) by {
            lemma_reflag(g, nodes, rank, r, size, valid, i);
        }
        assert forall|i: int| 0 <= i < nodes.len() implies #[trigger] self.pot_of(i)
            == before.pot_of(i) by {
            lemma_reflag(g, nodes, rank, r, size, valid, i);
        }
        assert forall|x: int| #[trigger] self.members(x) == before.members(x) by {
            lemma_reflag_members(g, nodes, rank, r, size, valid, nodes.len() as int, x);
        }
        assert forall|x: int| 0 <= x < nodes.len()
            implies (#[trigger] self.0@[x] matches Node::Root(
            s,
            _,
        ) ==> s == members_in(self.0@, rank, nodes.len() as int, x)) by {
            assert(self.members(x) == before.members(x));
            if x != r {
                assert(self.0@[x] == nodes[x]);
            }
        }
    }

    /// What the sets look like after the root `moved` was linked to `keep`.
    proof fn lemma_joined(
        &self,
        before: &Self,
        keep: int,
        moved: int,
        size: usize,
        valid: bool,
        k: G::T,
    )
        requires
            before.wf(),
            before.spec_len() <= usize::MAX,
            0 <= keep < before.spec_len(),
            0 <= moved < before.spec_len(),
            keep != moved,
            before.0@[keep] is Root,
            before.0@[moved] is Root,
            size == before.members(keep) + before.members(moved),
            self.0@ == linked(before.0@, keep, moved, size, valid, k),
            self.1 == before.1,
            self.2@ == raised(before.0@, before.2@, keep, moved),
        ensures
            self.wf(),
            self.spec_len() == before.spec_len(),
            forall|i: int|
                0 <= i < before.spec_len() ==> #[trigger] self.root_of(i) == if before.root_of(i)
                    == moved {
                    keep
                } else {
                    before.root_of(i)
                },
            forall|i: int|
                0 <= i < before.spec_len() ==> #[trigger] self.pot_of(i) == if before.root_of(i)
                    == moved {
                    before.1.op_spec(before.pot_of(i), k)
                } else {
                    before.pot_of(i)
                },
            self.pot_of(moved) == k,
            forall|r: int| #[trigger]
                self.members(r) == if r == keep {
                    before.members(keep) + before.members(moved)
                } else if r == moved {
                    0
                } else {
                    before.members(r)
                },
            forall|r: int|
                0 <= r < before.spec_len() && r != moved ==> #[trigger] self.consistent(r) == if r
                    == keep {
                    valid
                } else {
                    before.consistent(r)
                },
    {
        let g = &self.1;
        let nodes = before.0@;
        let rank = before.2@;
        lemma_linked(g, nodes, rank, keep, moved, size, valid, k, 0);
        assert forall|i: int| 0 <= i < nodes.len()
            implies #[trigger] self.root_of(i) == if before.root_of(
            i,
        ) == moved {
            keep
        } else {
            before.root_of(i)
        } by {
            lemma_linked(g, nodes, rank, keep, moved, size, valid, k, i);
        }
        assert forall|i: int| 0 <= i < nodes.len()
            implies #[trigger] self.pot_of(i) == if before.root_of(
            i,
        ) == moved {
            before.1.op_spec(before.pot_of(i), k)
        } else {
            before.pot_of(i)
        } by {
            lemma_linked(g, nodes, rank, keep, moved, size, valid, k, i);
        }
        lemma_linked(g, nodes, rank, keep, moved, size, valid, k, moved);
        assert(root_in(nodes, rank, moved) == moved);
        assert(pot_in(g, nodes, rank, moved) == g.e_spec());
        g.identity(k);
        assert forall|r: int| #[trigger]
            self.members(r) == if r == keep {
                before.members(keep) + before.members(moved)
            } else if r == moved {
                0
            } else {
                before.members(r)
            } by {
            lemma_linked_members(g, nodes, rank, keep, moved, size, valid, k, nodes.len() as int,
                r);
        }
        assert forall|x: int| 0 <= x < nodes.len()
            implies (#[trigger] self.0@[x] matches Node::Root(
            s,
            _,
        ) ==> s == members_in(self.0@, self.2@, nodes.len() as int, x)) by {
            assert(self.members(x) == if x == keep {
                before.members(keep) + before.members(moved)
            } else if x == moved {
                0
            } else {
                before.members(x)
            });
            if x != keep && x != moved {
                assert(self.0@[x] == nodes[x]);
            }
        }
    }

    /// `joined` holds from `start` if it holds from `held`, which holds the
    /// same as `start`.
    proof fn lemma_joined_from(start: &Self, held: &Self, after: &Self, a: int, b: int)
        requires
            start.wf(),
            held.same_as(start),
            0 <= a < start.spec_len(),
            0 <= b < start.spec_len(),
            start.root_of(a) != start.root_of(b),
            after.spec_len() == held.spec_len(),
            ({
                let ra = held.root_of(a);
                let rb = held.root_of(b);
                let keep = if held.members(ra) > held.members(rb) {
                    ra
                } else {
                    rb
                };
                let moved = if held.members(ra) > held.members(rb) {
                    rb
                } else {
                    ra
                };
                let valid = held.consistent(ra) && held.consistent(rb);
                &&& forall|i: int|
                    0 <= i < held.spec_len() ==> #[trigger] after.root_of(i) == if held.root_of(i)
                        == moved {
                        keep
                    } else {
                        held.root_of(i)
                    }
                &&& forall|i: int|
                    0 <= i < held.spec_len() ==> #[trigger] after.pot_of(i) == if held.root_of(i)
                        == moved {
                        held.1.op_spec(held.pot_of(i), after.pot_of(moved))
                    } else {
                        held.pot_of(i)
                    }
                &&& forall|r: int| #[trigger]
                    after.members(r) == if r == keep {
                        held.members(keep) + held.members(moved)
                    } else if r == moved {
                        0
                    } else {
                        held.members(r)
                    }
                &&& forall|r: int|
                    0 <= r < held.spec_len() && r != moved
                        ==> #[trigger] after.consistent(r) == if r
                        == keep {
                        valid
                    } else {
                        held.consistent(r)
                    }
            }),
        ensures
            start.joined(after, a, b),
    {
        start.lemma_root_of(a);
        start.lemma_root_of(b);
        let ra = start.root_of(a);
        let rb = start.root_of(b);
        assert(held.root_of(a) == ra);
        assert(held.root_of(b) == rb);
        assert(held.members(ra) == start.members(ra));
        assert(held.members(rb) == start.members(rb));
        assert(held.consistent(ra) == start.consistent(ra));
        assert(held.consistent(rb) == start.consistent(rb));
        let keep = if start.members(ra) > start.members(rb) {
            ra
        } else {
            rb
        };
        let moved = if start.members(ra) > start.members(rb) {
            rb
        } else {
            ra
        };
        assert forall|i: int| 0 <= i < start.spec_len() implies #[trigger] after.root_of(i)
            == if start.root_of(i) == moved {
            keep
        } else {
            start.root_of(i)
        } by {
            assert(held.root_of(i) == start.root_of(i));
        }
        assert forall|i: int| 0 <= i < start.spec_len() implies #[trigger] after.pot_of(i)
            == if start.root_of(i) == moved {
            start.group().op_spec(start.pot_of(i), after.pot_of(moved))
        } else {
            start.pot_of(i)
        } by {
            assert(held.root_of(i) == start.root_of(i));
            assert(held.pot_of(i) == start.pot_of(i));
        }
        assert forall|r: int| #[trigger]
            after.members(r) == if r == keep {
                start.members(ra) + start.members(rb)
            } else if r == moved {
                0
            } else {
                start.members(r)
            } by {
            assert(held.members(r) == start.members(r));
        }
        assert forall|r: int| 0 <= r < start.spec_len() && r != moved
            implies #[trigger] after.consistent(
            r,
        ) == if r == keep {
            start.consistent(ra) && start.consistent(rb)
        } else {
            start.consistent(r)
        } by {
            assert(held.consistent(r) == start.consistent(r));
        }
    }
}

} // verus!
