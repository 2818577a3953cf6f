//! Disjoint sets that remember their past: a reference that is taken at
//! some moment goes on telling the sets as they were at that moment.

use vstd::prelude::*;

verus! {

/// A root with the size of its set, or a link to another element with the
/// time at which the link was made.
#[derive(Clone, Copy)]
pub enum Node {
    Root(usize),
    Sub(usize, usize),
}

/// Whether `i` has a link that is seen at the moment `time`, for having
/// been made before it, and leads on: to an element of lower rank.
pub open spec fn leads_on(nodes: Seq<Node>, rank: Seq<nat>, time: int, i: int) -> bool {
    &&& 0 <= i < nodes.len()
    &&& nodes[i] matches Node::Sub(t, p)
    &&& t < time
    &&& p < nodes.len()
    &&& rank[p as int] < rank[i]
}

/// Where the link of `i` leads.
pub open spec fn parent_of(nodes: Seq<Node>, i: int) -> int {
    match nodes[i] {
        Node::Sub(_, p) => p as int,
        Node::Root(_) => i,
    }
}

/// Every link was made at `now` or before and leads to an element of
/// lower rank.
pub open spec fn links_ok(nodes: Seq<Node>, rank: Seq<nat>, now: int) -> bool {
    &&& rank.len() == nodes.len()
    &&& forall|i: int|
        0 <= i < nodes.len() ==> (#[trigger] nodes[i] matches Node::Sub(t, p) ==> {
            &&& t <= now
            &&& p < nodes.len()
            &&& rank[p as int] < rank[i]
        })
}

/// The root that the links made before `time` lead to from `i`.
pub open spec fn root_at(nodes: Seq<Node>, rank: Seq<nat>, time: int, i: int) -> int
    decreases rank[i],
{
    if leads_on(nodes, rank, time, i) {
        root_at(nodes, rank, time, parent_of(nodes, i))
    } else {
        i
    }
}

/// How many of the first `k` elements have the root `r` by the links made
/// before `time`.
pub open spec fn members_at(nodes: Seq<Node>, rank: Seq<nat>, time: int, k: int, r: int) -> nat
    decreases k,
{
    if k <= 0 {
        0
    } else {
        members_at(nodes, rank, time, k - 1, r) + if root_at(nodes, rank, time, k - 1) == r {
            1nat
        } else {
            0nat
        }
    }
}

/// Every root keeps the number of elements that lead to it.
pub open spec fn sizes_ok(nodes: Seq<Node>, rank: Seq<nat>, now: int) -> bool {
    forall|r: int|
        0 <= r < nodes.len() ==> (#[trigger] nodes[r] matches Node::Root(s) ==> s == members_at(
            nodes,
            rank,
            now,
            nodes.len() as int,
            r,
        ))
}

proof fn lemma_root(nodes: Seq<Node>, rank: Seq<nat>, now: int, i: int)
    requires
        links_ok(nodes, rank, now),
        0 <= i < nodes.len(),
    ensures
        0 <= root_at(nodes, rank, now + 1, i) < nodes.len(),
        nodes[root_at(nodes, rank, now + 1, i)] is Root,
        root_at(nodes, rank, now + 1, root_at(nodes, rank, now + 1, i)) == root_at(
            nodes,
            rank,
            now + 1,
            i,
        ),
    decreases rank[i],
{
    if leads_on(nodes, rank, now + 1, i) {
        lemma_root(nodes, rank, now, parent_of(nodes, i));
    }
}

proof fn lemma_members_two(nodes: Seq<Node>, rank: Seq<nat>, time: int, k: int, a: int, b: int)
    requires
        0 <= k,
        a != b,
    ensures
        members_at(nodes, rank, time, k, a) + members_at(nodes, rank, time, k, b) <= k,
    decreases k,
{
    if k > 0 {
        lemma_members_two(nodes, rank, time, k - 1, a, b);
    }
}

proof fn lemma_members_one(nodes: Seq<Node>, rank: Seq<nat>, time: int, k: int, i: int)
    requires
        0 <= i < k,
    ensures
        members_at(nodes, rank, time, k, root_at(nodes, rank, time, i)) >= 1,
    decreases k,
{
    if k - 1 > i {
        lemma_members_one(nodes, rank, time, k - 1, i);
    }
}

/// The links after the root `moved` was linked to the root `keep` at the
/// moment `at`.
pub open spec fn linked(nodes: Seq<Node>, keep: int, moved: int, size: usize, at: usize) -> Seq<
    Node,
> {
    nodes.update(keep, Node::Root(size)).update(moved, Node::Sub(at, keep as usize))
}

/// The ranks after the set of `moved` came under `keep`: its elements rise
/// above `keep`.
pub open spec fn raised(nodes: Seq<Node>, rank: Seq<nat>, now: int, keep: int, moved: int) -> Seq<
    nat,
> {
    Seq::new(
        rank.len(),
        |x: int|
            if root_at(nodes, rank, now + 1, x) == moved {
                rank[x] + rank[keep] + 1
            } else {
                rank[x]
            },
    )
}

/// A link that is made now is not seen at this moment or before, and
/// brings the set of `moved` under `keep` for whoever looks later.
proof fn lemma_linked(
    nodes: Seq<Node>,
    rank: Seq<nat>,
    now: int,
    keep: int,
    moved: int,
    size: usize,
    time: int,
    i: int,
)
    requires
        links_ok(nodes, rank, now),
        nodes.len() <= usize::MAX,
        0 <= now <= usize::MAX,
        0 <= keep < nodes.len(),
        0 <= moved < nodes.len(),
        keep != moved,
        nodes[keep] is Root,
        nodes[moved] is Root,
        0 <= i < nodes.len(),
        time <= now + 1,
    ensures
        links_ok(
            linked(nodes, keep, moved, size, now as usize),
            raised(nodes, rank, now, keep, moved),
            now,
        ),
        root_at(
            linked(nodes, keep, moved, size, now as usize),
            raised(nodes, rank, now, keep, moved),
            time,
            i,
        ) == if time == now + 1 && root_at(nodes, rank, now + 1, i) == moved {
            keep
        } else {
            root_at(nodes, rank, time, i)
        },
    decreases rank[i],
{
    let after = linked(nodes, keep, moved, size, now as usize);
    let up = raised(nodes, rank, now, keep, moved);
    assert(!leads_on(nodes, rank, now + 1, keep));
    assert(!leads_on(nodes, rank, now + 1, moved));
    assert(root_at(nodes, rank, now + 1, keep) == keep);
    assert(root_at(nodes, rank, now + 1, moved) == moved);
    assert forall|j: int| 0 <= j < after.len() implies (#[trigger] after[j] matches Node::Sub(t, p)
        ==> {
        &&& t <= now
        &&& p < after.len()
        &&& up[p as int] < up[j]
    }) by {
        if j != moved && j != keep {
            assert(after[j] == nodes[j]);
            if nodes[j] is Sub {
                let p = parent_of(nodes, j);
                assert(leads_on(nodes, rank, now + 1, j));
                assert(root_at(nodes, rank, now + 1, j) == root_at(nodes, rank, now + 1, p));
            }
        }
    }
    if i == moved {
        assert(!leads_on(nodes, rank, time, moved));
        if time == now + 1 {
            assert(leads_on(after, up, time, moved));
            assert(parent_of(after, moved) == keep);
            assert(!leads_on(after, up, time, keep));
            assert(root_at(after, up, time, moved) == root_at(after, up, time, keep));
        } else {
            assert(!leads_on(after, up, time, moved));
        }
    } else if i == keep {
        assert(!leads_on(after, up, time, keep));
        assert(!leads_on(nodes, rank, time, keep));
    } else {
        assert(after[i] == nodes[i]);
        if leads_on(nodes, rank, time, i) {
            let p = parent_of(nodes, i);
            assert(leads_on(nodes, rank, now + 1, i));
            assert(root_at(nodes, rank, now + 1, i) == root_at(nodes, rank, now + 1, p));
            assert(leads_on(after, up, time, i));
            lemma_linked(nodes, rank, now, keep, moved, size, time, p);
        } else {
            assert(!leads_on(after, up, time, i));
            if time == now + 1 {
                assert(root_at(nodes, rank, now + 1, i) == i);
            }
        }
    }
}

proof fn lemma_linked_members(
    nodes: Seq<Node>,
    rank: Seq<nat>,
    now: int,
    keep: int,
    moved: int,
    size: usize,
    upto: int,
    r: int,
)
    requires
        links_ok(nodes, rank, now),
        nodes.len() <= usize::MAX,
        0 <= now <= usize::MAX,
        0 <= keep < nodes.len(),
        0 <= moved < nodes.len(),
        keep != moved,
        nodes[keep] is Root,
        nodes[moved] is Root,
        0 <= upto <= nodes.len(),
    ensures
        members_at(
            linked(nodes, keep, moved, size, now as usize),
            raised(nodes, rank, now, keep, moved),
            now + 1,
            upto,
            r,
        ) == if r == keep {
            members_at(nodes, rank, now + 1, upto, keep) + members_at(
                nodes,
                rank,
                now + 1,
                upto,
                moved,
            )
        } else if r == moved {
            0
        } else {
            members_at(nodes, rank, now + 1, upto, r)
        },
    decreases upto,
{
    if upto > 0 {
        lemma_linked_members(nodes, rank, now, keep, moved, size, upto - 1, r);
        lemma_linked(nodes, rank, now, keep, moved, size, now + 1, upto - 1);
    }
}

/// Where no link is made at the moments from `now + 1` on, it makes no
/// difference from which of them one looks.
proof fn lemma_later(nodes: Seq<Node>, rank: Seq<nat>, now: int, later: int, i: int)
    requires
        links_ok(nodes, rank, now),
        now < later,
        0 <= i < nodes.len(),
    ensures
        root_at(nodes, rank, later, i) == root_at(nodes, rank, now + 1, i),
    decreases rank[i],
{
    if leads_on(nodes, rank, now + 1, i) {
        assert(leads_on(nodes, rank, later, i));
        lemma_later(nodes, rank, now, later, parent_of(nodes, i));
    } else {
        assert(!leads_on(nodes, rank, later, i));
    }
}

proof fn lemma_later_members(nodes: Seq<Node>, rank: Seq<nat>, now: int, later: int, k: int, r: int)
    requires
        links_ok(nodes, rank, now),
        now < later,
        0 <= k <= nodes.len(),
    ensures
        members_at(nodes, rank, later, k, r) == members_at(nodes, rank, now + 1, k, r),
    decreases k,
{
    if k > 0 {
        lemma_later_members(nodes, rank, now, later, k - 1, r);
        lemma_later(nodes, rank, now, later, k - 1);
    }
}

proof fn lemma_fresh(nodes: Seq<Node>, rank: Seq<nat>, time: int, k: int, r: int)
    requires
        0 <= k <= nodes.len(),
        forall|i: int| 0 <= i < nodes.len() ==> #[trigger] nodes[i] is Root,
    ensures
        members_at(nodes, rank, time, k, r) == if 0 <= r < k {
            1nat
        } else {
            0nat
        },
    decreases k,
{
    if k > 0 {
        lemma_fresh(nodes, rank, time, k - 1, r);
    }
}

/// Disjoint sets over `0..len()` that grow by `union` and keep what they
/// were at every moment at which a reference was taken.
pub struct PersistentUnionFind(Vec<Node>, usize, Ghost<Seq<nat>>);

/// A moment in the life of a `PersistentUnionFind`, from which the sets
/// are seen as they were then.
#[derive(Clone, Copy)]
pub struct PersistentUFRef(usize, usize);

impl PersistentUnionFind {
    /// The links are sound and every root keeps the size of its set.
    pub closed spec fn wf(&self) -> bool {
        &&& links_ok(self.0@, self.2@, self.1 as int)
        &&& sizes_ok(self.0@, self.2@, self.1 + 1)
    }

    /// Number of elements.
    pub closed spec fn spec_len(&self) -> nat {
        self.0@.len()
    }

    /// The present moment. Links that are made now are seen from the next
    /// moment on.
    pub closed spec fn now(&self) -> int {
        self.1 as int
    }

    /// The root of the set that held `i` as seen at the moment `time`.
    pub closed spec fn root_then(&self, time: int, i: int) -> int {
        root_at(self.0@, self.2@, time, i)
    }

    /// The root of the set that holds `i`, all links counted.
    pub open spec fn root_of(&self, i: int) -> int {
        self.root_then(self.now() + 1, i)
    }

    /// Number of elements whose root is `r`.
    pub closed spec fn members(&self, r: int) -> nat {
        members_at(self.0@, self.2@, self.1 + 1, self.0@.len() as int, r)
    }

    /// The root of a set is an element and its own root, and the set has at
    /// least the element that one started from.
    pub proof fn lemma_root_of(&self, i: int)
        requires
            self.wf(),
            0 <= i < self.spec_len(),
        ensures
            0 <= self.root_of(i) < self.spec_len(),
            self.root_of(self.root_of(i)) == self.root_of(i),
            self.members(self.root_of(i)) >= 1,
    {
        lemma_root(self.0@, self.2@, self.1 as int, i);
        lemma_members_one(self.0@, self.2@, self.1 + 1, self.0@.len() as int, i);
    }

    /// `n` sets of one element each.
    pub fn new(n: usize) -> (r: Self)
        ensures
            r.wf(),
            r.spec_len() == n,
            r.now() == 1,
            forall|i: int| 0 <= i < n ==> r.root_of(i) == i,
            forall|i: int| 0 <= i < n ==> r.members(i) == 1,
    {
        let mut nodes: Vec<Node> = Vec::new();
        let mut i: usize = 0;
        while i < n
            invariant
                i <= n,
                nodes@.len() == i,
                forall|j: int| 0 <= j < i ==> #[trigger] nodes@[j] == Node::Root(1),
            decreases n - i,
        {
            nodes.push(Node::Root(1));
            i += 1;
        }
        let ghost rank = Seq::new(n as nat, |j: int| 0nat);
        proof {
            assert forall|r: int| 0 <= r < n implies members_at(nodes@, rank, 2, n as int, r)
                == 1 by {
                lemma_fresh(nodes@, rank, 2, n as int, r);
            }
        }
        PersistentUnionFind(nodes, 1, Ghost(rank))
    }

    /// Number of elements.
    pub fn len(&self) -> (r: usize)
        ensures
            r == self.spec_len(),
    {
        self.0.len()
    }

    /// The root of the set of `index`, and the size of the set.
    fn find_size(&self, index: usize) -> (r: (usize, usize))
        requires
            self.wf(),
            index < self.spec_len(),
        ensures
            r.0 == self.root_of(index as int),
            r.1 == self.members(r.0 as int),
    {
        let mut at = index;
        loop
            invariant
                self.wf(),
                at < self.0@.len(),
                root_at(self.0@, self.2@, self.1 + 1, at as int) == root_at(
                    self.0@,
                    self.2@,
                    self.1 + 1,
                    index as int,
                ),
            decreases self.2@[at as int],
        {
            match self.0[at] {
                Node::Root(s) => {
                    return (at, s);
                },
                Node::Sub(_, j) => {
                    proof {
                        assert(leads_on(self.0@, self.2@, self.1 + 1, at as int));
                    }
                    at = j;
                },
            }
        }
    }

    /// The root of the set of `index`.
    pub fn find(&self, index: usize) -> (r: usize)
        requires
            self.wf(),
            index < self.spec_len(),
        ensures
            r == self.root_of(index as int),
    {
        self.find_size(index).0
    }

    /// Number of elements in the set of `index`.
    pub fn size(&self, index: usize) -> (r: usize)
        requires
            self.wf(),
            index < self.spec_len(),
        ensures
            r == self.members(self.root_of(index as int)),
    {
        self.find_size(index).1
    }

    /// Makes one set of the sets of `a` and `b`: the smaller one, or that
    /// of `a` if they are equal in size, comes under the root of the other.
    /// What is seen from this moment or an earlier one stays as it was.
    pub fn union(&mut self, a: usize, b: usize)
        requires
            old(self).wf(),
            a < old(self).spec_len(),
            b < old(self).spec_len(),
        ensures
            final(self).wf(),
            final(self).spec_len() == old(self).spec_len(),
            final(self).now() == old(self).now(),
            forall|time: int, i: int|
                time <= old(self).now() && 0 <= i < old(self).spec_len()
                    ==> #[trigger] final(self).root_then(time, i) == old(self).root_then(time, i),
            ({
                let ra = old(self).root_of(a as int);
                let rb = old(self).root_of(b as int);
                let keep = if old(self).members(ra) > old(self).members(rb) {
                    ra
                } else {
                    rb
                };
                let moved = if old(self).members(ra) > old(self).members(rb) {
                    rb
                } else {
                    ra
                };
                &&& forall|i: int|
                    0 <= i < old(self).spec_len() ==> #[trigger] final(self).root_of(i) == if old(
                        self,
                    ).root_of(i) == moved {
                        keep
                    } else {
                        old(self).root_of(i)
                    }
                &&& forall|r: int| #[trigger]
                    final(self).members(r) == if ra == rb {
                        old(self).members(r)
                    } else if r == keep {
                        old(self).members(ra) + old(self).members(rb)
                    } else if r == moved {
                        0
                    } else {
                        old(self).members(r)
                    }
            }),
    {
        let (ra, sa) = self.find_size(a);
        let (rb, sb) = self.find_size(b);
        if ra == rb {
            return ;
        }
        let ghost nodes = self.0@;
        let ghost rank = self.2@;
        let ghost now = self.1 as int;
        let n = self.0.len();
        proof {
            lemma_root(nodes, rank, now, a as int);
            lemma_root(nodes, rank, now, b as int);
            lemma_members_two(nodes, rank, now + 1, n as int, ra as int, rb as int);
        }
        let size = sa + sb;
        let at = self.1;
        let (keep, moved) = if sa > sb {
            (ra, rb)
        } else {
            (rb, ra)
        };
        self.0.set(keep, Node::Root(size));
        self.0.set(moved, Node::Sub(at, keep));
        self.2 = Ghost(raised(nodes, rank, now, keep as int, moved as int));
        proof {
            assert(self.0@ =~= linked(nodes, keep as int, moved as int, size, at));
            lemma_linked(nodes, rank, now, keep as int, moved as int, size, 0, 0);
            assert forall|time: int, i: int| time <= now && 0 <= i < n
                implies #[trigger] self.root_then(
                time,
                i,
            ) == old(self).root_then(time, i) by {
                lemma_linked(nodes, rank, now, keep as int, moved as int, size, time, i);
            }
            assert forall|i: int| 0 <= i < n implies #[trigger] self.root_of(i) == if old(
                self,
            ).root_of(i) == moved {
                keep as int
            } else {
                old(self).root_of(i)
            } by {
                lemma_linked(nodes, rank, now, keep as int, moved as int, size, now + 1, i);
            }
            assert forall|r: int| #[trigger]
                self.members(r) == if r == keep {
                    old(self).members(ra as int) + old(self).members(rb as int)
                } else if r == moved {
                    0
                } else {
                    old(self).members(r)
                } by {
                lemma_linked_members(
                    nodes,
                    rank,
                    now,
                    keep as int,
                    moved as int,
                    size,
                    n as int,
                    r,
                );
            }
            assert forall|r: int| 0 <= r < n implies (#[trigger] self.0@[r] matches Node::Root(s)
                ==> s == members_at(self.0@, self.2@, now + 1, n as int, r)) by {
                assert(self.members(r) == if r == keep {
                    old(self).members(ra as int) + old(self).members(rb as int)
                } else if r == moved {
                    0
                } else {
                    old(self).members(r)
                });
                if r != keep && r != moved {
                    assert(self.0@[r] == nodes[r]);
                }
            }
        }
    }

    /// Moves on to the next moment, and returns a reference to it: from it,
    /// the sets are seen as they are now, whatever is joined later.
    pub fn get_ref(&mut self) -> (r: PersistentUFRef)
        requires
            old(self).wf(),
            old(self).now() < usize::MAX,
        ensures
            final(self).wf(),
            final(self).spec_len() == old(self).spec_len(),
            final(self).now() == old(self).now() + 1,
            r.time() == final(self).now(),
            r.spec_len() == final(self).spec_len(),
            forall|time: int, i: int| #[trigger]
                final(self).root_then(time, i) == old(self).root_then(time, i),
            forall|i: int|
                0 <= i < old(self).spec_len() ==> #[trigger] final(self).root_of(i) == old(
                    self,
                ).root_of(i),
            forall|i: int|
                0 <= i < old(self).spec_len() ==> #[trigger] final(self).root_then(r.time(), i)
                    == old(self).root_of(i),
            forall|x: int| #[trigger] final(self).members(x) == old(self).members(x),
    {
        let ghost nodes = self.0@;
        let ghost rank = self.2@;
        let ghost now = self.1 as int;
        let t = self.1 + 1;
        self.1 = t;
        proof {
            assert forall|i: int| 0 <= i < nodes.len() implies #[trigger] self.root_of(i) == old(
                self,
            ).root_of(i) by {
                lemma_later(nodes, rank, now, now + 2, i);
            }
            assert forall|x: int| #[trigger] self.members(x) == old(self).members(x) by {
                lemma_later_members(nodes, rank, now, now + 2, nodes.len() as int, x);
            }
            assert forall|r: int| 0 <= r < nodes.len()
                implies (#[trigger] self.0@[r] matches Node::Root(
                s,
            ) ==> s == members_at(self.0@, self.2@, now + 2, nodes.len() as int, r)) by {
                assert(self.members(r) == old(self).members(r));
            }
        }
        PersistentUFRef(self.0.len(), t)
    }
}

/// The links with the moment 1 on each of them.
pub open spec fn restarted(nodes: Seq<Node>) -> Seq<Node> {
    Seq::new(
        nodes.len(),
        |i: int|
            match nodes[i] {
                Node::Root(s) => Node::Root(s),
                Node::Sub(_, p) => Node::Sub(1, p),
            },
    )
}

proof fn lemma_restarted(nodes: Seq<Node>, rank: Seq<nat>, now: int, i: int)
    requires
        links_ok(nodes, rank, now),
        0 <= i < nodes.len(),
    ensures
        links_ok(restarted(nodes), rank, 1),
        root_at(restarted(nodes), rank, 2, i) == root_at(nodes, rank, now + 1, i),
    decreases rank[i],
{
    let fresh = restarted(nodes);
    assert forall|j: int| 0 <= j < fresh.len() implies (#[trigger] fresh[j] matches Node::Sub(t, p)
        ==> {
        &&& t <= 1
        &&& p < fresh.len()
        &&& rank[p as int] < rank[j]
    }) by {
        assert(nodes[j] is Sub ==> leads_on(nodes, rank, now + 1, j));
    }
    if leads_on(nodes, rank, now + 1, i) {
        assert(leads_on(fresh, rank, 2, i));
        lemma_restarted(nodes, rank, now, parent_of(nodes, i));
    } else {
        assert(!leads_on(fresh, rank, 2, i));
    }
}

proof fn lemma_restarted_members(nodes: Seq<Node>, rank: Seq<nat>, now: int, k: int, r: int)
    requires
        links_ok(nodes, rank, now),
        0 <= k <= nodes.len(),
    ensures
        members_at(restarted(nodes), rank, 2, k, r) == members_at(nodes, rank, now + 1, k, r),
    decreases k,
{
    if k > 0 {
        lemma_restarted_members(nodes, rank, now, k - 1, r);
        lemma_restarted(nodes, rank, now, k - 1);
    }
}

impl Clone for PersistentUnionFind {
    /// The same sets at the first moment of a life of their own: what they
    /// were earlier is not taken along.
    fn clone(&self) -> (r: Self)
        ensures
            self.wf() ==> {
                &&& r.wf()
                &&& r.spec_len() == self.spec_len()
                &&& r.now() == 1
                &&& forall|i: int|
                    0 <= i < self.spec_len() ==> #[trigger] r.root_of(i) == self.root_of(i)
                &&& forall|x: int| #[trigger] r.members(x) == self.members(x)
            },
    {
        let n = self.0.len();
        let mut nodes: Vec<Node> = Vec::new();
        let mut i: usize = 0;
        while i < n
            invariant
                i <= n,
                n == self.0@.len(),
                nodes@.len() == i,
                forall|j: int| 0 <= j < i ==> #[trigger] nodes@[j] == restarted(self.0@)[j],
            decreases n - i,
        {
            nodes.push(
                match self.0[i] {
                    Node::Root(s) => Node::Root(s),
                    Node::Sub(_, p) => Node::Sub(1, p),
                },
            );
            i += 1;
        }
        let r = PersistentUnionFind(nodes, 1, Ghost(self.2@));
        proof {
            if self.wf() {
                let old_nodes = self.0@;
                let rank = self.2@;
                let now = self.1 as int;
                assert(r.0@ =~= restarted(old_nodes));
                if n > 0 {
                    lemma_restarted(old_nodes, rank, now, 0);
                }
                assert forall|i: int| 0 <= i < n implies #[trigger] r.root_of(i) == self.root_of(
                    i,
                ) by {
                    lemma_restarted(old_nodes, rank, now, i);
                }
                assert forall|x: int| #[trigger] r.members(x) == self.members(x) by {
                    lemma_restarted_members(old_nodes, rank, now, n as int, x);
                }
                assert forall|x: int| 0 <= x < n implies (#[trigger] r.0@[x] matches Node::Root(s)
                    ==> s == members_at(r.0@, rank, 2, n as int, x)) by {
                    assert(r.members(x) == self.members(x));
                    assert(old_nodes[x] is Root ==> r.0@[x] == old_nodes[x]);
                }
            }
        }
        r
    }
}

impl PersistentUFRef {
    /// The moment of the reference.
    pub closed spec fn time(&self) -> int {
        self.1 as int
    }

    /// Number of elements.
    pub closed spec fn spec_len(&self) -> nat {
        self.0 as nat
    }

    /// Number of elements.
    pub fn len(&self) -> (r: usize)
        ensures
            r == self.spec_len(),
    {
        self.0
    }

    /// The root of the set that held `index` at the moment of the
    /// reference, in the sets `sets` of which the reference was taken.
    pub fn find(&self, sets: &PersistentUnionFind, index: usize) -> (r: usize)
        requires
            sets.wf(),
            self.spec_len() == sets.spec_len(),
            index < self.spec_len(),
        ensures
            r == sets.root_then(self.time(), index as int),
    {
        let mut at = index;
        loop
            invariant
                sets.wf(),
                at < sets.0@.len(),
                root_at(sets.0@, sets.2@, self.1 as int, at as int) == root_at(
                    sets.0@,
                    sets.2@,
                    self.1 as int,
                    index as int,
                ),
            decreases sets.2@[at as int],
        {
            match sets.0[at] {
                Node::Root(_) => {
                    return at;
                },
                Node::Sub(t, j) => {
                    if t >= self.1 {
                        return at;
                    } else {
                        proof {
                            assert(leads_on(sets.0@, sets.2@, self.1 as int, at as int));
                        }
                        at = j;
                    }
                },
            }
        }
    }
}

} // verus!
