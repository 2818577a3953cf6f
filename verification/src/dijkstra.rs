//! Shortest ways in a graph whose edges have costs that are not negative.
//!
//! A graph is a list of vertices, each with the edges that leave it: an edge
//! is the vertex it leads to and its cost. A walk from a vertex is told by
//! the edges it takes, each by its place among the edges of the vertex that
//! the walk has come to.

use crate::radixheap::{Radix, RadixHeap};
use crate::util::{HasMin, HasZero};
use vstd::multiset::Multiset;
use vstd::prelude::*;

verus! {

/// What an edge or a walk costs: the rank of a value is its amount, the zero
/// has the amount 0, and amounts that are not negative can be added as long
/// as the sum is within the limit of the type.
pub trait Cost: Radix + HasZero {
    /// The greatest amount that a value can have.
    spec fn limit() -> int;

    /// The zero has the amount 0.
    proof fn zero_rank()
        ensures
            Self::zero_spec().rank() == 0,
    ;

    /// The sum of two costs.
    fn plus(&self, rhs: &Self) -> (r: Self)
        requires
            0 <= self.rank(),
            0 <= rhs.rank(),
            self.rank() + rhs.rank() <= Self::limit(),
        ensures
            r.rank() == self.rank() + rhs.rank(),
    ;
}

impl Cost for u32 {
    open spec fn limit() -> int {
        u32::MAX as int
    }

    proof fn zero_rank() {
    }

    fn plus(&self, rhs: &u32) -> (r: u32) {
        *self + *rhs
    }
}

impl Cost for i32 {
    open spec fn limit() -> int {
        i32::MAX as int
    }

    proof fn zero_rank() {
    }

    fn plus(&self, rhs: &i32) -> (r: i32) {
        *self + *rhs
    }
}

impl Cost for u8 {
    open spec fn limit() -> int {
        u8::MAX as int
    }

    proof fn zero_rank() {
    }

    fn plus(&self, rhs: &u8) -> (r: u8) {
        *self + *rhs
    }
}

impl Cost for u16 {
    open spec fn limit() -> int {
        u16::MAX as int
    }

    proof fn zero_rank() {
    }

    fn plus(&self, rhs: &u16) -> (r: u16) {
        *self + *rhs
    }
}

impl Cost for u64 {
    open spec fn limit() -> int {
        u64::MAX as int
    }

    proof fn zero_rank() {
    }

    fn plus(&self, rhs: &u64) -> (r: u64) {
        *self + *rhs
    }
}

impl Cost for usize {
    open spec fn limit() -> int {
        usize::MAX as int
    }

    proof fn zero_rank() {
    }

    fn plus(&self, rhs: &usize) -> (r: usize) {
        *self + *rhs
    }
}

impl Cost for i8 {
    open spec fn limit() -> int {
        i8::MAX as int
    }

    proof fn zero_rank() {
    }

    fn plus(&self, rhs: &i8) -> (r: i8) {
        *self + *rhs
    }
}

impl Cost for i16 {
    open spec fn limit() -> int {
        i16::MAX as int
    }

    proof fn zero_rank() {
    }

    fn plus(&self, rhs: &i16) -> (r: i16) {
        *self + *rhs
    }
}

impl Cost for i64 {
    open spec fn limit() -> int {
        i64::MAX as int
    }

    proof fn zero_rank() {
    }

    fn plus(&self, rhs: &i64) -> (r: i64) {
        *self + *rhs
    }
}

impl Cost for isize {
    open spec fn limit() -> int {
        isize::MAX as int
    }

    proof fn zero_rank() {
    }

    fn plus(&self, rhs: &isize) -> (r: isize) {
        *self + *rhs
    }
}

impl Cost for u128 {
    open spec fn limit() -> int {
        u128::MAX as int
    }

    proof fn zero_rank() {
    }

    fn plus(&self, rhs: &u128) -> (r: u128) {
        *self + *rhs
    }
}

impl Cost for i128 {
    open spec fn limit() -> int {
        i128::MAX as int
    }

    proof fn zero_rank() {
    }

    fn plus(&self, rhs: &i128) -> (r: i128) {
        *self + *rhs
    }
}

/// Every edge leads to a vertex of the graph and has a cost that is not
/// negative.
pub open spec fn graph_ok<T: Cost>(g: Seq<Vec<(usize, T)>>) -> bool {
    forall|v: int, k: int|
        0 <= v < g.len() && 0 <= k < g[v]@.len() ==> (#[trigger] g[v]@[k]).0 < g.len() && 0
            <= g[v]@[k].1.rank()
}

/// The vertex at which the walk from `from` along `steps` ends.
pub open spec fn walk_end<T: Cost>(g: Seq<Vec<(usize, T)>>, from: int, steps: Seq<int>) -> int
    decreases steps.len(),
{
    if steps.len() == 0 {
        from
    } else {
        g[walk_end(g, from, steps.drop_last())]@[steps.last()].0 as int
    }
}

/// Whether `steps` is a walk from `from`: each step is an edge of the vertex
/// that the walk has come to.
pub open spec fn walk_ok<T: Cost>(g: Seq<Vec<(usize, T)>>, from: int, steps: Seq<int>) -> bool
    decreases steps.len(),
{
    if steps.len() == 0 {
        0 <= from < g.len()
    } else {
        &&& walk_ok(g, from, steps.drop_last())
        &&& 0 <= walk_end(g, from, steps.drop_last()) < g.len()
        &&& 0 <= steps.last() < g[walk_end(g, from, steps.drop_last())]@.len()
    }
}

/// The sum of the costs of the edges of the walk from `from` along `steps`.
pub open spec fn walk_cost<T: Cost>(g: Seq<Vec<(usize, T)>>, from: int, steps: Seq<int>) -> int
    decreases steps.len(),
{
    if steps.len() == 0 {
        0
    } else {
        walk_cost(g, from, steps.drop_last()) + g[walk_end(
            g,
            from,
            steps.drop_last(),
        )]@[steps.last()].1.rank()
    }
}

/// Some walk from `from` to `to` costs `d`, and none costs less.
pub open spec fn shortest<T: Cost>(g: Seq<Vec<(usize, T)>>, from: int, to: int, d: int) -> bool {
    &&& exists|steps: Seq<int>|
        #[trigger] walk_ok(g, from, steps) && walk_end(g, from, steps) == to && walk_cost(
            g,
            from,
            steps,
        ) == d
    &&& forall|steps: Seq<int>|
        #[trigger] walk_ok(g, from, steps) && walk_end(g, from, steps) == to ==> d <= walk_cost(
            g,
            from,
            steps,
        )
}

/// No walk from `from` ends at `to`.
pub open spec fn no_walk<T: Cost>(g: Seq<Vec<(usize, T)>>, from: int, to: int) -> bool {
    forall|steps: Seq<int>| #[trigger] walk_ok(g, from, steps) ==> walk_end(g, from, steps) != to
}

/// No walk from `from` that takes at most as many edges as the graph has
/// vertices costs more than the limit of the type.
pub open spec fn fits<T: Cost>(g: Seq<Vec<(usize, T)>>, from: int) -> bool {
    forall|steps: Seq<int>|
        #[trigger] walk_ok(g, from, steps) && steps.len() <= g.len() ==> walk_cost(g, from, steps)
            <= T::limit()
}

/// Number of edges that leave the first `upto` vertices, those in `done`
/// left out.
pub open spec fn pending<T>(g: Seq<Vec<(usize, T)>>, done: Set<int>, upto: int) -> int
    decreases upto,
{
    if upto <= 0 {
        0
    } else {
        pending(g, done, upto - 1) + if done.contains(upto - 1) {
            0
        } else {
            g[upto - 1]@.len() as int
        }
    }
}

/// Number of edges of the graph.
pub open spec fn edge_count<T>(g: Seq<Vec<(usize, T)>>) -> int {
    pending(g, Set::<int>::empty(), g.len() as int)
}

/// In the tree `nodes`, the way to `u` comes over an edge from the vertex
/// that `u` names, and costs what the way to that vertex and the edge cost.
pub open spec fn comes_from<T: Cost>(
    g: Seq<Vec<(usize, T)>>,
    nodes: Seq<Option<(T, usize)>>,
    u: int,
) -> bool {
    let p = nodes[u].unwrap().1 as int;
    &&& 0 <= p < g.len()
    &&& nodes[p] is Some
    &&& exists|k: int|
        0 <= k < g[p]@.len() && (#[trigger] g[p]@[k]).0 == u && nodes[p].unwrap().0.rank()
            + g[p]@[k].1.rank() == nodes[u].unwrap().0.rank()
}

/// `nodes` is a tree of walks from `start`: `start` is its own root at the
/// cost zero, and every other vertex with an entry is reached by a walk that
/// costs what the entry says, over an edge from the vertex that it names.
pub open spec fn rooted<T: Cost>(
    g: Seq<Vec<(usize, T)>>,
    start: int,
    nodes: Seq<Option<(T, usize)>>,
) -> bool {
    &&& nodes.len() == g.len()
    &&& 0 <= start < g.len()
    &&& nodes[start] == Some((T::zero_spec(), start as usize))
    &&& forall|u: int|
        0 <= u < g.len() && (#[trigger] nodes[u]) is Some ==> {
            &&& exists|steps: Seq<int>|
                #[trigger] walk_ok(g, start, steps) && walk_end(g, start, steps) == u && walk_cost(
                    g,
                    start,
                    steps,
                ) == nodes[u].unwrap().0.rank()
            &&& u != start ==> comes_from(g, nodes, u)
        }
}

/// A walk ends at a vertex of the graph, and costs nothing negative.
pub proof fn lemma_walk<T: Cost>(g: Seq<Vec<(usize, T)>>, from: int, steps: Seq<int>)
    requires
        graph_ok(g),
        walk_ok(g, from, steps),
    ensures
        0 <= walk_end(g, from, steps) < g.len(),
        0 <= walk_cost(g, from, steps),
    decreases steps.len(),
{
    if steps.len() > 0 {
        lemma_walk(g, from, steps.drop_last());
        let x = walk_end(g, from, steps.drop_last());
        assert(g[x]@[steps.last()].0 < g.len());
    }
}

/// A walk goes on over any edge of the vertex at which it ends.
pub proof fn lemma_walk_on<T: Cost>(g: Seq<Vec<(usize, T)>>, from: int, steps: Seq<int>, k: int)
    requires
        graph_ok(g),
        walk_ok(g, from, steps),
        0 <= k < g[walk_end(g, from, steps)]@.len(),
    ensures
        walk_ok(g, from, steps.push(k)),
        walk_end(g, from, steps.push(k)) == g[walk_end(g, from, steps)]@[k].0,
        walk_cost(g, from, steps.push(k)) == walk_cost(g, from, steps) + g[walk_end(
            g,
            from,
            steps,
        )]@[k].1.rank(),
{
    lemma_walk(g, from, steps);
    assert(steps.push(k).drop_last() =~= steps);
}

/// A walk costs no more than the number of its edges times the greatest
/// cost of an edge.
pub proof fn lemma_walk_bound<T: Cost>(
    g: Seq<Vec<(usize, T)>>,
    from: int,
    steps: Seq<int>,
    most: int,
)
    requires
        graph_ok(g),
        walk_ok(g, from, steps),
        forall|v: int, k: int|
            0 <= v < g.len() && 0 <= k < g[v]@.len() ==> (#[trigger] g[v]@[k]).1.rank() <= most,
    ensures
        walk_cost(g, from, steps) <= steps.len() * most,
    decreases steps.len(),
{
    if steps.len() > 0 {
        lemma_walk_bound(g, from, steps.drop_last(), most);
        lemma_walk(g, from, steps.drop_last());
        let x = walk_end(g, from, steps.drop_last());
        assert(g[x]@[steps.last()].1.rank() <= most);
        assert((steps.len() - 1) * most + most == steps.len() * most) by (nonlinear_arith);
    } else {
        assert(0 * most == 0);
    }
}

/// The costs of all walks that are asked for fit, where as many edges as
/// the graph has vertices, each of the greatest cost, do.
pub proof fn lemma_fits<T: Cost>(g: Seq<Vec<(usize, T)>>, from: int, most: int)
    requires
        graph_ok(g),
        0 <= most,
        g.len() * most <= T::limit(),
        forall|v: int, k: int|
            0 <= v < g.len() && 0 <= k < g[v]@.len() ==> (#[trigger] g[v]@[k]).1.rank() <= most,
    ensures
        fits(g, from),
{
    assert forall|steps: Seq<int>| #[trigger]
        walk_ok(g, from, steps) && steps.len() <= g.len() implies walk_cost(g, from, steps)
        <= T::limit() by {
        lemma_walk_bound(g, from, steps, most);
        assert(steps.len() * most <= g.len() * most) by (nonlinear_arith)
            requires
                steps.len() <= g.len(),
                0 <= most,
        ;
    }
}

/// A graph has no more edges than vertices times the greatest number of
/// edges that leave one of them.
pub proof fn lemma_edge_count<T>(g: Seq<Vec<(usize, T)>>, upto: int, most: int)
    requires
        0 <= upto <= g.len(),
        0 <= most,
        forall|v: int| 0 <= v < g.len() ==> (#[trigger] g[v])@.len() <= most,
    ensures
        pending(g, Set::<int>::empty(), upto) <= upto * most,
    decreases upto,
{
    if upto > 0 {
        lemma_edge_count(g, upto - 1, most);
        assert(g[upto - 1]@.len() <= most);
        assert((upto - 1) * most + most == upto * most) by (nonlinear_arith);
    } else {
        assert(0 * most == 0);
    }
}

/// No edges are pending less than none.
proof fn lemma_pending_least<T>(g: Seq<Vec<(usize, T)>>, done: Set<int>, upto: int)
    ensures
        0 <= pending(g, done, upto),
    decreases upto,
{
    if upto > 0 {
        lemma_pending_least(g, done, upto - 1);
    }
}

/// With one more vertex done, its edges are pending no longer.
proof fn lemma_pending_insert<T>(g: Seq<Vec<(usize, T)>>, done: Set<int>, v: int, upto: int)
    requires
        !done.contains(v),
        0 <= v,
    ensures
        pending(g, done.insert(v), upto) == pending(g, done, upto) - if v < upto {
            g[v]@.len() as int
        } else {
            0
        },
    decreases upto,
{
    if upto > 0 {
        lemma_pending_insert(g, done, v, upto - 1);
    }
}

/// A cost in the queue, with the vertex that it was found for.
#[derive(Clone, Copy)]
struct Item<T: Radix>(T, usize);

impl<T: Radix> HasMin for Item<T> {
    closed spec fn min_value_spec() -> Self {
        Item(T::min_value_spec(), 0)
    }

    fn min_value() -> (r: Self) {
        Item(T::min_value(), 0)
    }
}

impl<T: Radix> Radix for Item<T> {
    closed spec fn rank(self) -> int {
        self.0.rank()
    }

    closed spec fn dist(self, rhs: Self) -> nat {
        self.0.dist(rhs.0)
    }

    closed spec fn max_dist_spec() -> nat {
        T::max_dist_spec()
    }

    fn max_dist() -> (r: usize) {
        T::max_dist()
    }

    fn radix_dist(&self, rhs: &Self) -> (r: usize) {
        self.0.radix_dist(&rhs.0)
    }

    fn before(&self, rhs: &Self) -> (r: bool) {
        self.0.before(&rhs.0)
    }

    proof fn min_is_least(a: Self) {
        T::min_is_least(a.0);
    }

    proof fn dist_zero(a: Self, b: Self) {
        T::dist_zero(a.0, b.0);
    }

    proof fn dist_order(base: Self, a: Self, b: Self) {
        T::dist_order(base.0, a.0, b.0);
    }
}

/// The cost that `nodes` holds for `u`.
spec fn cost_at<T: Cost>(nodes: Seq<Option<(T, usize)>>, u: int) -> int {
    nodes[u].unwrap().0.rank()
}

/// There is an entry for each vertex, the number of vertices is one that the
/// machine can hold, and only vertices are done with.
spec fn sized<T: Cost>(g: Seq<Vec<(usize, T)>>, nodes: Seq<Option<(T, usize)>>,
    done: Set<int>) -> bool {
    &&& nodes.len() == g.len()
    &&& g.len() <= usize::MAX
    &&& forall|v: int| #[trigger] done.contains(v) ==> 0 <= v < g.len()
}

/// What is known of the entries while the search runs: each is the cost of
/// the walk kept beside it, which takes fewer edges than vertices are done
/// with, and comes over an edge from a vertex that is done with.
spec fn known<T: Cost>(
    g: Seq<Vec<(usize, T)>>,
    start: int,
    nodes: Seq<Option<(T, usize)>>,
    routes: Seq<Seq<int>>,
    done: Set<int>,
) -> bool {
    &&& sized(g, nodes, done)
    &&& routes.len() == g.len()
    &&& 0 <= start < g.len()
    &&& nodes[start] == Some((T::zero_spec(), start as usize))
    &&& done.finite()
    &&& forall|u: int|
        0 <= u < g.len() && (#[trigger] nodes[u]) is Some ==> {
            &&& walk_ok(g, start, routes[u])
            &&& walk_end(g, start, routes[u]) == u
            &&& walk_cost(g, start, routes[u]) == cost_at(nodes, u)
            &&& routes[u].len() + (if done.contains(u) {
                1int
            } else {
                0int
            }) <= done.len()
            &&& u != start ==> comes_from(g, nodes, u) && done.contains(nodes[u].unwrap().1 as int)
        }
}

/// The edge `k` of `v` cannot bring a lesser cost to the vertex it leads to.
spec fn relaxed<T: Cost>(g: Seq<Vec<(usize, T)>>, nodes: Seq<Option<(T, usize)>>, v: int,
    k: int) -> bool {
    let e = g[v]@[k];
    nodes[e.0 as int] is Some && cost_at(nodes, e.0 as int) <= cost_at(nodes, v) + e.1.rank()
}

/// The vertices that are done with have a cost that is not above `last`, and
/// their edges are relaxed: all of them, but of `cur` only the first `upto`.
spec fn settled<T: Cost>(
    g: Seq<Vec<(usize, T)>>,
    nodes: Seq<Option<(T, usize)>>,
    done: Set<int>,
    last: int,
    cur: int,
    upto: int,
) -> bool {
    &&& forall|v: int| #[trigger] done.contains(v) ==> nodes[v] is Some && cost_at(nodes, v) <= last
    &&& forall|v: int, k: int|
        done.contains(v) && 0 <= k < g[v]@.len() && (v != cur || k < upto) ==> #[trigger] relaxed(
            g,
            nodes,
            v,
            k,
        )
}

/// What the queue holds: costs that are not below `last`, each for a vertex
/// whose entry is not above it; the entry itself is there once while the
/// vertex is not done with, and not at all afterwards.
spec fn queued<T: Cost>(
    g: Seq<Vec<(usize, T)>>,
    nodes: Seq<Option<(T, usize)>>,
    done: Set<int>,
    heap: Multiset<Item<T>>,
    last: int,
) -> bool {
    &&& forall|it: Item<T>| #[trigger]
        heap.count(it) > 0 ==> {
            &&& it.1 < g.len()
            &&& nodes[it.1 as int] is Some
            &&& cost_at(nodes, it.1 as int) <= it.0.rank()
            &&& last <= it.0.rank()
            &&& cost_at(nodes, it.1 as int) == it.0.rank() ==> {
                &&& !done.contains(it.1 as int)
                &&& heap.count(it) == 1
                &&& it.0 == nodes[it.1 as int].unwrap().0
            }
        }
    &&& forall|u: int|
        0 <= u < g.len() && !done.contains(u) && (#[trigger] nodes[u]) is Some ==> heap.count(
            Item(nodes[u].unwrap().0, u as usize),
        ) > 0
}

/// Below the cost of a walk there is an entry that is not above it: that of
/// the vertex where the walk ends, or that of a vertex that is not done with.
proof fn lemma_lower<T: Cost>(
    g: Seq<Vec<(usize, T)>>,
    start: int,
    nodes: Seq<Option<(T, usize)>>,
    done: Set<int>,
    last: int,
    steps: Seq<int>,
) -> (y: int)
    requires
        graph_ok(g),
        nodes.len() == g.len(),
        0 <= start < g.len(),
        nodes[start] is Some,
        cost_at(nodes, start) <= 0,
        settled(g, nodes, done, last, -1, 0),
        walk_ok(g, start, steps),
    ensures
        0 <= y < g.len(),
        nodes[y] is Some,
        cost_at(nodes, y) <= walk_cost(g, start, steps),
        !done.contains(y) || y == walk_end(g, start, steps),
    decreases steps.len(),
{
    if steps.len() == 0 {
        start
    } else {
        let head = steps.drop_last();
        let k = steps.last();
        let x = walk_end(g, start, head);
        let y = lemma_lower(g, start, nodes, done, last, head);
        lemma_walk(g, start, head);
        assert(0 <= g[x]@[k].1.rank() && g[x]@[k].0 < g.len());
        if !done.contains(y) {
            y
        } else {
            assert(relaxed(g, nodes, x, k));
            g[x]@[k].0 as int
        }
    }
}

/// The least item of the queue belongs to a vertex with an entry that is
/// not above it, and nothing in the queue is below it.
proof fn lemma_popped<T: Cost>(
    g: Seq<Vec<(usize, T)>>,
    nodes: Seq<Option<(T, usize)>>,
    done: Set<int>,
    heap: Multiset<Item<T>>,
    last: int,
    item: Item<T>,
)
    requires
        sized(g, nodes, done),
        settled(g, nodes, done, last, -1, 0),
        queued(g, nodes, done, heap, last),
        heap.count(item) > 0,
    ensures
        item.1 < g.len(),
        nodes[item.1 as int] is Some,
        last <= item.0.rank(),
        cost_at(nodes, item.1 as int) <= item.0.rank(),
        settled(g, nodes, done, item.0.rank(), -1, 0),
        cost_at(nodes, item.1 as int) == item.0.rank() ==> !done.contains(item.1 as int) && item.0
            == nodes[item.1 as int].unwrap().0,
{
    assert forall|x: int, e: int|
        done.contains(x) && 0 <= e < g[x]@.len() implies #[trigger] relaxed(g, nodes, x, e) by {
        assert(relaxed(g, nodes, x, e));
    }
}

/// Without its least item, where that is not the entry of its vertex, the
/// queue still holds what it has to.
proof fn lemma_stale<T: Cost>(
    g: Seq<Vec<(usize, T)>>,
    nodes: Seq<Option<(T, usize)>>,
    done: Set<int>,
    heap: Multiset<Item<T>>,
    last: int,
    item: Item<T>,
)
    requires
        sized(g, nodes, done),
        queued(g, nodes, done, heap, last),
        heap.count(item) > 0,
        forall|x: Item<T>| heap.count(x) > 0 ==> item.rank() <= x.rank(),
        cost_at(nodes, item.1 as int) != item.0.rank(),
    ensures
        queued(g, nodes, done, heap.remove(item), item.0.rank()),
{
    let rest = heap.remove(item);
    let top = item.0.rank();
    assert forall|it: Item<T>| #[trigger] rest.count(it) > 0 implies {
        &&& it.1 < g.len()
        &&& nodes[it.1 as int] is Some
        &&& cost_at(nodes, it.1 as int) <= it.0.rank()
        &&& top <= it.0.rank()
        &&& cost_at(nodes, it.1 as int) == it.0.rank() ==> {
            &&& !done.contains(it.1 as int)
            &&& rest.count(it) == 1
            &&& it.0 == nodes[it.1 as int].unwrap().0
        }
    } by {
        assert(heap.count(it) > 0);
        assert(item.rank() <= it.rank());
        if cost_at(nodes, it.1 as int) == it.0.rank() {
            assert(it != item);
        }
    }
    assert forall|u: int|
        0 <= u < g.len() && !done.contains(u) && (#[trigger] nodes[u]) is Some implies rest.count(
        Item(nodes[u].unwrap().0, u as usize),
    ) > 0 by {
        let held = Item(nodes[u].unwrap().0, u as usize);
        assert(heap.count(held) > 0);
        if held == item {
            assert(held.1 as int == u);
            assert(cost_at(nodes, u) == held.0.rank());
        }
    }
}

/// Without its least item, where that is the entry of its vertex, the queue
/// holds what it has to once the vertex is done with.
proof fn lemma_fresh_queue<T: Cost>(
    g: Seq<Vec<(usize, T)>>,
    nodes: Seq<Option<(T, usize)>>,
    done: Set<int>,
    heap: Multiset<Item<T>>,
    last: int,
    item: Item<T>,
)
    requires
        sized(g, nodes, done),
        queued(g, nodes, done, heap, last),
        heap.count(item) > 0,
        forall|x: Item<T>| heap.count(x) > 0 ==> item.rank() <= x.rank(),
        cost_at(nodes, item.1 as int) == item.0.rank(),
    ensures
        queued(g, nodes, done.insert(item.1 as int), heap.remove(item), item.0.rank()),
{
    let rest = heap.remove(item);
    let top = item.0.rank();
    let more = done.insert(item.1 as int);
    assert(heap.count(item) == 1);
    assert(rest.count(item) == 0);
    assert forall|it: Item<T>| #[trigger] rest.count(it) > 0 implies {
        &&& it.1 < g.len()
        &&& nodes[it.1 as int] is Some
        &&& cost_at(nodes, it.1 as int) <= it.0.rank()
        &&& top <= it.0.rank()
        &&& cost_at(nodes, it.1 as int) == it.0.rank() ==> {
            &&& !more.contains(it.1 as int)
            &&& rest.count(it) == 1
            &&& it.0 == nodes[it.1 as int].unwrap().0
        }
    } by {
        assert(heap.count(it) > 0);
        assert(item.rank() <= it.rank());
        assert(it != item);
        if cost_at(nodes, it.1 as int) == it.0.rank() && it.1 == item.1 {
            assert(it.0 == item.0);
            assert(it == item);
        }
    }
    assert forall|u: int|
        0 <= u < g.len() && !more.contains(u) && (#[trigger] nodes[u]) is Some implies rest.count(
        Item(nodes[u].unwrap().0, u as usize),
    ) > 0 by {
        let held = Item(nodes[u].unwrap().0, u as usize);
        assert(heap.count(held) > 0);
        assert(held.1 as int == u);
        assert(held != item);
    }
}

/// A vertex that was not done with can be done with: the walks kept still
/// take fewer edges than vertices are done with, and none of the edges of
/// the vertex need be relaxed yet.
proof fn lemma_fresh_known<T: Cost>(
    g: Seq<Vec<(usize, T)>>,
    start: int,
    nodes: Seq<Option<(T, usize)>>,
    routes: Seq<Seq<int>>,
    done: Set<int>,
    last: int,
    v: int,
)
    requires
        known(g, start, nodes, routes, done),
        settled(g, nodes, done, last, -1, 0),
        0 <= v < g.len(),
        !done.contains(v),
        nodes[v] is Some,
        cost_at(nodes, v) <= last,
    ensures
        known(g, start, nodes, routes, done.insert(v)),
        settled(g, nodes, done.insert(v), last, v, 0),
{
    let more = done.insert(v);
    assert(more.len() == done.len() + 1);
    assert forall|u: int| 0 <= u < g.len() && (#[trigger] nodes[u]) is Some implies {
        &&& routes[u].len() + (if more.contains(u) {
            1int
        } else {
            0int
        }) <= more.len()
        &&& u != start ==> comes_from(g, nodes, u) && more.contains(nodes[u].unwrap().1 as int)
    } by {}
    assert forall|x: int, e: int|
        more.contains(x) && 0 <= e < g[x]@.len() && (x != v || e < 0) implies #[trigger] relaxed(
        g,
        nodes,
        x,
        e,
    ) by {
        assert(relaxed(g, nodes, x, e));
    }
}

/// An edge of the vertex in hand that brings a lesser cost leads to a vertex
/// that is not done with and is not the start.
proof fn lemma_improve_where<T: Cost>(
    g: Seq<Vec<(usize, T)>>,
    start: int,
    nodes: Seq<Option<(T, usize)>>,
    routes: Seq<Seq<int>>,
    done: Set<int>,
    v: int,
    k: int,
    reach: T,
)
    requires
        graph_ok(g),
        done.contains(v),
        0 <= k < g[v]@.len(),
        known(g, start, nodes, routes, done),
        settled(g, nodes, done, cost_at(nodes, v), v, k),
        reach.rank() == cost_at(nodes, v) + g[v]@[k].1.rank(),
        nodes[g[v]@[k].0 as int] is None || reach.rank() < cost_at(nodes, g[v]@[k].0 as int),
    ensures
        0 <= v < g.len(),
        nodes[v] is Some,
        g[v]@[k].0 < g.len(),
        0 <= g[v]@[k].1.rank(),
        0 <= cost_at(nodes, v),
        !done.contains(g[v]@[k].0 as int),
        g[v]@[k].0 != start,
        g[v]@[k].0 != v,
{
    T::zero_rank();
    assert(g[v]@[k].0 < g.len() && 0 <= g[v]@[k].1.rank());
    assert(nodes[v] is Some);
    lemma_walk(g, start, routes[v]);
}

/// With the lesser cost that an edge of the vertex in hand has brought, the
/// entries are still those of the walks kept beside them.
proof fn lemma_improve_known<T: Cost>(
    g: Seq<Vec<(usize, T)>>,
    start: int,
    nodes: Seq<Option<(T, usize)>>,
    routes: Seq<Seq<int>>,
    done: Set<int>,
    v: int,
    k: int,
    reach: T,
)
    requires
        graph_ok(g),
        done.contains(v),
        0 <= k < g[v]@.len(),
        known(g, start, nodes, routes, done),
        settled(g, nodes, done, cost_at(nodes, v), v, k),
        reach.rank() == cost_at(nodes, v) + g[v]@[k].1.rank(),
        nodes[g[v]@[k].0 as int] is None || reach.rank() < cost_at(nodes, g[v]@[k].0 as int),
    ensures
        known(
            g,
            start,
            nodes.update(g[v]@[k].0 as int, Some((reach, v as usize))),
            routes.update(g[v]@[k].0 as int, routes[v].push(k)),
            done,
        ),
{
    let u = g[v]@[k].0 as int;
    let next = nodes.update(u, Some((reach, v as usize)));
    let ways = routes.update(u, routes[v].push(k));
    lemma_improve_where(g, start, nodes, routes, done, v, k, reach);
    lemma_walk_on(g, start, routes[v], k);
    assert forall|w: int| 0 <= w < g.len() && (#[trigger] next[w]) is Some implies {
        &&& walk_ok(g, start, ways[w])
        &&& walk_end(g, start, ways[w]) == w
        &&& walk_cost(g, start, ways[w]) == cost_at(next, w)
        &&& ways[w].len() + (if done.contains(w) {
            1int
        } else {
            0int
        }) <= done.len()
        &&& w != start ==> comes_from(g, next, w) && done.contains(next[w].unwrap().1 as int)
    } by {
        if w == u {
            assert(next[v] == nodes[v]);
            assert(g[v]@[k].0 == u);
            assert(comes_from(g, next, w));
        } else {
            assert(next[w] == nodes[w]);
            assert(ways[w] == routes[w]);
            if w != start {
                lemma_link_kept(g, nodes, done, w, u, Some((reach, v as usize)));
            }
        }
    }
}

/// An entry still comes from the vertex it names when the entry of another
/// vertex, which is not done with, changes.
proof fn lemma_link_kept<T: Cost>(
    g: Seq<Vec<(usize, T)>>,
    nodes: Seq<Option<(T, usize)>>,
    done: Set<int>,
    w: int,
    u: int,
    entry: Option<(T, usize)>,
)
    requires
        0 <= w < nodes.len(),
        0 <= u < nodes.len(),
        nodes.len() == g.len(),
        nodes[w] is Some,
        w != u,
        !done.contains(u),
        comes_from(g, nodes, w),
        done.contains(nodes[w].unwrap().1 as int),
    ensures
        comes_from(g, nodes.update(u, entry), w),
{
    let next = nodes.update(u, entry);
    let p = nodes[w].unwrap().1 as int;
    assert(p != u);
    assert(next[p] == nodes[p]);
    assert(next[w] == nodes[w]);
    let e = choose|e: int|
        0 <= e < g[p]@.len() && (#[trigger] g[p]@[e]).0 == w && nodes[p].unwrap().0.rank()
            + g[p]@[e].1.rank() == nodes[w].unwrap().0.rank();
    assert(0 <= e < g[p]@.len() && g[p]@[e].0 == w && next[p].unwrap().0.rank()
        + g[p]@[e].1.rank() == next[w].unwrap().0.rank());
}

/// With the lesser cost that the edge `k` of the vertex in hand has brought,
/// the edges of the vertices that are done with are still relaxed, and so is
/// the edge `k`.
proof fn lemma_improve_settled<T: Cost>(
    g: Seq<Vec<(usize, T)>>,
    start: int,
    nodes: Seq<Option<(T, usize)>>,
    routes: Seq<Seq<int>>,
    done: Set<int>,
    v: int,
    k: int,
    reach: T,
)
    requires
        graph_ok(g),
        done.contains(v),
        0 <= k < g[v]@.len(),
        known(g, start, nodes, routes, done),
        settled(g, nodes, done, cost_at(nodes, v), v, k),
        reach.rank() == cost_at(nodes, v) + g[v]@[k].1.rank(),
        nodes[g[v]@[k].0 as int] is None || reach.rank() < cost_at(nodes, g[v]@[k].0 as int),
    ensures
        settled(
            g,
            nodes.update(g[v]@[k].0 as int, Some((reach, v as usize))),
            done,
            cost_at(nodes, v),
            v,
            k + 1,
        ),
{
    let u = g[v]@[k].0 as int;
    let last = cost_at(nodes, v);
    let next = nodes.update(u, Some((reach, v as usize)));
    lemma_improve_where(g, start, nodes, routes, done, v, k, reach);
    assert forall|x: int| #[trigger] done.contains(x) implies next[x] is Some && cost_at(next, x)
        <= last by {
        assert(x != u);
        assert(next[x] == nodes[x]);
    }
    assert forall|x: int, e: int|
        done.contains(x) && 0 <= e < g[x]@.len() && (x != v || e < k + 1)
            implies #[trigger] relaxed(
        g,
        next,
        x,
        e,
    ) by {
        assert(g[x]@[e].0 < g.len());
        assert(next[x] == nodes[x]);
        let t = g[x]@[e].0 as int;
        if x == v && e == k {
            assert(next[t] == Some((reach, v as usize)));
        } else {
            assert(relaxed(g, nodes, x, e));
            if t == u {
                assert(next[t] == Some((reach, v as usize)));
            } else {
                assert(next[t] == nodes[t]);
            }
        }
    }
}

/// With the lesser cost that an edge of the vertex in hand has brought, and
/// the new entry put in, the queue holds what it has to.
proof fn lemma_improve_queued<T: Cost>(
    g: Seq<Vec<(usize, T)>>,
    start: int,
    nodes: Seq<Option<(T, usize)>>,
    routes: Seq<Seq<int>>,
    done: Set<int>,
    heap: Multiset<Item<T>>,
    v: int,
    k: int,
    reach: T,
)
    requires
        graph_ok(g),
        done.contains(v),
        0 <= k < g[v]@.len(),
        known(g, start, nodes, routes, done),
        settled(g, nodes, done, cost_at(nodes, v), v, k),
        queued(g, nodes, done, heap, cost_at(nodes, v)),
        reach.rank() == cost_at(nodes, v) + g[v]@[k].1.rank(),
        nodes[g[v]@[k].0 as int] is None || reach.rank() < cost_at(nodes, g[v]@[k].0 as int),
    ensures
        queued(
            g,
            nodes.update(g[v]@[k].0 as int, Some((reach, v as usize))),
            done,
            heap.insert(Item(reach, g[v]@[k].0)),
            cost_at(nodes, v),
        ),
{
    let u = g[v]@[k].0 as int;
    let last = cost_at(nodes, v);
    let next = nodes.update(u, Some((reach, v as usize)));
    let fresh = Item(reach, u as usize);
    let more = heap.insert(fresh);
    lemma_improve_where(g, start, nodes, routes, done, v, k, reach);
    assert(next[u] == Some((reach, v as usize)));
    if heap.count(fresh) > 0 {
        assert(nodes[fresh.1 as int] is Some);
        assert(cost_at(nodes, u) <= fresh.0.rank());
        assert(false);
    }
    assert(more.count(fresh) == 1);
    assert forall|it: Item<T>| #[trigger] more.count(it) > 0 implies {
        &&& it.1 < g.len()
        &&& next[it.1 as int] is Some
        &&& cost_at(next, it.1 as int) <= it.0.rank()
        &&& last <= it.0.rank()
        &&& cost_at(next, it.1 as int) == it.0.rank() ==> {
            &&& !done.contains(it.1 as int)
            &&& more.count(it) == 1
            &&& it.0 == next[it.1 as int].unwrap().0
        }
    } by {
        if it != fresh {
            assert(heap.count(it) > 0);
            assert(more.count(it) == heap.count(it));
            if it.1 as int == u {
                assert(cost_at(nodes, u) <= it.0.rank());
                assert(cost_at(next, u) < it.0.rank());
            } else {
                assert(next[it.1 as int] == nodes[it.1 as int]);
            }
        }
    }
    assert forall|w: int|
        0 <= w < g.len() && !done.contains(w) && (#[trigger] next[w]) is Some implies more.count(
        Item(next[w].unwrap().0, w as usize),
    ) > 0 by {
        if w != u {
            assert(next[w] == nodes[w]);
            assert(nodes[w] is Some);
            assert(heap.count(Item(nodes[w].unwrap().0, w as usize)) > 0);
        }
    }
}

/// The cost of the walk to the vertex in hand and on over one of its edges
/// is within the limit of the type.
proof fn lemma_within<T: Cost>(
    g: Seq<Vec<(usize, T)>>,
    start: int,
    nodes: Seq<Option<(T, usize)>>,
    routes: Seq<Seq<int>>,
    done: Set<int>,
    v: int,
    k: int,
)
    requires
        graph_ok(g),
        fits(g, start),
        done.contains(v),
        0 <= k < g[v]@.len(),
        known(g, start, nodes, routes, done),
        nodes[v] is Some,
    ensures
        0 <= cost_at(nodes, v),
        0 <= g[v]@[k].1.rank(),
        g[v]@[k].0 < g.len(),
        cost_at(nodes, v) + g[v]@[k].1.rank() <= T::limit(),
{
    assert(g[v]@[k].0 < g.len() && 0 <= g[v]@[k].1.rank());
    lemma_walk_on(g, start, routes[v], k);
    lemma_walk(g, start, routes[v]);
    vstd::set_lib::lemma_int_range(0, g.len() as int);
    vstd::set_lib::lemma_len_subset(done, vstd::set_lib::set_int_range(0, g.len() as int));
    assert(walk_ok(g, start, routes[v].push(k)));
}

/// An edge that brings no lesser cost is relaxed.
proof fn lemma_kept<T: Cost>(
    g: Seq<Vec<(usize, T)>>,
    nodes: Seq<Option<(T, usize)>>,
    done: Set<int>,
    v: int,
    k: int,
    reach: int,
)
    requires
        done.contains(v),
        0 <= k < g[v]@.len(),
        settled(g, nodes, done, cost_at(nodes, v), v, k),
        reach == cost_at(nodes, v) + g[v]@[k].1.rank(),
        nodes[g[v]@[k].0 as int] is Some,
        cost_at(nodes, g[v]@[k].0 as int) <= reach,
    ensures
        settled(g, nodes, done, cost_at(nodes, v), v, k + 1),
{
    assert forall|x: int, e: int|
        done.contains(x) && 0 <= e < g[x]@.len() && (x != v || e < k + 1)
            implies #[trigger] relaxed(
        g,
        nodes,
        x,
        e,
    ) by {
        if x == v && e == k {
        } else {
            assert(relaxed(g, nodes, x, e));
        }
    }
}

/// Goes out from `start` to the nearest vertex first, and stops where it
/// comes to `goal`. Returns the tree of the walks found, and whether it has
/// stopped at `goal`.
fn search<T: Cost>(edges: &[Vec<(usize, T)>], start: usize, goal: Option<usize>) -> (r: (
    Vec<Option<(T, usize)>>,
    bool,
))
    requires
        graph_ok(edges@),
        start < edges@.len(),
        fits(edges@, start as int),
        edge_count(edges@) < usize::MAX,
    ensures
        rooted(edges@, start as int, r.0@),
        r.1 ==> goal is Some && goal.unwrap() < edges@.len() && r.0@[goal.unwrap() as int] is Some
            && forall|steps: Seq<int>|
            #[trigger] walk_ok(edges@, start as int, steps) && walk_end(edges@, start as int, steps)
                == goal.unwrap() ==> cost_at(r.0@, goal.unwrap() as int) <= walk_cost(
                edges@,
                start as int,
                steps,
            ),
        !r.1 ==> forall|steps: Seq<int>|
            #[trigger] walk_ok(edges@, start as int, steps) ==> {
                let u = walk_end(edges@, start as int, steps);
                &&& 0 <= u < edges@.len()
                &&& r.0@[u] is Some
                &&& cost_at(r.0@, u) <= walk_cost(edges@, start as int, steps)
                &&& goal != Some(u as usize)
            },
{
    let ghost g = edges@;
    let n = edges.len();
    let mut nodes: Vec<Option<(T, usize)>> = Vec::new();
    let mut i: usize = 0;
    while i < n
        invariant
            i <= n,
            nodes@.len() == i,
            forall|j: int| 0 <= j < i ==> (#[trigger] nodes@[j]) is None,
        decreases n - i,
    {
        nodes.push(None);
        i += 1;
    }
    let zero = T::zero();
    nodes.set(start, Some((zero, start)));
    let mut heap: RadixHeap<Item<T>> = RadixHeap::new();
    proof {
        T::min_is_least(zero);
        T::zero_rank();
    }
    heap.push(Item(zero, start));
    let ghost mut routes: Seq<Seq<int>> = Seq::new(n as nat, |i: int| Seq::<int>::empty());
    let ghost mut done: Set<int> = Set::<int>::empty();
    proof {
        lemma_pending_least(g, done, n as int);
        assert(heap@ =~= Multiset::<Item<T>>::empty().insert(Item(zero, start)));
    }
    while !heap.is_empty()
        invariant
            g == edges@,
            n == g.len(),
            graph_ok(g),
            fits(g, start as int),
            edge_count(g) < usize::MAX,
            heap.wf(),
            known(g, start as int, nodes@, routes, done),
            settled(g, nodes@, done, heap.spec_last().rank(), -1, 0),
            queued(g, nodes@, done, heap@, heap.spec_last().rank()),
            heap@.len() + pending(g, done, n as int) <= edge_count(g) + 1,
            goal is Some ==> !done.contains(goal.unwrap() as int),
        decreases heap@.len() + pending(g, done, n as int),
    {
        let ghost prior = heap;
        let item = heap.pop().unwrap();
        let distance = item.0;
        let v = item.1;
        proof {
            lemma_pending_least(g, done, n as int);
            lemma_popped(g, nodes@, done, prior@, prior.spec_last().rank(), item);
            assert(heap@.len() == prior@.len() - 1);
            if cost_at(nodes@, v as int) != distance.rank() {
                lemma_stale(g, nodes@, done, prior@, prior.spec_last().rank(), item);
            }
        }
        let fresh = match nodes[v] {
            Some((d, _)) => !d.before(&distance) && !distance.before(&d),
            None => false,
        };
        if fresh {
            if goal == Some(v) {
                proof {
                    assert forall|steps: Seq<int>|
                        #[trigger] walk_ok(g, start as int, steps) && walk_end(
                            g,
                            start as int,
                            steps,
                        ) == v implies cost_at(nodes@, v as int) <= walk_cost(
                        g,
                        start as int,
                        steps,
                    ) by {
                        T::zero_rank();
                        let y = lemma_lower(
                            g,
                            start as int,
                            nodes@,
                            done,
                            prior.spec_last().rank(),
                            steps,
                        );
                        if y != v {
                            let held = Item(nodes@[y].unwrap().0, y as usize);
                            assert(prior@.count(held) > 0);
                            assert(item.rank() <= held.rank());
                        }
                    }
                }
                return (nodes, true);
            }
            let ghost found = done;
            proof {
                lemma_fresh_queue(g, nodes@, found, prior@, prior.spec_last().rank(), item);
                lemma_fresh_known(g, start as int, nodes@, routes, found, distance.rank(),
                    v as int);
                lemma_pending_insert(g, found, v as int, n as int);
                done = found.insert(v as int);
            }
            let out = &edges[v];
            let mut k: usize = 0;
            while k < out.len()
                invariant
                    g == edges@,
                    n == g.len(),
                    graph_ok(g),
                    fits(g, start as int),
                    edge_count(g) < usize::MAX,
                    v < n,
                    *out == g[v as int],
                    k <= out@.len(),
                    heap.wf(),
                    heap.spec_last().rank() == distance.rank(),
                    nodes@[v as int] is Some,
                    nodes@[v as int].unwrap().0 == distance,
                    done.contains(v as int),
                    known(g, start as int, nodes@, routes, done),
                    settled(g, nodes@, done, distance.rank(), v as int, k as int),
                    queued(g, nodes@, done, heap@, distance.rank()),
                    heap@.len() + pending(g, done, n as int) + (out@.len() - k) <= edge_count(g)
                        + 1,
                    heap@.len() + pending(g, done, n as int) + (out@.len() - k) < prior@.len()
                        + pending(g, found, n as int),
                    goal is Some ==> !done.contains(goal.unwrap() as int),
                decreases out@.len() - k,
            {
                let u = out[k].0;
                let cost = out[k].1;
                proof {
                    lemma_within(g, start as int, nodes@, routes, done, v as int, k as int);
                    lemma_pending_least(g, done, n as int);
                }
                let reach = distance.plus(&cost);
                let better = match nodes[u] {
                    Some((d, _)) => reach.before(&d),
                    None => true,
                };
                if better {
                    proof {
                        lemma_improve_where(
                            g,
                            start as int,
                            nodes@,
                            routes,
                            done,
                            v as int,
                            k as int,
                            reach,
                        );
                        lemma_improve_known(
                            g,
                            start as int,
                            nodes@,
                            routes,
                            done,
                            v as int,
                            k as int,
                            reach,
                        );
                        lemma_improve_settled(
                            g,
                            start as int,
                            nodes@,
                            routes,
                            done,
                            v as int,
                            k as int,
                            reach,
                        );
                        lemma_improve_queued(
                            g,
                            start as int,
                            nodes@,
                            routes,
                            done,
                            heap@,
                            v as int,
                            k as int,
                            reach,
                        );
                        routes = routes.update(u as int, routes[v as int].push(k as int));
                    }
                    nodes.set(u, Some((reach, v)));
                    heap.push(Item(reach, u));
                } else {
                    proof {
                        lemma_kept(g, nodes@, done, v as int, k as int, reach.rank());
                    }
                }
                k += 1;
            }
        }
        proof {
            lemma_pending_least(g, done, n as int);
        }
    }
    proof {
        assert forall|steps: Seq<int>| #[trigger] walk_ok(g, start as int, steps) implies {
            let u = walk_end(g, start as int, steps);
            &&& 0 <= u < g.len()
            &&& nodes@[u] is Some
            &&& cost_at(nodes@, u) <= walk_cost(g, start as int, steps)
            &&& goal != Some(u as usize)
        } by {
            T::zero_rank();
            lemma_walk(g, start as int, steps);
            let y = lemma_lower(g, start as int, nodes@, done, heap.spec_last().rank(), steps);
            if !done.contains(y) {
                assert(heap@.count(Item(nodes@[y].unwrap().0, y as usize)) > 0);
            }
            let u = walk_end(g, start as int, steps);
            if !done.contains(u) {
                assert(heap@.count(Item(nodes@[u].unwrap().0, u as usize)) > 0);
            }
        }
    }
    (nodes, false)
}

/// The least cost of a walk from `start` to `goal`, or `None` where there is
/// no such walk.
pub fn dijkstra<T: Cost>(edges: &[Vec<(usize, T)>], start: usize, goal: usize) -> (r: Option<T>)
    requires
        graph_ok(edges@),
        start < edges@.len(),
        fits(edges@, start as int),
        edge_count(edges@) < usize::MAX,
    ensures
        match r {
            Some(d) => shortest(edges@, start as int, goal as int, d.rank()),
            None => no_walk(edges@, start as int, goal as int),
        },
{
    let (nodes, stopped) = search(edges, start, Some(goal));
    if stopped {
        match nodes[goal] {
            Some((d, _)) => Some(d),
            None => None,
        }
    } else {
        None
    }
}

/// The tree of the shortest walks from `start`: for every vertex that a walk
/// from `start` reaches, the least cost of such a walk and the vertex before
/// it on one that costs no more (for `start`, zero and itself); `None` for
/// the others.
pub fn dijkstra_tree<T: Cost>(edges: &[Vec<(usize, T)>], start: usize) -> (r: Vec<
    Option<(T, usize)>,
>)
    requires
        graph_ok(edges@),
        start < edges@.len(),
        fits(edges@, start as int),
        edge_count(edges@) < usize::MAX,
    ensures
        rooted(edges@, start as int, r@),
        forall|v: int|
            0 <= v < r@.len() ==> match #[trigger] r@[v] {
                Some((d, _)) => shortest(edges@, start as int, v, d.rank()),
                None => no_walk(edges@, start as int, v),
            },
{
    let (nodes, _) = search(edges, start, None);
    nodes
}

} // verus!
