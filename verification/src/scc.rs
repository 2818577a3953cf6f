//! Strongly connected components of a directed graph.
//!
//! A graph is a list of vertices, each with the vertices that its edges lead
//! to. Two vertices belong together where each can be reached from the other.

use crate::topologicalsort::{has_edge, listed};
use vstd::prelude::*;

verus! {

/// Every edge leads to a vertex of the graph.
pub open spec fn graph_ok(g: Seq<Vec<usize>>) -> bool {
    forall|v: int, e: int| 0 <= v < g.len() && 0 <= e < g[v]@.len()
        ==> (#[trigger] g[v]@[e]) < g.len()
}

/// Whether `p` is a path: vertices of the graph, each with an edge to the
/// next.
pub open spec fn is_path(g: Seq<Vec<usize>>, p: Seq<int>) -> bool {
    &&& p.len() > 0
    &&& forall|i: int| 0 <= i < p.len() ==> 0 <= #[trigger] p[i] < g.len()
    &&& forall|i: int| 0 <= i < p.len() - 1 ==> has_edge(g, #[trigger] p[i], p[i + 1])
}

/// Whether a path leads from `a` to `b`. Every vertex reaches itself.
pub open spec fn reaches(g: Seq<Vec<usize>>, a: int, b: int) -> bool {
    exists|p: Seq<int>| #[trigger] is_path(g, p) && p[0] == a && p.last() == b
}

/// Whether `a` and `b` reach each other.
pub open spec fn mutual(g: Seq<Vec<usize>>, a: int, b: int) -> bool {
    reaches(g, a, b) && reaches(g, b, a)
}

/// Every vertex reaches itself.
pub proof fn lemma_reach_self(g: Seq<Vec<usize>>, a: int)
    requires
        0 <= a < g.len(),
    ensures
        reaches(g, a, a),
        mutual(g, a, a),
{
    let p = seq![a];
    assert(is_path(g, p) && p[0] == a && p.last() == a);
}

/// What reaches a vertex reaches the vertices that its edges lead to.
pub proof fn lemma_reach_edge(g: Seq<Vec<usize>>, a: int, b: int, c: int)
    requires
        reaches(g, a, b),
        has_edge(g, b, c),
        0 <= c < g.len(),
    ensures
        reaches(g, a, c),
{
    let p = choose|p: Seq<int>| #[trigger] is_path(g, p) && p[0] == a && p.last() == b;
    let q = p.push(c);
    assert forall|i: int| 0 <= i < q.len() - 1 implies has_edge(g, #[trigger] q[i], q[i + 1]) by {
        if i < p.len() - 1 {
            assert(q[i] == p[i] && q[i + 1] == p[i + 1]);
            assert(has_edge(g, p[i], p[i + 1]));
        }
    }
    assert(is_path(g, q) && q[0] == a && q.last() == c);
}

/// The first vertex of a path reaches each vertex of it, and each vertex of
/// it reaches the last.
pub proof fn lemma_on_path(g: Seq<Vec<usize>>, p: Seq<int>, j: int)
    requires
        is_path(g, p),
        0 <= j < p.len(),
    ensures
        reaches(g, p[0], p[j]),
        reaches(g, p[j], p.last()),
{
    let head = p.subrange(0, j + 1);
    assert forall|i: int| 0 <= i < head.len() - 1
        implies has_edge(g, #[trigger] head[i], head[i + 1]) by {
        assert(head[i] == p[i] && head[i + 1] == p[i + 1]);
    }
    assert(is_path(g, head) && head[0] == p[0] && head.last() == p[j]);
    let tail = p.subrange(j, p.len() as int);
    assert forall|i: int| 0 <= i < tail.len() - 1
        implies has_edge(g, #[trigger] tail[i], tail[i + 1]) by {
        assert(tail[i] == p[j + i] && tail[i + 1] == p[j + i + 1]);
    }
    assert(is_path(g, tail) && tail[0] == p[j] && tail.last() == p.last());
}

/// What reaches the first vertex of a path reaches each vertex of it.
proof fn lemma_along(g: Seq<Vec<usize>>, a: int, p: Seq<int>, j: int)
    requires
        is_path(g, p),
        reaches(g, a, p[0]),
        0 <= j < p.len(),
    ensures
        reaches(g, a, p[j]),
    decreases j,
{
    if j > 0 {
        lemma_along(g, a, p, j - 1);
        assert(has_edge(g, p[j - 1], p[j - 1 + 1]));
        lemma_reach_edge(g, a, p[j - 1], p[j]);
    }
}

/// What reaches a vertex reaches what that vertex reaches.
pub proof fn lemma_reach_trans(g: Seq<Vec<usize>>, a: int, b: int, c: int)
    requires
        reaches(g, a, b),
        reaches(g, b, c),
    ensures
        reaches(g, a, c),
{
    let q = choose|q: Seq<int>| #[trigger] is_path(g, q) && q[0] == b && q.last() == c;
    lemma_along(g, a, q, q.len() - 1);
}

/// Vertices that reach each other with a third reach each other.
pub proof fn lemma_mutual_trans(g: Seq<Vec<usize>>, a: int, b: int, c: int)
    requires
        mutual(g, a, b),
        mutual(g, b, c),
    ensures
        mutual(g, a, c),
{
    lemma_reach_trans(g, a, b, c);
    lemma_reach_trans(g, c, b, a);
}

/// Only vertices of the graph reach or are reached.
pub proof fn lemma_reach_within(g: Seq<Vec<usize>>, a: int, b: int)
    requires
        reaches(g, a, b),
    ensures
        0 <= a < g.len(),
        0 <= b < g.len(),
{
    let p = choose|p: Seq<int>| #[trigger] is_path(g, p) && p[0] == a && p.last() == b;
    assert(0 <= p[0] < g.len());
    assert(0 <= p[p.len() - 1] < g.len());
}

/// The colours of the first search: a vertex has not been seen, is being
/// searched from, or is done with.
const WHITE: u8 = 0;

const GREY: u8 = 1;

const BLACK: u8 = 2;

/// What is done with: the vertices in `order`, each once, and no edge leads
/// from one of them to a vertex that has not been seen.
spec fn finished_ok(g: Seq<Vec<usize>>, color: Seq<u8>, order: Seq<usize>) -> bool {
    &&& graph_ok(g)
    &&& color.len() == g.len()
    &&& forall|v: int| 0 <= v < g.len() ==> #[trigger] color[v] <= BLACK
    &&& forall|a: int, b: int| 0 <= a < b < order.len()
        ==> #[trigger] order[a] != #[trigger] order[b]
    &&& forall|a: int| 0 <= a < order.len()
        ==> (#[trigger] order[a]) < g.len() && color[order[a] as int] == BLACK
    &&& forall|v: int| 0 <= v < g.len() && #[trigger] color[v] == BLACK
        ==> exists|a: int| 0 <= a < order.len() && #[trigger] order[a] == v
    &&& forall|v: int, e: int| 0 <= v < g.len() && color[v] == BLACK && 0 <= e < g[v]@.len()
        ==> color[(#[trigger] g[v]@[e]) as int] != WHITE
}

/// What is being searched from: the vertices on the stack, each once and
/// each with the number of its edges that have been followed; such an edge
/// leads to a vertex that has been seen, and the last of them to the next
/// vertex on the stack.
spec fn frames_ok(g: Seq<Vec<usize>>, color: Seq<u8>, stack: Seq<(usize, usize)>) -> bool {
    &&& forall|i: int| 0 <= i < stack.len()
        ==> (#[trigger] stack[i]).0 < g.len() && stack[i].1 <= g[stack[i].0 as int]@.len()
        && color[stack[i].0 as int] == GREY
    &&& forall|i: int, j: int| 0 <= i < j < stack.len()
        ==> (#[trigger] stack[i]).0 != (#[trigger] stack[j]).0
    &&& forall|v: int| 0 <= v < g.len() && #[trigger] color[v] == GREY
        ==> exists|i: int| 0 <= i < stack.len() && (#[trigger] stack[i]).0 == v
    &&& forall|i: int| 0 <= i < stack.len() - 1
        ==> (#[trigger] stack[i]).1 >= 1 && g[stack[i].0 as int]@[stack[i].1 - 1] == stack[i + 1].0
    &&& forall|i: int, e: int| 0 <= i < stack.len() && 0 <= e < stack[i].1
        ==> color[(#[trigger] g[stack[i].0 as int]@[e]) as int] != WHITE
}

/// Whether `x` and a vertex that is being searched from reach each other.
spec fn anchored(g: Seq<Vec<usize>>, color: Seq<u8>, x: int) -> bool {
    exists|h: int| 0 <= h < g.len() && color[h] == GREY && #[trigger] mutual(g, x, h)
}

/// Whether `order[a]` and a vertex at or behind the place `b` reach each
/// other.
pub open spec fn covered(g: Seq<Vec<usize>>, order: Seq<usize>, a: int, b: int) -> bool {
    exists|c: int| b <= c < order.len() && #[trigger] mutual(g, order[a] as int, order[c] as int)
}

/// What the order of the vertices done with tells: such a vertex that
/// reaches one that is being searched from reaches one of them both ways;
/// and where it reaches another vertex done with, it reaches one both ways
/// that is being searched from, or that stands no earlier than the other.
spec fn linked_ok(g: Seq<Vec<usize>>, color: Seq<u8>, order: Seq<usize>) -> bool {
    &&& forall|a: int, h: int|
        0 <= a < order.len() && 0 <= h < g.len() && color[h] == GREY
            && #[trigger] reaches(g, order[a] as int, h) ==> anchored(g, color, order[a] as int)
    &&& forall|a: int, b: int|
        0 <= a < order.len() && 0 <= b < order.len()
            && #[trigger] reaches(g, order[a] as int, order[b] as int)
            ==> anchored(g, color, order[a] as int) || covered(g, order, a, b)
}

/// An order of all vertices in which, whenever a vertex reaches another, it
/// reaches one both ways that stands no earlier than the other.
pub open spec fn ordered(g: Seq<Vec<usize>>, order: Seq<usize>) -> bool {
    &&& forall|a: int| 0 <= a < order.len() ==> (#[trigger] order[a]) < g.len()
    &&& forall|a: int, b: int| 0 <= a < b < order.len()
        ==> #[trigger] order[a] != #[trigger] order[b]
    &&& forall|v: int| 0 <= v < g.len() ==> #[trigger] listed(order, v)
    &&& forall|a: int, b: int|
        0 <= a < order.len() && 0 <= b < order.len()
            && #[trigger] reaches(g, order[a] as int, order[b] as int) ==> covered(g, order, a, b)
}

/// A path from a vertex that is done with to one that is not comes by a
/// vertex that is being searched from.
proof fn lemma_hits_grey(g: Seq<Vec<usize>>, color: Seq<u8>, order: Seq<usize>,
    p: Seq<int>) -> (h: int)
    requires
        finished_ok(g, color, order),
        is_path(g, p),
        color[p[0]] == BLACK,
        color[p.last()] != BLACK,
    ensures
        0 <= h < g.len(),
        color[h] == GREY,
        reaches(g, p[0], h),
    decreases p.len(),
{
    assert(0 <= p[0] < g.len());
    assert(0 <= p[p.len() - 1] < g.len());
    let q = p.drop_last();
    assert(p.len() >= 2);
    assert forall|i: int| 0 <= i < q.len() - 1 implies has_edge(g, #[trigger] q[i], q[i + 1]) by {
        assert(q[i] == p[i] && q[i + 1] == p[i + 1]);
    }
    assert(is_path(g, q));
    assert(q[0] == p[0]);
    let x = q.last();
    assert(x == p[p.len() - 2]);
    if color[x] != BLACK {
        lemma_hits_grey(g, color, order, q)
    } else {
        assert(has_edge(g, p[p.len() - 2], p[p.len() - 2 + 1]));
        let e = choose|e: int| 0 <= e < g[x]@.len() && #[trigger] g[x]@[e] == p.last();
        assert(color[g[x]@[e] as int] != WHITE);
        assert(color[p.last()] <= BLACK);
        p.last()
    }
}

/// A vertex on the stack reaches those above it.
proof fn lemma_stack_path(g: Seq<Vec<usize>>, color: Seq<u8>, stack: Seq<(usize, usize)>, i: int,
    j: int)
    requires
        graph_ok(g),
        frames_ok(g, color, stack),
        0 <= i <= j < stack.len(),
    ensures
        reaches(g, stack[i].0 as int, stack[j].0 as int),
    decreases j - i,
{
    if i == j {
        lemma_reach_self(g, stack[i].0 as int);
    } else {
        lemma_stack_path(g, color, stack, i, j - 1);
        let x = stack[j - 1].0 as int;
        assert(g[x]@[stack[j - 1].1 - 1] == stack[j - 1 + 1].0);
        assert(has_edge(g, x, stack[j].0 as int));
        lemma_reach_edge(g, stack[i].0 as int, x, stack[j].0 as int);
    }
}

/// A vertex that is anchored stays so when a vertex that was not seen is
/// searched from.
proof fn lemma_anchor_kept(g: Seq<Vec<usize>>, color: Seq<u8>, x: int, y: int)
    requires
        anchored(g, color, x),
        0 <= y < color.len(),
        color.len() == g.len(),
        color[y] == WHITE,
    ensures
        anchored(g, color.update(y, GREY), x),
{
    let h = choose|h: int| 0 <= h < g.len() && color[h] == GREY && #[trigger] mutual(g, x, h);
    assert(color.update(y, GREY)[h] == GREY && mutual(g, x, h));
}

/// The order tells as much as before when a vertex that was not seen is
/// searched from.
proof fn lemma_discover(g: Seq<Vec<usize>>, color: Seq<u8>, order: Seq<usize>, y: int)
    requires
        finished_ok(g, color, order),
        linked_ok(g, color, order),
        0 <= y < g.len(),
        color[y] == WHITE,
    ensures
        linked_ok(g, color.update(y, GREY), order),
        finished_ok(g, color.update(y, GREY), order),
{
    let next = color.update(y, GREY);
    assert forall|a: int, h: int|
        0 <= a < order.len() && 0 <= h < g.len() && next[h] == GREY
            && #[trigger] reaches(g, order[a] as int, h)
            implies anchored(g, next, order[a] as int) by {
        let x = order[a] as int;
        if h != y {
            assert(color[h] == GREY);
            lemma_anchor_kept(g, color, x, y);
        } else {
            let p = choose|p: Seq<int>| #[trigger] is_path(g, p) && p[0] == x && p.last() == y;
            let h0 = lemma_hits_grey(g, color, order, p);
            assert(reaches(g, order[a] as int, h0));
            lemma_anchor_kept(g, color, x, y);
        }
    }
    assert forall|a: int, b: int|
        0 <= a < order.len() && 0 <= b < order.len()
            && #[trigger] reaches(g, order[a] as int, order[b] as int)
            implies anchored(g, next, order[a] as int) || covered(g, order, a, b) by {
        if anchored(g, color, order[a] as int) {
            lemma_anchor_kept(g, color, order[a] as int, y);
        }
    }
    assert forall|v: int| 0 <= v < g.len() && #[trigger] next[v] == BLACK
        implies exists|a: int| 0 <= a < order.len() && #[trigger] order[a] == v by {
        assert(color[v] == BLACK);
    }
    assert forall|v: int, e: int| 0 <= v < g.len() && next[v] == BLACK && 0 <= e < g[v]@.len()
        implies next[(#[trigger] g[v]@[e]) as int] != WHITE by {
        assert(color[v] == BLACK);
        assert(g[v]@[e] < g.len());
        assert(color[g[v]@[e] as int] != WHITE);
    }
}

/// A vertex that was anchored is so still when the vertex on top of the
/// stack is done with, unless the two reach each other.
proof fn lemma_anchor_after(g: Seq<Vec<usize>>, color: Seq<u8>, x: int, t: int)
    requires
        anchored(g, color, x),
        0 <= t < color.len(),
        color.len() == g.len(),
    ensures
        anchored(g, color.update(t, BLACK), x) || mutual(g, x, t),
{
    let h = choose|h: int| 0 <= h < g.len() && color[h] == GREY && #[trigger] mutual(g, x, h);
    if h != t {
        assert(color.update(t, BLACK)[h] == GREY && mutual(g, x, h));
    }
}

/// The order tells what it has to when the vertex on top of the stack is
/// done with and put at its end.
proof fn lemma_finish_linked(
    g: Seq<Vec<usize>>,
    color: Seq<u8>,
    stack: Seq<(usize, usize)>,
    order: Seq<usize>,
)
    requires
        finished_ok(g, color, order),
        frames_ok(g, color, stack),
        linked_ok(g, color, order),
        stack.len() > 0,
    ensures
        linked_ok(g, color.update(stack.last().0 as int, BLACK), order.push(stack.last().0)),
{
    let top = stack.len() - 1;
    let t = stack[top].0 as int;
    let next = color.update(t, BLACK);
    let more = order.push(t as usize);
    let at = order.len() as int;
    lemma_reach_self(g, t);
    assert forall|a: int, h: int|
        0 <= a < more.len() && 0 <= h < g.len() && next[h] == GREY
            && #[trigger] reaches(g, more[a] as int, h)
            implies anchored(g, next, more[a] as int) by {
        let x = more[a] as int;
        assert(color[h] == GREY);
        let i = choose|i: int| 0 <= i < stack.len() && (#[trigger] stack[i]).0 == h;
        lemma_stack_path(g, color, stack, i, top);
        if a == at {
            assert(mutual(g, x, h));
        } else {
            assert(more[a] == order[a]);
            assert(reaches(g, order[a] as int, h));
            lemma_anchor_after(g, color, x, t);
            if !anchored(g, next, x) {
                lemma_reach_trans(g, h, t, x);
                assert(mutual(g, x, h));
            }
        }
    }
    assert forall|a: int, b: int|
        0 <= a < more.len() && 0 <= b < more.len()
            && #[trigger] reaches(g, more[a] as int, more[b] as int)
            implies anchored(g, next, more[a] as int) || covered(g, more, a, b) by {
        let x = more[a] as int;
        if a == at {
            assert(mutual(g, more[a] as int, more[at] as int));
        } else {
            assert(more[a] == order[a]);
            if b == at {
                assert(reaches(g, order[a] as int, t));
            } else {
                assert(more[b] == order[b]);
                assert(reaches(g, order[a] as int, order[b] as int));
            }
            if anchored(g, color, x) {
                lemma_anchor_after(g, color, x, t);
                if !anchored(g, next, x) {
                    assert(mutual(g, more[a] as int, more[at] as int));
                }
            } else {
                let c = choose|c: int| b <= c < order.len()
                    && #[trigger] mutual(g, order[a] as int, order[c] as int);
                assert(more[c] == order[c]);
                assert(mutual(g, more[a] as int, more[c] as int));
            }
        }
    }
}

/// The vertex on top of the stack, with all its edges followed, is done
/// with: it leaves the stack and comes to the end of the order.
proof fn lemma_finish_frames(
    g: Seq<Vec<usize>>,
    color: Seq<u8>,
    stack: Seq<(usize, usize)>,
    order: Seq<usize>,
)
    requires
        finished_ok(g, color, order),
        frames_ok(g, color, stack),
        stack.len() > 0,
        stack.last().1 == g[stack.last().0 as int]@.len(),
    ensures
        finished_ok(g, color.update(stack.last().0 as int, BLACK), order.push(stack.last().0)),
        frames_ok(g, color.update(stack.last().0 as int, BLACK), stack.drop_last()),
{
    let top = stack.len() - 1;
    let t = stack[top].0 as int;
    let next = color.update(t, BLACK);
    let more = order.push(t as usize);
    let rest = stack.drop_last();
    assert forall|a: int, b: int| 0 <= a < b < more.len()
        implies #[trigger] more[a] != #[trigger] more[b] by {
        assert(more[a] == order[a]);
        if b < order.len() {
            assert(more[b] == order[b]);
        }
    }
    assert forall|v: int| 0 <= v < g.len() && #[trigger] next[v] == BLACK
        implies exists|a: int| 0 <= a < more.len() && #[trigger] more[a] == v by {
        if v == t {
            assert(more[order.len() as int] == v);
        } else {
            assert(color[v] == BLACK);
            let a = choose|a: int| 0 <= a < order.len() && #[trigger] order[a] == v;
            assert(more[a] == v);
        }
    }
    assert forall|v: int, e: int| 0 <= v < g.len() && next[v] == BLACK && 0 <= e < g[v]@.len()
        implies next[(#[trigger] g[v]@[e]) as int] != WHITE by {
        assert(g[v]@[e] < g.len());
        if v == t {
            assert(color[g[stack[top].0 as int]@[e] as int] != WHITE);
        } else {
            assert(color[v] == BLACK);
            assert(color[g[v]@[e] as int] != WHITE);
        }
    }
    assert forall|i: int| 0 <= i < rest.len()
        implies (#[trigger] rest[i]).0 < g.len() && rest[i].1 <= g[rest[i].0 as int]@.len()
        && next[rest[i].0 as int] == GREY by {
        assert(rest[i] == stack[i]);
        assert(stack[i].0 != stack[top].0);
    }
    assert forall|v: int| 0 <= v < g.len() && #[trigger] next[v] == GREY
        implies exists|i: int| 0 <= i < rest.len() && (#[trigger] rest[i]).0 == v by {
        assert(color[v] == GREY);
        let i = choose|i: int| 0 <= i < stack.len() && (#[trigger] stack[i]).0 == v;
        assert(rest[i] == stack[i]);
    }
    assert forall|i: int| 0 <= i < rest.len() - 1
        implies (#[trigger] rest[i]).1 >= 1
        && g[rest[i].0 as int]@[rest[i].1 - 1] == rest[i + 1].0 by {
        assert(rest[i] == stack[i] && rest[i + 1] == stack[i + 1]);
    }
    assert forall|i: int, e: int| 0 <= i < rest.len() && 0 <= e < rest[i].1
        implies next[(#[trigger] g[rest[i].0 as int]@[e]) as int] != WHITE by {
        assert(rest[i] == stack[i]);
        assert(g[stack[i].0 as int]@[e] < g.len());
        assert(color[g[stack[i].0 as int]@[e] as int] != WHITE);
    }
    assert forall|i: int, j: int| 0 <= i < j < rest.len()
        implies (#[trigger] rest[i]).0 != (#[trigger] rest[j]).0 by {
        assert(rest[i] == stack[i] && rest[j] == stack[j]);
    }
}

/// One more edge of the vertex on top of the stack is followed, to a vertex
/// that has been seen.
proof fn lemma_advance(g: Seq<Vec<usize>>, color: Seq<u8>, stack: Seq<(usize, usize)>)
    requires
        graph_ok(g),
        color.len() == g.len(),
        frames_ok(g, color, stack),
        stack.len() > 0,
        stack.last().1 < g[stack.last().0 as int]@.len(),
        color[g[stack.last().0 as int]@[stack.last().1 as int] as int] != WHITE,
    ensures
        frames_ok(
            g,
            color,
            stack.update(stack.len() - 1, (stack.last().0, (stack.last().1 + 1) as usize)),
        ),
{
    let top = stack.len() - 1;
    let next = stack.update(top, (stack[top].0, (stack[top].1 + 1) as usize));
    assert forall|i: int| 0 <= i < next.len()
        implies (#[trigger] next[i]).0 < g.len() && next[i].1 <= g[next[i].0 as int]@.len()
        && color[next[i].0 as int] == GREY by {
        assert(next[i].0 == stack[i].0);
    }
    assert forall|i: int, j: int| 0 <= i < j < next.len()
        implies (#[trigger] next[i]).0 != (#[trigger] next[j]).0 by {
        assert(next[i].0 == stack[i].0 && next[j].0 == stack[j].0);
    }
    assert forall|v: int| 0 <= v < g.len() && #[trigger] color[v] == GREY
        implies exists|i: int| 0 <= i < next.len() && (#[trigger] next[i]).0 == v by {
        let i = choose|i: int| 0 <= i < stack.len() && (#[trigger] stack[i]).0 == v;
        assert(next[i].0 == v);
    }
    assert forall|i: int| 0 <= i < next.len() - 1
        implies (#[trigger] next[i]).1 >= 1
        && g[next[i].0 as int]@[next[i].1 - 1] == next[i + 1].0 by {
        assert(next[i] == stack[i] && next[i + 1].0 == stack[i + 1].0);
    }
    assert forall|i: int, e: int| 0 <= i < next.len() && 0 <= e < next[i].1
        implies color[(#[trigger] g[next[i].0 as int]@[e]) as int] != WHITE by {
        assert(next[i].0 == stack[i].0);
        if i == top && e == stack[top].1 {
        } else {
            assert(color[g[stack[i].0 as int]@[e] as int] != WHITE);
        }
    }
}

/// The stack once the vertex on top of it has followed one more edge.
spec fn stepped(stack: Seq<(usize, usize)>) -> Seq<(usize, usize)> {
    if stack.len() > 0 {
        stack.update(stack.len() - 1, (stack.last().0, (stack.last().1 + 1) as usize))
    } else {
        stack
    }
}

/// A vertex that has not been seen comes on top of the stack: as the first
/// there, or over the next edge of the vertex that was on top.
proof fn lemma_enter(g: Seq<Vec<usize>>, color: Seq<u8>, stack: Seq<(usize, usize)>, y: int)
    requires
        graph_ok(g),
        color.len() == g.len(),
        frames_ok(g, color, stack),
        0 <= y < g.len(),
        g.len() <= usize::MAX,
        color[y] == WHITE,
        stack.len() > 0 ==> stack.last().1 < usize::MAX
            && stack.last().1 < g[stack.last().0 as int]@.len()
            && g[stack.last().0 as int]@[stack.last().1 as int] == y,
    ensures
        frames_ok(g, color.update(y, GREY), stepped(stack).push((y as usize, 0))),
{
    let tint = color.update(y, GREY);
    let base = stepped(stack);
    let next = base.push((y as usize, 0));
    let top = stack.len() as int;
    assert forall|i: int| 0 <= i < next.len()
        implies (#[trigger] next[i]).0 < g.len() && next[i].1 <= g[next[i].0 as int]@.len()
        && tint[next[i].0 as int] == GREY by {
        if i < top {
            assert(next[i].0 == stack[i].0);
        }
    }
    assert forall|i: int, j: int| 0 <= i < j < next.len()
        implies (#[trigger] next[i]).0 != (#[trigger] next[j]).0 by {
        assert(next[i].0 == stack[i].0);
        if j < top {
            assert(next[j].0 == stack[j].0);
        }
    }
    assert forall|v: int| 0 <= v < g.len() && #[trigger] tint[v] == GREY
        implies exists|i: int| 0 <= i < next.len() && (#[trigger] next[i]).0 == v by {
        if v == y {
            assert(next[top].0 == v);
        } else {
            assert(color[v] == GREY);
            let i = choose|i: int| 0 <= i < stack.len() && (#[trigger] stack[i]).0 == v;
            assert(next[i].0 == v);
        }
    }
    assert forall|i: int| 0 <= i < next.len() - 1
        implies (#[trigger] next[i]).1 >= 1
        && g[next[i].0 as int]@[next[i].1 - 1] == next[i + 1].0 by {
        if i + 1 < top {
            assert(next[i] == stack[i]);
            assert(next[i + 1].0 == stack[i + 1].0);
        } else {
            assert(next[i] == base[i]);
            assert(base[i] == (stack[i].0, (stack[i].1 + 1) as usize));
            assert(stack[i] == stack.last());
            assert(next[i + 1] == (y as usize, 0usize));
        }
    }
    assert forall|i: int, e: int| 0 <= i < next.len() && 0 <= e < next[i].1
        implies tint[(#[trigger] g[next[i].0 as int]@[e]) as int] != WHITE by {
        assert(next[i].0 == stack[i].0);
        assert(g[stack[i].0 as int]@[e] < g.len());
        if i == top - 1 && e == stack[i].1 {
        } else {
            assert(color[g[stack[i].0 as int]@[e] as int] != WHITE);
        }
    }
}

/// The vertices of one colour.
spec fn having(color: Seq<u8>, c: u8) -> Set<int> {
    Set::new(|v: int| 0 <= v < color.len() && color[v] == c)
}

/// There are finitely many vertices of a colour, and one fewer once one of
/// them has another colour; of a third colour there are as many as before.
proof fn lemma_recolor(color: Seq<u8>, y: int, c: u8, other: u8)
    requires
        0 <= y < color.len(),
        color[y] != c,
        other != c,
    ensures
        having(color, other).finite(),
        having(color.update(y, c), other).finite(),
        color[y] == other ==> having(color.update(y, c), other).len() + 1 == having(color,
            other).len(),
        color[y] != other ==> having(color.update(y, c), other).len() == having(color, other).len(),
{
    let all = vstd::set_lib::set_int_range(0, color.len() as int);
    vstd::set_lib::lemma_int_range(0, color.len() as int);
    vstd::set_lib::lemma_len_subset(having(color, other), all);
    vstd::set_lib::lemma_len_subset(having(color.update(y, c), other), all);
    if color[y] == other {
        assert(having(color.update(y, c), other) =~= having(color, other).remove(y));
    } else {
        assert(having(color.update(y, c), other) =~= having(color, other));
    }
}

/// The vertices in the order in which a search through the graph, which
/// goes on from a vertex before it goes back, is done with them.
fn post_order(edges: &[Vec<usize>]) -> (r: Vec<usize>)
    requires
        graph_ok(edges@),
    ensures
        ordered(edges@, r@),
{
    let ghost g = edges@;
    let n = edges.len();
    let mut color: Vec<u8> = Vec::new();
    let mut i: usize = 0;
    while i < n
        invariant
            i <= n,
            color@.len() == i,
            forall|v: int| 0 <= v < i ==> #[trigger] color@[v] == WHITE,
        decreases n - i,
    {
        color.push(WHITE);
        i += 1;
    }
    let mut order: Vec<usize> = Vec::new();
    let mut stack: Vec<(usize, usize)> = Vec::new();
    let mut root: usize = 0;
    while root < n
        invariant
            g == edges@,
            n == g.len(),
            root <= n,
            stack@.len() == 0,
            finished_ok(g, color@, order@),
            frames_ok(g, color@, stack@),
            linked_ok(g, color@, order@),
            forall|v: int| 0 <= v < root ==> #[trigger] color@[v] != WHITE,
        decreases n - root,
    {
        if color[root] == WHITE {
            proof {
                lemma_enter(g, color@, stack@, root as int);
                lemma_discover(g, color@, order@, root as int);
            }
            color.set(root, GREY);
            stack.push((root, 0));
            while stack.len() > 0
                invariant
                    g == edges@,
                    n == g.len(),
                    root < n,
                    finished_ok(g, color@, order@),
                    frames_ok(g, color@, stack@),
                    linked_ok(g, color@, order@),
                    forall|v: int| 0 <= v <= root ==> #[trigger] color@[v] != WHITE,
                decreases
                        having(color@, WHITE).len(),
                        having(color@, GREY).len(),
                        if stack@.len() > 0 {
                            g[stack@.last().0 as int]@.len() - stack@.last().1
                        } else {
                            0
                        },
            {
                let top = stack.len() - 1;
                let x = stack[top].0;
                let e = stack[top].1;
                assert(stack@[top as int] == stack@.last());
                if e < edges[x].len() {
                    let y = edges[x][e];
                    assert(g[x as int]@[e as int] < g.len());
                    proof {
                        if color@[y as int] != WHITE {
                            lemma_advance(g, color@, stack@);
                        } else {
                            lemma_enter(g, color@, stack@, y as int);
                            lemma_discover(g, color@, order@, y as int);
                            lemma_recolor(color@, y as int, GREY, WHITE);
                        }
                    }
                    stack.set(top, (x, e + 1));
                    if color[y] == WHITE {
                        color.set(y, GREY);
                        stack.push((y, 0));
                    }
                } else {
                    proof {
                        lemma_finish_linked(g, color@, stack@, order@);
                        lemma_finish_frames(g, color@, stack@, order@);
                        lemma_recolor(color@, x as int, BLACK, WHITE);
                        lemma_recolor(color@, x as int, BLACK, GREY);
                        assert(stack@.drop_last() =~= stack@.subrange(0, stack@.len() - 1));
                    }
                    stack.pop();
                    color.set(x, BLACK);
                    order.push(x);
                }
            }
        }
        root += 1;
    }
    proof {
        assert forall|v: int| 0 <= v < g.len() implies #[trigger] listed(order@, v) by {
            assert(color@[v] != WHITE);
            if color@[v] == GREY {
                let i = choose|i: int| 0 <= i < stack@.len() && (#[trigger] stack@[i]).0 == v;
            }
            assert(color@[v] == BLACK);
        }
        assert forall|a: int, b: int|
            0 <= a < order@.len() && 0 <= b < order@.len()
                && #[trigger] reaches(g, order@[a] as int, order@[b] as int)
                implies covered(g, order@, a, b) by {
            if anchored(g, color@, order@[a] as int) {
                let h = choose|h: int| 0 <= h < g.len() && color@[h] == GREY
                    && #[trigger] mutual(g, order@[a] as int, h);
                let i = choose|i: int| 0 <= i < stack@.len() && (#[trigger] stack@[i]).0 == h;
            }
        }
    }
    order
}

/// `rev` holds the edges of `g` turned round.
spec fn reversed(g: Seq<Vec<usize>>, rev: Seq<Vec<usize>>) -> bool {
    &&& rev.len() == g.len()
    &&& forall|j: int, k: int|
        0 <= j < rev.len() && 0 <= k < rev[j]@.len()
            ==> (#[trigger] rev[j]@[k]) < g.len() && has_edge(g, rev[j]@[k] as int, j)
    &&& forall|i: int, e: int| 0 <= i < g.len() && 0 <= e < g[i]@.len()
        ==> has_edge(rev, (#[trigger] g[i]@[e]) as int, i)
}

/// `rev` holds, turned round, the edges of the first `i` vertices of `g` and
/// the first `e` edges of the next, and no others.
spec fn reversed_upto(g: Seq<Vec<usize>>, rev: Seq<Vec<usize>>, i: int, e: int) -> bool {
    &&& rev.len() == g.len()
    &&& forall|j: int, k: int|
        0 <= j < rev.len() && 0 <= k < rev[j]@.len()
            ==> (#[trigger] rev[j]@[k]) < g.len() && has_edge(g, rev[j]@[k] as int, j)
    &&& forall|a: int, b: int|
        0 <= a < g.len() && 0 <= b < g[a]@.len() && (a < i || (a == i && b < e))
            ==> has_edge(rev, (#[trigger] g[a]@[b]) as int, a)
}

/// One more edge is turned round.
proof fn lemma_turn(g: Seq<Vec<usize>>, rev: Seq<Vec<usize>>, i: int, e: int, row: Vec<usize>)
    requires
        graph_ok(g),
        reversed_upto(g, rev, i, e),
        0 <= i < g.len(),
        0 <= e < g[i]@.len(),
        row@ == rev[g[i]@[e] as int]@.push(i as usize),
        g.len() <= usize::MAX,
    ensures
        reversed_upto(g, rev.update(g[i]@[e] as int, row), i, e + 1),
{
    let j0 = g[i]@[e] as int;
    assert(g[i]@[e] < g.len());
    let next = rev.update(j0, row);
    assert forall|j: int, k: int|
        0 <= j < next.len() && 0 <= k < next[j]@.len()
            implies (#[trigger] next[j]@[k]) < g.len() && has_edge(g, next[j]@[k] as int, j) by {
        if j == j0 && k == rev[j0]@.len() {
            assert(g[i]@[e] == j);
        } else {
            assert(next[j]@[k] == rev[j]@[k]);
        }
    }
    assert forall|a: int, b: int|
        0 <= a < g.len() && 0 <= b < g[a]@.len() && (a < i || (a == i && b < e + 1))
            implies has_edge(next, (#[trigger] g[a]@[b]) as int, a) by {
        let j = g[a]@[b] as int;
        assert(g[a]@[b] < g.len());
        if a == i && b == e {
            assert(next[j]@[rev[j0]@.len() as int] == a);
        } else {
            assert(has_edge(rev, j, a));
            let k = choose|k: int| 0 <= k < rev[j]@.len() && #[trigger] rev[j]@[k] == a;
            assert(next[j]@[k] == a);
        }
    }
}

/// The graph with its edges turned round.
fn transpose(edges: &[Vec<usize>]) -> (rev: Vec<Vec<usize>>)
    requires
        graph_ok(edges@),
    ensures
        reversed(edges@, rev@),
{
    let ghost g = edges@;
    let n = edges.len();
    let mut rev: Vec<Vec<usize>> = Vec::new();
    let mut i: usize = 0;
    while i < n
        invariant
            i <= n,
            rev@.len() == i,
            forall|j: int| 0 <= j < i ==> (#[trigger] rev@[j])@.len() == 0,
        decreases n - i,
    {
        rev.push(Vec::new());
        i += 1;
    }
    i = 0;
    while i < n
        invariant
            g == edges@,
            n == g.len(),
            graph_ok(g),
            i <= n,
            reversed_upto(g, rev@, i as int, 0),
        decreases n - i,
    {
        let row = &edges[i];
        let mut e: usize = 0;
        while e < row.len()
            invariant
                g == edges@,
                n == g.len(),
                graph_ok(g),
                i < n,
                *row == g[i as int],
                e <= row@.len(),
                reversed_upto(g, rev@, i as int, e as int),
            decreases row@.len() - e,
        {
            let j = row[e];
            assert(g[i as int]@[e as int] < g.len());
            let ghost before = rev@;
            rev[j].push(i);
            proof {
                assert(rev@ =~= before.update(j as int, rev@[j as int]));
                lemma_turn(g, before, i as int, e as int, rev@[j as int]);
            }
            e += 1;
        }
        i += 1;
    }
    rev
}

/// Whether `v` is in one of the `parts`.
pub open spec fn placed(parts: Seq<Vec<usize>>, v: int) -> bool {
    exists|c: int| 0 <= c < parts.len() && #[trigger] listed(parts[c]@, v)
}

/// The parts hold vertices of the graph, none twice, none of them is empty,
/// and two vertices are in one part where they reach each other, and there
/// only.
pub open spec fn parted(g: Seq<Vec<usize>>, parts: Seq<Vec<usize>>) -> bool {
    &&& forall|c: int| 0 <= c < parts.len() ==> (#[trigger] parts[c])@.len() > 0
    &&& forall|c: int, j: int| 0 <= c < parts.len() && 0 <= j < parts[c]@.len()
        ==> (#[trigger] parts[c]@[j]) < g.len()
    &&& forall|c: int, j: int, d: int, k: int|
        0 <= c < parts.len() && 0 <= j < parts[c]@.len() && 0 <= d < parts.len()
            && 0 <= k < parts[d]@.len() ==> {
            &&& (#[trigger] parts[c]@[j]) == (#[trigger] parts[d]@[k]) ==> c == d && j == k
            &&& mutual(g, parts[c]@[j] as int, parts[d]@[k] as int) <==> c == d
        }
}

/// The parts are the strongly connected components of the graph: every
/// vertex is in one of them, once, and two vertices are in one part where
/// they reach each other, and there only.
pub open spec fn components(g: Seq<Vec<usize>>, parts: Seq<Vec<usize>>) -> bool {
    &&& parted(g, parts)
    &&& forall|v: int| 0 <= v < g.len() ==> #[trigger] placed(parts, v)
}

/// What is known between two parts: the marked vertices are those in the
/// parts, a vertex that reaches a marked one both ways is marked, and so is
/// every vertex from the place `from` of the order on.
spec fn swept(g: Seq<Vec<usize>>, order: Seq<usize>, parts: Seq<Vec<usize>>, flag: Seq<bool>,
    from: int) -> bool {
    &&& flag.len() == g.len()
    &&& forall|v: int| 0 <= v < g.len() ==> (#[trigger] flag[v] <==> placed(parts, v))
    &&& forall|u: int, w: int| 0 <= u < g.len() && 0 <= w < g.len() && flag[u]
        && #[trigger] mutual(g, u, w) ==> flag[w]
    &&& forall|p: int| from <= p < order.len() ==> flag[(#[trigger] order[p]) as int]
}

/// What is known while a part is gathered from `v`: its vertices were not
/// marked and are now, each once, and each reaches `v`; nothing else has
/// been marked; and whatever has an edge to one of the first `head` of them
/// is marked.
spec fn gathered(
    g: Seq<Vec<usize>>,
    rev: Seq<Vec<usize>>,
    was: Seq<bool>,
    flag: Seq<bool>,
    comp: Seq<usize>,
    v: int,
    head: int,
) -> bool {
    &&& flag.len() == g.len()
    &&& was.len() == g.len()
    &&& comp.len() > 0
    &&& comp[0] == v
    &&& 0 <= head <= comp.len()
    &&& forall|j: int|
        0 <= j < comp.len() ==> (#[trigger] comp[j]) < g.len() && !was[comp[j] as int]
            && flag[comp[j] as int] && reaches(g, comp[j] as int, v)
    &&& forall|j: int, k: int| 0 <= j < k < comp.len() ==> #[trigger] comp[j] != #[trigger] comp[k]
    &&& forall|u: int| 0 <= u < g.len() ==> (#[trigger] flag[u] <==> was[u] || listed(comp, u))
    &&& forall|j: int, e: int|
        0 <= j < head && 0 <= e < rev[comp[j] as int]@.len()
            ==> flag[(#[trigger] rev[comp[j] as int]@[e]) as int]
}

/// The vertices that are not marked.
spec fn unmarked(flag: Seq<bool>) -> Set<int> {
    Set::new(|v: int| 0 <= v < flag.len() && !flag[v])
}

/// There are finitely many vertices that are not marked, and one fewer once
/// one of them is marked.
proof fn lemma_mark(flag: Seq<bool>, u: int)
    requires
        0 <= u < flag.len(),
        !flag[u],
    ensures
        unmarked(flag).finite(),
        unmarked(flag.update(u, true)).finite(),
        unmarked(flag.update(u, true)).len() + 1 == unmarked(flag).len(),
{
    let all = vstd::set_lib::set_int_range(0, flag.len() as int);
    vstd::set_lib::lemma_int_range(0, flag.len() as int);
    vstd::set_lib::lemma_len_subset(unmarked(flag), all);
    vstd::set_lib::lemma_len_subset(unmarked(flag.update(u, true)), all);
    assert(unmarked(flag.update(u, true)) =~= unmarked(flag).remove(u));
}

/// A part is begun with a vertex that is not marked.
proof fn lemma_gather_first(g: Seq<Vec<usize>>, rev: Seq<Vec<usize>>, was: Seq<bool>, v: int)
    requires
        was.len() == g.len(),
        0 <= v < g.len(),
        g.len() <= usize::MAX,
        !was[v],
    ensures
        gathered(g, rev, was, was.update(v, true), seq![v as usize], v, 0),
{
    let flag = was.update(v, true);
    let comp = seq![v as usize];
    lemma_reach_self(g, v);
    assert forall|u: int| 0 <= u < g.len() implies (#[trigger] flag[u]
        <==> was[u] || listed(comp, u)) by {
        if u == v {
            assert(comp[0] == u);
        }
    }
}

/// A vertex that is not marked and has an edge to a vertex of the part
/// comes to the part.
proof fn lemma_gather_more(
    g: Seq<Vec<usize>>,
    rev: Seq<Vec<usize>>,
    was: Seq<bool>,
    flag: Seq<bool>,
    comp: Seq<usize>,
    v: int,
    head: int,
    e: int,
)
    requires
        reversed(g, rev),
        gathered(g, rev, was, flag, comp, v, head),
        head < comp.len(),
        0 <= e < rev[comp[head] as int]@.len(),
        !flag[rev[comp[head] as int]@[e] as int],
    ensures
        gathered(
            g,
            rev,
            was,
            flag.update(rev[comp[head] as int]@[e] as int, true),
            comp.push(rev[comp[head] as int]@[e]),
            v,
            head,
        ),
{
    let k = comp[head] as int;
    let u = rev[k]@[e] as int;
    let next = flag.update(u, true);
    let more = comp.push(u as usize);
    assert(rev[k]@[e] < g.len() && has_edge(g, rev[k]@[e] as int, k));
    lemma_reach_self(g, u);
    lemma_reach_edge(g, u, u, k);
    lemma_reach_trans(g, u, k, v);
    assert(!was[u]);
    assert forall|j: int|
        0 <= j < more.len() implies (#[trigger] more[j]) < g.len() && !was[more[j] as int]
            && next[more[j] as int] && reaches(g, more[j] as int, v) by {
        if j < comp.len() {
            assert(more[j] == comp[j]);
        }
    }
    assert forall|j: int, k: int| 0 <= j < k < more.len()
        implies #[trigger] more[j] != #[trigger] more[k] by {
        assert(more[j] == comp[j]);
        if k < comp.len() {
            assert(more[k] == comp[k]);
        }
    }
    assert forall|w: int| 0 <= w < g.len() implies (#[trigger] next[w]
        <==> was[w] || listed(more, w)) by {
        if w == u {
            assert(more[comp.len() as int] == w);
        } else {
            if listed(comp, w) {
                let j = choose|j: int| 0 <= j < comp.len() && #[trigger] comp[j] == w;
                assert(more[j] == w);
            }
            if listed(more, w) {
                let j = choose|j: int| 0 <= j < more.len() && #[trigger] more[j] == w;
                assert(comp[j] == w);
            }
        }
    }
    assert forall|j: int, b: int|
        0 <= j < head && 0 <= b < rev[more[j] as int]@.len()
            implies next[(#[trigger] rev[more[j] as int]@[b]) as int] by {
        assert(more[j] == comp[j]);
        assert(rev[comp[j] as int]@[b] < g.len());
        assert(flag[rev[comp[j] as int]@[b] as int]);
    }
}

/// A vertex that was not marked and reaches `order[at]` reaches it both
/// ways, where all vertices behind that place had been marked.
proof fn lemma_meets_root(
    g: Seq<Vec<usize>>,
    order: Seq<usize>,
    parts: Seq<Vec<usize>>,
    was: Seq<bool>,
    at: int,
    a: int,
)
    requires
        0 <= at < order.len(),
        0 <= a < order.len(),
        order[a] < g.len(),
        swept(g, order, parts, was, at + 1),
        !was[order[a] as int],
        covered(g, order, a, at),
        forall|c: int| 0 <= c < order.len() ==> (#[trigger] order[c]) < g.len(),
    ensures
        mutual(g, order[a] as int, order[at] as int),
{
    let c = choose|c: int| at <= c < order.len()
        && #[trigger] mutual(g, order[a] as int, order[c] as int);
    if c > at {
        assert(was[order[c] as int]);
        assert(order[c] < g.len());
        assert(mutual(g, order[c] as int, order[a] as int));
        assert(false);
    }
}

/// Every vertex of a part gathered from `order[at]` reaches it both ways,
/// where all vertices behind that place had been marked before.
proof fn lemma_part_inside(
    g: Seq<Vec<usize>>,
    rev: Seq<Vec<usize>>,
    order: Seq<usize>,
    parts: Seq<Vec<usize>>,
    was: Seq<bool>,
    flag: Seq<bool>,
    comp: Seq<usize>,
    at: int,
    j: int,
)
    requires
        ordered(g, order),
        0 <= at < order.len(),
        swept(g, order, parts, was, at + 1),
        gathered(g, rev, was, flag, comp, order[at] as int, comp.len() as int),
        0 <= j < comp.len(),
    ensures
        mutual(g, comp[j] as int, order[at] as int),
{
    let u = comp[j] as int;
    assert(comp[j] < g.len() && !was[u] && reaches(g, u, order[at] as int));
    assert(listed(order, u));
    let a = choose|a: int| 0 <= a < order.len() && #[trigger] order[a] == u;
    assert(reaches(g, order[a] as int, order[at] as int));
    assert(covered(g, order, a, at));
    lemma_meets_root(g, order, parts, was, at, a);
}

/// A part gathered from `v` holds every vertex on a path to `v` from a
/// vertex that `v` reaches.
proof fn lemma_part_back(
    g: Seq<Vec<usize>>,
    rev: Seq<Vec<usize>>,
    order: Seq<usize>,
    parts: Seq<Vec<usize>>,
    was: Seq<bool>,
    flag: Seq<bool>,
    comp: Seq<usize>,
    v: int,
    from: int,
    p: Seq<int>,
    j: int,
)
    requires
        graph_ok(g),
        reversed(g, rev),
        swept(g, order, parts, was, from),
        gathered(g, rev, was, flag, comp, v, comp.len() as int),
        0 <= v < g.len(),
        !was[v],
        is_path(g, p),
        p.last() == v,
        reaches(g, v, p[0]),
        0 <= j < p.len(),
    ensures
        listed(comp, p[j]),
    decreases p.len() - j,
{
    if j == p.len() - 1 {
        assert(comp[0] == p[j]);
    } else {
        lemma_part_back(g, rev, order, parts, was, flag, comp, v, from, p, j + 1);
        let m = choose|m: int| 0 <= m < comp.len() && #[trigger] comp[m] == p[j + 1];
        assert(0 <= p[j] < g.len());
        assert(has_edge(g, p[j], p[j + 1]));
        let e = choose|e: int| 0 <= e < g[p[j]]@.len() && #[trigger] g[p[j]]@[e] == p[j + 1];
        assert(has_edge(rev, g[p[j]]@[e] as int, p[j]));
        let k = choose|k: int| 0 <= k < rev[p[j + 1]]@.len()
            && #[trigger] rev[p[j + 1]]@[k] == p[j];
        assert(flag[rev[comp[m] as int]@[k] as int]);
        lemma_on_path(g, p, j);
        lemma_reach_trans(g, v, p[0], p[j]);
        if was[p[j]] {
            assert(mutual(g, p[j], v));
            assert(false);
        }
    }
}

/// A part gathered from `v` holds every vertex that reaches `v` both ways.
proof fn lemma_part_whole(
    g: Seq<Vec<usize>>,
    rev: Seq<Vec<usize>>,
    order: Seq<usize>,
    parts: Seq<Vec<usize>>,
    was: Seq<bool>,
    flag: Seq<bool>,
    comp: Seq<usize>,
    v: int,
    from: int,
    w: int,
)
    requires
        graph_ok(g),
        reversed(g, rev),
        swept(g, order, parts, was, from),
        gathered(g, rev, was, flag, comp, v, comp.len() as int),
        0 <= v < g.len(),
        !was[v],
        mutual(g, v, w),
    ensures
        listed(comp, w),
{
    let p = choose|p: Seq<int>| #[trigger] is_path(g, p) && p[0] == w && p.last() == v;
    lemma_part_back(g, rev, order, parts, was, flag, comp, v, from, p, 0);
}

/// With the part gathered from `order[at]`, the parts are parts of the graph
/// still, and all vertices from the place `at` on are marked.
proof fn lemma_part_done(
    g: Seq<Vec<usize>>,
    rev: Seq<Vec<usize>>,
    order: Seq<usize>,
    parts: Seq<Vec<usize>>,
    was: Seq<bool>,
    flag: Seq<bool>,
    comp: Vec<usize>,
    at: int,
)
    requires
        graph_ok(g),
        reversed(g, rev),
        ordered(g, order),
        0 <= at < order.len(),
        parted(g, parts),
        swept(g, order, parts, was, at + 1),
        !was[order[at] as int],
        gathered(g, rev, was, flag, comp@, order[at] as int, comp@.len() as int),
    ensures
        parted(g, parts.push(comp)),
        swept(g, order, parts.push(comp), flag, at),
{
    let v = order[at] as int;
    let more = parts.push(comp);
    let last = parts.len() as int;
    assert(order[at] < g.len());
    assert forall|c: int| 0 <= c < more.len() implies (#[trigger] more[c])@.len() > 0 by {
        if c < last {
            assert(more[c] == parts[c]);
        }
    }
    assert forall|c: int, j: int| 0 <= c < more.len() && 0 <= j < more[c]@.len()
        implies (#[trigger] more[c]@[j]) < g.len() by {
        if c < last {
            assert(more[c] == parts[c]);
            assert(parts[c]@[j] < g.len());
        } else {
            assert(comp@[j] < g.len());
        }
    }
    assert forall|c: int, j: int, d: int, k: int|
        0 <= c < more.len() && 0 <= j < more[c]@.len() && 0 <= d < more.len()
            && 0 <= k < more[d]@.len() implies {
        &&& (#[trigger] more[c]@[j]) == (#[trigger] more[d]@[k]) ==> c == d && j == k
        &&& mutual(g, more[c]@[j] as int, more[d]@[k] as int) <==> c == d
    } by {
        let x = more[c]@[j] as int;
        let y = more[d]@[k] as int;
        if c < last && d < last {
            assert(more[c] == parts[c] && more[d] == parts[d]);
            assert(parts[c]@[j] == x && parts[d]@[k] == y);
        } else if c == last && d == last {
            assert(comp@[j] == x && comp@[k] == y);
            lemma_part_inside(g, rev, order, parts, was, flag, comp@, at, j);
            lemma_part_inside(g, rev, order, parts, was, flag, comp@, at, k);
            lemma_mutual_trans(g, x, v, y);
        } else if c < last {
            assert(more[c] == parts[c]);
            assert(parts[c]@[j] < g.len());
            assert(listed(parts[c]@, x));
            assert(placed(parts, x));
            assert(was[x]);
            assert(comp@[k] == y);
            assert(!was[y]);
        } else {
            assert(more[d] == parts[d]);
            assert(parts[d]@[k] < g.len());
            assert(listed(parts[d]@, y));
            assert(placed(parts, y));
            assert(was[y]);
            assert(comp@[j] == x);
            assert(!was[x]);
            if mutual(g, x, y) {
                assert(mutual(g, y, x));
            }
        }
    }
    assert forall|u: int| 0 <= u < g.len() implies (#[trigger] flag[u] <==> placed(more, u)) by {
        if placed(parts, u) {
            let c = choose|c: int| 0 <= c < parts.len() && #[trigger] listed(parts[c]@, u);
            assert(more[c] == parts[c]);
            assert(listed(more[c]@, u));
        }
        if listed(comp@, u) {
            assert(listed(more[last]@, u));
        }
        if placed(more, u) {
            let c = choose|c: int| 0 <= c < more.len() && #[trigger] listed(more[c]@, u);
            if c < last {
                assert(more[c] == parts[c]);
                assert(listed(parts[c]@, u));
            }
        }
        assert(was[u] <==> placed(parts, u));
    }
    assert forall|u: int, w: int| 0 <= u < g.len() && 0 <= w < g.len() && flag[u]
        && #[trigger] mutual(g, u, w) implies flag[w] by {
        if was[u] {
            assert(was[w]);
        } else {
            assert(listed(comp@, u));
            let j = choose|j: int| 0 <= j < comp@.len() && #[trigger] comp@[j] == u;
            lemma_part_inside(g, rev, order, parts, was, flag, comp@, at, j);
            lemma_mutual_trans(g, v, u, w);
            lemma_part_whole(g, rev, order, parts, was, flag, comp@, v, at + 1, w);
        }
    }
    assert forall|p: int| at <= p < order.len() implies flag[(#[trigger] order[p]) as int] by {
        if p == at {
            assert(comp@[0] == v);
        } else {
            assert(was[order[p] as int]);
        }
    }
}

/// No edge leads from a part to an earlier part.
pub open spec fn forward(g: Seq<Vec<usize>>, parts: Seq<Vec<usize>>) -> bool {
    forall|c: int, j: int, d: int, k: int|
        0 <= c < parts.len() && 0 <= j < parts[c]@.len() && 0 <= d < parts.len()
            && 0 <= k < parts[d]@.len() && has_edge(
            g,
            (#[trigger] parts[c]@[j]) as int,
            (#[trigger] parts[d]@[k]) as int,
        ) ==> c <= d
}

/// Whether `v` is in one of the first `upto` parts.
spec fn placed_upto(parts: Seq<Vec<usize>>, v: int, upto: int) -> bool {
    exists|c: int| 0 <= c < upto && c < parts.len() && #[trigger] listed(parts[c]@, v)
}

/// Each part begins with the vertex it was gathered from, which has its
/// place in the order; the vertices from that place on are in the parts up
/// to that part.
spec fn rooted(order: Seq<usize>, parts: Seq<Vec<usize>>, roots: Seq<int>) -> bool {
    &&& roots.len() == parts.len()
    &&& forall|d: int|
        0 <= d < roots.len() ==> 0 <= #[trigger] roots[d] < order.len() && parts[d]@.len() > 0
            && parts[d]@[0] == order[roots[d]]
    &&& forall|d: int, p: int|
        0 <= d < roots.len() && roots[d] <= p < order.len()
            ==> #[trigger] placed_upto(parts, order[p] as int, d + 1)
}

/// With one more part, gathered from `order[at]`, each part still has its
/// place.
proof fn lemma_rooted(
    g: Seq<Vec<usize>>,
    order: Seq<usize>,
    parts: Seq<Vec<usize>>,
    roots: Seq<int>,
    was: Seq<bool>,
    comp: Vec<usize>,
    at: int,
)
    requires
        rooted(order, parts, roots),
        swept(g, order, parts, was, at + 1),
        0 <= at < order.len(),
        forall|c: int| 0 <= c < order.len() ==> (#[trigger] order[c]) < g.len(),
        comp@.len() > 0,
        comp@[0] == order[at],
    ensures
        rooted(order, parts.push(comp), roots.push(at)),
{
    let more = parts.push(comp);
    let next = roots.push(at);
    let last = parts.len() as int;
    assert forall|d: int|
        0 <= d < next.len() implies 0 <= #[trigger] next[d] < order.len() && more[d]@.len() > 0
            && more[d]@[0] == order[next[d]] by {
        if d < last {
            assert(next[d] == roots[d]);
            assert(more[d] == parts[d]);
        }
    }
    assert forall|d: int, p: int|
        0 <= d < next.len() && next[d] <= p < order.len()
            implies #[trigger] placed_upto(more, order[p] as int, d + 1) by {
        let u = order[p] as int;
        if d < last {
            assert(next[d] == roots[d]);
            assert(placed_upto(parts, u, d + 1));
            let c = choose|c: int| 0 <= c < d + 1 && c < parts.len()
                && #[trigger] listed(parts[c]@, u);
            assert(more[c] == parts[c]);
            assert(listed(more[c]@, u));
        } else if p == at {
            assert(more[last]@[0] == u);
            assert(listed(more[last]@, u));
        } else {
            assert(order[p] < g.len());
            assert(was[order[p] as int]);
            assert(placed(parts, u));
            let c = choose|c: int| 0 <= c < parts.len() && #[trigger] listed(parts[c]@, u);
            assert(more[c] == parts[c]);
            assert(listed(more[c]@, u));
        }
    }
}

/// A vertex of a part does not reach the vertex that an earlier part was
/// gathered from.
proof fn lemma_not_back(
    g: Seq<Vec<usize>>,
    order: Seq<usize>,
    parts: Seq<Vec<usize>>,
    roots: Seq<int>,
    c: int,
    j: int,
    d: int,
)
    requires
        ordered(g, order),
        parted(g, parts),
        rooted(order, parts, roots),
        0 <= d < c < parts.len(),
        0 <= j < parts[c]@.len(),
    ensures
        !reaches(g, parts[c]@[j] as int, order[roots[d]] as int),
{
    let u = parts[c]@[j] as int;
    if reaches(g, u, order[roots[d]] as int) {
        assert(parts[c]@[j] < g.len());
        assert(listed(order, u));
        let a = choose|a: int| 0 <= a < order.len() && #[trigger] order[a] == u;
        assert(reaches(g, order[a] as int, order[roots[d]] as int));
        assert(covered(g, order, a, roots[d]));
        let z = choose|z: int| roots[d] <= z < order.len()
            && #[trigger] mutual(g, order[a] as int, order[z] as int);
        assert(placed_upto(parts, order[z] as int, d + 1));
        let e = choose|e: int| 0 <= e < d + 1 && e < parts.len()
            && #[trigger] listed(parts[e]@, order[z] as int);
        let m = choose|m: int| 0 <= m < parts[e]@.len()
            && #[trigger] parts[e]@[m] == order[z] as int;
        assert(mutual(g, parts[c]@[j] as int, parts[e]@[m] as int));
        assert(false);
    }
}

/// No edge leads from a part to an earlier part, where each part has its
/// place in an order that tells what it has to.
proof fn lemma_forward(g: Seq<Vec<usize>>, order: Seq<usize>, parts: Seq<Vec<usize>>,
    roots: Seq<int>)
    requires
        graph_ok(g),
        ordered(g, order),
        parted(g, parts),
        rooted(order, parts, roots),
    ensures
        forward(g, parts),
{
    assert forall|c: int, j: int, d: int, k: int|
        0 <= c < parts.len() && 0 <= j < parts[c]@.len() && 0 <= d < parts.len()
            && 0 <= k < parts[d]@.len() && has_edge(
            g,
            (#[trigger] parts[c]@[j]) as int,
            (#[trigger] parts[d]@[k]) as int,
        ) implies c <= d by {
        if d < c {
            let u = parts[c]@[j] as int;
            let w = parts[d]@[k] as int;
            assert(parts[c]@[j] < g.len() && parts[d]@[k] < g.len());
            assert(0 <= roots[d] < order.len() && parts[d]@.len() > 0
                && parts[d]@[0] == order[roots[d]]);
            assert(mutual(g, parts[d]@[k] as int, parts[d]@[0] as int));
            lemma_reach_self(g, u);
            lemma_reach_edge(g, u, u, w);
            lemma_reach_trans(g, u, w, order[roots[d]] as int);
            lemma_not_back(g, order, parts, roots, c, j, d);
        }
    }
}

/// The strongly connected components of the graph: the vertices in parts,
/// such that two vertices are in one part where each can be reached from
/// the other, and there only.
pub fn scc(edges: &[Vec<usize>]) -> (r: Vec<Vec<usize>>)
    requires
        graph_ok(edges@),
    ensures
        components(edges@, r@),
        forward(edges@, r@),
{
    let ghost g = edges@;
    let n = edges.len();
    let order = post_order(edges);
    let rev = transpose(edges);
    let mut flag: Vec<bool> = Vec::new();
    let mut i: usize = 0;
    while i < n
        invariant
            i <= n,
            flag@.len() == i,
            forall|v: int| 0 <= v < i ==> !(#[trigger] flag@[v]),
        decreases n - i,
    {
        flag.push(false);
        i += 1;
    }
    let mut parts: Vec<Vec<usize>> = Vec::new();
    let mut at: usize = order.len();
    let ghost mut roots: Seq<int> = Seq::empty();
    proof {
        assert forall|v: int| 0 <= v < g.len() implies (#[trigger] flag@[v]
            <==> placed(parts@, v)) by {
            if placed(parts@, v) {
                let c = choose|c: int| 0 <= c < parts@.len() && #[trigger] listed(parts@[c]@, v);
            }
        }
    }
    while at > 0
        invariant
            g == edges@,
            n == g.len(),
            graph_ok(g),
            reversed(g, rev@),
            ordered(g, order@),
            at <= order@.len(),
            parted(g, parts@),
            swept(g, order@, parts@, flag@, at as int),
            rooted(order@, parts@, roots),
        decreases at,
    {
        at -= 1;
        let v = order[at];
        if !flag[v] {
            let ghost was = flag@;
            let mut comp: Vec<usize> = Vec::new();
            comp.push(v);
            flag.set(v, true);
            proof {
                lemma_gather_first(g, rev@, was, v as int);
                assert(comp@ =~= seq![v]);
                lemma_mark(was, v as int);
            }
            let mut head: usize = 0;
            while head < comp.len()
                invariant
                    g == edges@,
                    n == g.len(),
                    graph_ok(g),
                    reversed(g, rev@),
                    v < n,
                    gathered(g, rev@, was, flag@, comp@, v as int, head as int),
                    unmarked(flag@).finite(),
                decreases unmarked(flag@).len() + comp@.len() - head,
            {
                let k = comp[head];
                let back = &rev[k];
                let ghost start = unmarked(flag@).len() + comp@.len();
                let mut e: usize = 0;
                while e < back.len()
                    invariant
                        g == edges@,
                        n == g.len(),
                        graph_ok(g),
                        reversed(g, rev@),
                        v < n,
                        head < comp@.len(),
                        k == comp@[head as int],
                        *back == rev@[k as int],
                        e <= back@.len(),
                        gathered(g, rev@, was, flag@, comp@, v as int, head as int),
                        forall|b: int| 0 <= b < e ==> flag@[(#[trigger] rev@[k as int]@[b]) as int],
                        unmarked(flag@).finite(),
                        unmarked(flag@).len() + comp@.len() == start,
                    decreases back@.len() - e,
                {
                    let u = back[e];
                    assert(rev@[k as int]@[e as int] < g.len());
                    if !flag[u] {
                        proof {
                            lemma_gather_more(g, rev@, was, flag@, comp@, v as int, head as int,
                                e as int);
                            lemma_mark(flag@, u as int);
                        }
                        let ghost held = flag@;
                        flag.set(u, true);
                        comp.push(u);
                        proof {
                            assert forall|b: int| 0 <= b < e + 1
                                implies flag@[(#[trigger] rev@[k as int]@[b]) as int] by {
                                assert(rev@[k as int]@[b] < g.len());
                                if b < e {
                                    assert(held[rev@[k as int]@[b] as int]);
                                }
                            }
                        }
                    }
                    e += 1;
                }
                proof {
                    assert forall|j: int, b: int|
                        0 <= j < head + 1 && 0 <= b < rev@[comp@[j] as int]@.len()
                            implies flag@[(#[trigger] rev@[comp@[j] as int]@[b]) as int] by {
                        if j == head {
                            assert(flag@[rev@[k as int]@[b] as int]);
                        }
                    }
                }
                head += 1;
            }
            proof {
                lemma_part_done(g, rev@, order@, parts@, was, flag@, comp, at as int);
                lemma_rooted(g, order@, parts@, roots, was, comp, at as int);
                roots = roots.push(at as int);
            }
            parts.push(comp);
        }
    }
    proof {
        assert forall|v: int| 0 <= v < g.len() implies #[trigger] placed(parts@, v) by {
            assert(listed(order@, v));
            let a = choose|a: int| 0 <= a < order@.len() && #[trigger] order@[a] == v;
            assert(flag@[order@[a] as int]);
        }
        lemma_forward(g, order@, parts@, roots);
    }
    parts
}

} // verus!
