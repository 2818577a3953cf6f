//! Topological sorting: the vertices of a directed graph, each behind all
//! vertices that have an edge to it.

use vstd::prelude::*;

verus! {

/// How often `u` is among the first `upto` targets of `row`.
pub open spec fn row_count(row: Seq<usize>, u: int, upto: int) -> nat
    decreases upto,
{
    if upto <= 0 {
        0
    } else {
        row_count(row, u, upto - 1) + if row[upto - 1] == u {
            1nat
        } else {
            0nat
        }
    }
}

/// Number of edges to `u` from those of the first `upto` vertices that are
/// `alive`.
pub open spec fn in_degree(edges: Seq<Vec<usize>>, alive: Seq<bool>, u: int, upto: int) -> nat
    decreases upto,
{
    if upto <= 0 {
        0
    } else {
        in_degree(edges, alive, u, upto - 1) + if alive[upto - 1] {
            row_count(edges[upto - 1]@, u, edges[upto - 1]@.len() as int)
        } else {
            0nat
        }
    }
}

/// Number of edges from the first `upto` vertices.
pub open spec fn edge_count(edges: Seq<Vec<usize>>, upto: int) -> nat
    decreases upto,
{
    if upto <= 0 {
        0
    } else {
        edge_count(edges, upto - 1) + edges[upto - 1]@.len()
    }
}

/// How many of the first `upto` vertices are `alive`.
pub open spec fn alive_count(alive: Seq<bool>, upto: int) -> nat
    decreases upto,
{
    if upto <= 0 {
        0
    } else {
        alive_count(alive, upto - 1) + if alive[upto - 1] {
            1nat
        } else {
            0nat
        }
    }
}

/// Whether `v` is in `order`.
pub open spec fn listed(order: Seq<usize>, v: int) -> bool {
    exists|p: int| 0 <= p < order.len() && #[trigger] order[p] == v
}

/// Whether there is an edge from `w` to `u`.
pub open spec fn has_edge(edges: Seq<Vec<usize>>, w: int, u: int) -> bool {
    exists|j: int| 0 <= j < edges[w]@.len() && #[trigger] edges[w]@[j] == u
}

proof fn lemma_row_count(row: Seq<usize>, u: int, upto: int)
    requires
        0 <= upto <= row.len(),
    ensures
        row_count(row, u, upto) <= upto,
        row_count(row, u, upto) > 0 <==> exists|j: int| 0 <= j < upto && #[trigger] row[j] == u,
    decreases upto,
{
    if upto > 0 {
        lemma_row_count(row, u, upto - 1);
        if row[upto - 1] == u {
        } else if row_count(row, u, upto) > 0 {
            let j = choose|j: int| 0 <= j < upto - 1 && #[trigger] row[j] == u;
            assert(row[j] == u);
        }
    }
}

proof fn lemma_row_mono(row: Seq<usize>, u: int, a: int, b: int)
    requires
        0 <= a <= b <= row.len(),
    ensures
        row_count(row, u, a) <= row_count(row, u, b),
    decreases b - a,
{
    if a < b {
        lemma_row_mono(row, u, a, b - 1);
    }
}

proof fn lemma_in_degree(edges: Seq<Vec<usize>>, alive: Seq<bool>, u: int, upto: int)
    requires
        0 <= upto <= edges.len(),
        alive.len() == edges.len(),
    ensures
        in_degree(edges, alive, u, upto) <= edge_count(edges, upto),
        in_degree(edges, alive, u, upto) > 0 <==> exists|w: int|
            0 <= w < upto && alive[w] && #[trigger] has_edge(edges, w, u),
    decreases upto,
{
    if upto > 0 {
        let w = upto - 1;
        lemma_in_degree(edges, alive, u, w);
        lemma_row_count(edges[w]@, u, edges[w]@.len() as int);
        if alive[w] && row_count(edges[w]@, u, edges[w]@.len() as int) > 0 {
            assert(has_edge(edges, w, u));
        } else if in_degree(edges, alive, u, upto) > 0 {
            let x = choose|x: int| 0 <= x < w && alive[x] && #[trigger] has_edge(edges, x, u);
            assert(has_edge(edges, x, u));
        } else {
            assert forall|x: int| 0 <= x < upto && alive[x] implies !#[trigger] has_edge(
                edges,
                x,
                u,
            ) by {
                if x == w {
                    if has_edge(edges, w, u) {
                        let j = choose|j: int| 0 <= j < edges[w]@.len()
                            && #[trigger] edges[w]@[j] == u;
                        assert(edges[w]@[j] == u);
                    }
                }
            }
        }
    }
}

proof fn lemma_edge_count_mono(edges: Seq<Vec<usize>>, a: int, b: int)
    requires
        0 <= a <= b <= edges.len(),
    ensures
        edge_count(edges, a) <= edge_count(edges, b),
    decreases b - a,
{
    if a < b {
        lemma_edge_count_mono(edges, a, b - 1);
    }
}

/// What the death of `v` takes off the in-degrees.
proof fn lemma_kill(edges: Seq<Vec<usize>>, alive: Seq<bool>, v: int, u: int, upto: int)
    requires
        0 <= upto <= edges.len(),
        alive.len() == edges.len(),
        0 <= v < edges.len(),
        alive[v],
    ensures
        in_degree(edges, alive, u, upto) == in_degree(edges, alive.update(v, false), u, upto)
            + if v < upto {
            row_count(edges[v]@, u, edges[v]@.len() as int)
        } else {
            0nat
        },
        alive_count(alive, upto) == alive_count(alive.update(v, false), upto) + if v < upto {
            1nat
        } else {
            0nat
        },
    decreases upto,
{
    if upto > 0 {
        lemma_kill(edges, alive, v, u, upto - 1);
    }
}

/// The vertices `0..edges.len()` of the graph in which `edges[v]` lists
/// the targets of the edges from `v`, as far as they can be put in an order
/// in which every vertex stands behind all vertices with an edge to it. A
/// vertex is left out only if it lies on a cycle or behind one.
pub fn topological_sort(edges: &[Vec<usize>]) -> (r: Vec<usize>)
    requires
        forall|v: int, j: int|
            0 <= v < edges@.len() && 0 <= j < edges@[v]@.len() ==> #[trigger] edges@[v]@[j]
                < edges@.len(),
        edge_count(edges@, edges@.len() as int) <= usize::MAX,
    ensures
        forall|p: int| 0 <= p < r@.len() ==> r@[p] < edges@.len(),
        forall|p: int, q: int| 0 <= p < q < r@.len() ==> r@[p] != r@[q],
        forall|p: int, w: int|
            0 <= p < r@.len() && 0 <= w < edges@.len() && #[trigger] has_edge(
                edges@,
                w,
                r@[p] as int,
            ) ==> exists|q: int| 0 <= q < p && r@[q] == w,
        forall|v: int|
            0 <= v < edges@.len() && !#[trigger] listed(r@, v) ==> exists|w: int|
                0 <= w < edges@.len() && !listed(r@, w) && #[trigger] has_edge(
                    edges@,
                    w,
                    v,
                ),
{
    let n = edges.len();
    let ghost g = edges@;
    let ghost everyone = Seq::new(n as nat, |i: int| true);
    let mut count: Vec<usize> = Vec::new();
    let mut i: usize = 0;
    while i < n
        invariant
            i <= n,
            count@.len() == i,
            forall|u: int| 0 <= u < i ==> count@[u] == 0,
        decreases n - i,
    {
        count.push(0);
        i += 1;
    }
    let mut w: usize = 0;
    while w < n
        invariant
            g == edges@,
            n == g.len(),
            w <= n,
            count@.len() == n,
            everyone.len() == n,
            forall|i: int| 0 <= i < n ==> everyone[i],
            forall|v: int, j: int| 0 <= v < n && 0 <= j < g[v]@.len() ==> #[trigger] g[v]@[j] < n,
            edge_count(g, n as int) <= usize::MAX,
            forall|u: int| 0 <= u < n ==> count@[u] == in_degree(g, everyone, u, w as int),
        decreases n - w,
    {
        let row = &edges[w];
        let mut j: usize = 0;
        while j < row.len()
            invariant
                g == edges@,
                n == g.len(),
                w < n,
                row@ == g[w as int]@,
                j <= row@.len(),
                count@.len() == n,
                everyone.len() == n,
                everyone[w as int],
                forall|v: int, j: int|
                    0 <= v < n && 0 <= j < g[v]@.len() ==> #[trigger] g[v]@[j] < n,
                edge_count(g, n as int) <= usize::MAX,
                forall|u: int|
                    0 <= u < n ==> count@[u] == in_degree(g, everyone, u, w as int) + row_count(
                        row@,
                        u,
                        j as int,
                    ),
            decreases row@.len() - j,
        {
            let u = row[j];
            proof {
                assert(g[w as int]@[j as int] < n);
                lemma_in_degree(g, everyone, u as int, w as int);
                lemma_row_count(row@, u as int, j as int);
                lemma_edge_count_mono(g, w + 1, n as int);
            }
            count.set(u, count[u] + 1);
            j += 1;
        }
        w += 1;
    }
    let mut stack: Vec<usize> = Vec::new();
    let mut i: usize = 0;
    while i < n
        invariant
            i <= n,
            count@.len() == n,
            forall|k: int| 0 <= k < stack@.len() ==> stack@[k] < i && count@[stack@[k] as int] == 0,
            forall|k: int, l: int| 0 <= k < l < stack@.len() ==> stack@[k] < stack@[l],
            forall|u: int| 0 <= u < i && count@[u] == 0 ==> listed(stack@, u),
        decreases n - i,
    {
        if count[i] == 0 {
            let ghost before = stack@;
            stack.push(i);
            proof {
                assert forall|u: int| 0 <= u < i + 1 && count@[u] == 0
                    implies listed(stack@, u) by {
                    if u < i {
                        let k = choose|k: int| 0 <= k < before.len() && before[k] == u as usize;
                        assert(stack@[k] == u as usize);
                    } else {
                        assert(stack@[before.len() as int] == i);
                    }
                }
            }
        }
        i += 1;
    }
    let mut result: Vec<usize> = Vec::new();
    let ghost mut alive = everyone;
    while stack.len() > 0
        invariant
            g == edges@,
            n == g.len(),
            count@.len() == n,
            alive.len() == n,
            forall|v: int, j: int| 0 <= v < n && 0 <= j < g[v]@.len() ==> #[trigger] g[v]@[j] < n,
            forall|u: int| 0 <= u < n ==> count@[u] == in_degree(g, alive, u, n as int),
            forall|u: int| 0 <= u < n && !alive[u] ==> count@[u] == 0,
            forall|k: int|
                0 <= k < stack@.len() ==> stack@[k] < n && alive[stack@[k] as int]
                    && count@[stack@[k] as int] == 0,
            forall|k: int, l: int| 0 <= k < l < stack@.len() ==> stack@[k] != stack@[l],
            forall|u: int| 0 <= u < n && alive[u] && count@[u] == 0 ==> listed(stack@, u),
            forall|p: int| 0 <= p < result@.len() ==> result@[p] < n && !alive[result@[p] as int],
            forall|p: int, q: int| 0 <= p < q < result@.len() ==> result@[p] != result@[q],
            forall|u: int| 0 <= u < n && !alive[u] ==> listed(result@, u),
            forall|p: int, w: int|
                0 <= p < result@.len() && 0 <= w < n && #[trigger] has_edge(g, w, result@[p] as int)
                    ==> exists|q: int| 0 <= q < p && result@[q] == w,
        decreases alive_count(alive, n as int),
    {
        let ghost stack0 = stack@;
        let ghost result0 = result@;
        let ghost alive0 = alive;
        let ghost count0 = count@;
        let v = stack.pop().unwrap();
        proof {
            assert(v == stack0[stack0.len() - 1]);
            alive = alive0.update(v as int, false);
            lemma_kill(g, alive0, v as int, 0, n as int);
            // every vertex with an edge to `v` is listed already
            lemma_in_degree(g, alive0, v as int, n as int);
            assert forall|w: int| 0 <= w < n && #[trigger] has_edge(g, w, v as int) implies exists|
                q: int,
            |
                0 <= q < result0.len() && result0[q] == w by {
                assert(!alive0[w]);
                assert(listed(result0, w));
                let q = choose|q: int| 0 <= q < result0.len() && result0[q] == w as usize;
                assert(result0[q] == w);
            }
            lemma_row_count(g[v as int]@, v as int, g[v as int]@.len() as int);
            assert(!has_edge(g, v as int, v as int));
        }
        result.push(v);
        proof {
            assert forall|u: int| 0 <= u < n && !alive[u] implies listed(result@, u) by {
                if u == v {
                    assert(result@[result0.len() as int] == v);
                } else {
                    let q = choose|q: int| 0 <= q < result0.len() && result0[q] == u as usize;
                    assert(result@[q] == u as usize);
                }
            }
            assert forall|p: int, w: int|
                0 <= p < result@.len() && 0 <= w < n && #[trigger] has_edge(
                    g,
                    w,
                    result@[p] as int,
                ) implies exists|q: int| 0 <= q < p && result@[q] == w by {
                if p < result0.len() {
                    assert(has_edge(g, w, result0[p] as int));
                    let q = choose|q: int| 0 <= q < p && result0[q] == w;
                    assert(result@[q] == w);
                } else {
                    let q = choose|q: int| 0 <= q < result0.len() && result0[q] == w;
                    assert(result@[q] == w);
                }
            }
            assert forall|u: int| 0 <= u < n implies count@[u] == in_degree(g, alive, u, n as int)
                + row_count(g[v as int]@, u, g[v as int]@.len() as int) by {
                lemma_kill(g, alive0, v as int, u, n as int);
            }
            assert forall|u: int| 0 <= u < n && alive[u] && count@[u] == 0 implies listed(
                stack@,
                u,
            ) by {
                assert(listed(stack0, u));
                let k = choose|k: int| 0 <= k < stack0.len() && stack0[k] == u;
                assert(stack@[k] == u);
            }
        }
        let row = &edges[v];
        let mut j: usize = 0;
        while j < row.len()
            invariant
                g == edges@,
                n == g.len(),
                v < n,
                row@ == g[v as int]@,
                j <= row@.len(),
                count@.len() == n,
                alive.len() == n,
                !alive[v as int],
                !has_edge(g, v as int, v as int),
                forall|v: int, j: int|
                    0 <= v < n && 0 <= j < g[v]@.len() ==> #[trigger] g[v]@[j] < n,
                forall|u: int|
                    0 <= u < n ==> count@[u] + row_count(row@, u, j as int) == in_degree(
                        g,
                        alive,
                        u,
                        n as int,
                    ) + row_count(row@, u, row@.len() as int),
                forall|u: int|
                    0 <= u < n && !alive[u] ==> in_degree(g, alive, u, n as int) == 0 && row_count(
                        row@,
                        u,
                        row@.len() as int,
                    ) == 0,
                forall|k: int|
                    0 <= k < stack@.len() ==> stack@[k] < n && alive[stack@[k] as int]
                        && count@[stack@[k] as int] == 0,
                forall|k: int, l: int| 0 <= k < l < stack@.len() ==> stack@[k] != stack@[l],
                forall|u: int|
                    0 <= u < n && alive[u] && count@[u] == 0 ==> listed(stack@, u),
            decreases row@.len() - j,
        {
            let u = row[j];
            let ghost stack1 = stack@;
            let ghost count1 = count@;
            proof {
                assert(g[v as int]@[j as int] < n);
                lemma_row_mono(row@, u as int, j + 1, row@.len() as int);
                lemma_row_mono(row@, u as int, 0, j as int);
                // `u` has an edge left, so its count is not 0 and it is alive
                assert(row_count(row@, u as int, j + 1) == row_count(row@, u as int, j as int) + 1);
                if !alive[u as int] {
                    lemma_row_count(row@, u as int, row@.len() as int);
                }
            }
            count.set(u, count[u] - 1);
            if count[u] == 0 {
                stack.push(u);
                proof {
                    assert forall|k: int, l: int| 0 <= k < l < stack@.len() implies stack@[k]
                        != stack@[l] by {
                        if l == stack1.len() {
                            assert(count1[stack1[k] as int] == 0);
                        }
                    }
                }
            }
            proof {
                assert forall|x: int| 0 <= x < n && alive[x] && count@[x] == 0
                    implies listed(stack@, x) by {
                    if x == u {
                        assert(stack@[stack1.len() as int] == u);
                    } else {
                        assert(count1[x] == 0);
                        let k = choose|k: int| 0 <= k < stack1.len() && stack1[k] == x as usize;
                        assert(stack@[k] == x as usize);
                    }
                }
                assert forall|k: int| 0 <= k < stack@.len()
                    implies stack@[k] < n && alive[stack@[k] as int]
                    && count@[stack@[k] as int] == 0 by {
                    if k < stack1.len() {
                        assert(count1[stack1[k] as int] == 0);
                    }
                }
            }
            j += 1;
        }
    }
    proof {
        assert forall|v: int| 0 <= v < n && !listed(result@, v) implies exists|w: int|
            0 <= w < n && !listed(result@, w) && #[trigger] has_edge(g, w, v) by {
            assert(alive[v]);
            if count@[v] == 0 {
                assert(listed(stack@, v));
            }
            lemma_in_degree(g, alive, v, n as int);
            let w = choose|w: int| 0 <= w < n && alive[w] && #[trigger] has_edge(g, w, v);
            if listed(result@, w) {
                let q = choose|q: int| 0 <= q < result@.len() && result@[q] == w as usize;
                assert(!alive[result@[q] as int]);
            }
        }
    }
    result
}

} // verus!
