use algolib::dijkstra::{dijkstra, dijkstra_tree};

/// The graph
///
/// ```text
///  S--3->*--7->*
///  |     |     |
///  2     5     2
///  v     v     v
///  *--4->*--9->G
/// ```
fn sample_graph() -> Vec<Vec<(usize, i32)>> {
    vec![
        vec![(1, 3), (3, 2)],
        vec![(2, 7), (4, 5)],
        vec![(5, 2)],
        vec![(4, 4)],
        vec![(5, 9)],
        vec![],
    ]
}

#[test]
fn distance() {
    assert_eq!(dijkstra(&sample_graph(), 0, 5), Some(12));
}

#[test]
fn tree() {
    assert_eq!(
        dijkstra_tree(&sample_graph(), 0),
        vec![
            Some((0, 0)),
            Some((3, 0)),
            Some((10, 1)),
            Some((2, 0)),
            Some((6, 3)),
            Some((12, 2))
        ]
    );
}

#[test]
fn distance_to_every_vertex_of_the_sample() {
    let g = sample_graph();
    let want = [0, 3, 10, 2, 6, 12];
    for (goal, &d) in want.iter().enumerate() {
        assert_eq!(dijkstra(&g, 0, goal), Some(d));
    }
}

#[test]
fn no_way_back_in_the_sample() {
    let g = sample_graph();
    for start in 1..6 {
        assert_eq!(dijkstra(&g, start, 0), None);
    }
    assert_eq!(dijkstra(&g, 5, 5), Some(0));
    assert_eq!(dijkstra(&g, 0, 6), None);
    assert_eq!(
        dijkstra_tree(&g, 4),
        vec![None, None, None, None, Some((0, 4)), Some((9, 4))]
    );
}

#[test]
fn a_longer_way_with_more_edges_can_be_shorter() {
    let g: Vec<Vec<(usize, u32)>> = vec![
        vec![(3, 100), (1, 1)],
        vec![(2, 1), (0, 0)],
        vec![(3, 1), (1, 50)],
        vec![(0, 7)],
    ];
    assert_eq!(dijkstra(&g, 0, 3), Some(3));
    assert_eq!(
        dijkstra_tree(&g, 0),
        vec![Some((0, 0)), Some((1, 0)), Some((2, 1)), Some((3, 2))]
    );
    assert_eq!(dijkstra(&g, 3, 2), Some(9));
    assert_eq!(dijkstra(&g, 2, 0), Some(8));
}

#[test]
fn edges_that_cost_nothing_and_several_edges_between_two_vertices() {
    let g: Vec<Vec<(usize, u32)>> = vec![
        vec![(1, 0), (1, 4), (0, 0)],
        vec![(2, 0), (0, 0)],
        vec![(2, 3), (3, 5), (3, 2)],
        vec![],
        vec![(0, 1)],
    ];
    assert_eq!(dijkstra(&g, 0, 3), Some(2));
    assert_eq!(dijkstra(&g, 0, 4), None);
    assert_eq!(dijkstra(&g, 4, 3), Some(3));
    let tree = dijkstra_tree(&g, 0);
    assert_eq!(tree[0], Some((0, 0)));
    assert_eq!(tree[3], Some((2, 2)));
    assert_eq!(tree[4], None);
    assert_eq!(tree[1].map(|e| e.0), Some(0));
    assert_eq!(tree[2].map(|e| e.0), Some(0));
}

#[test]
fn distances_agree_with_trying_every_walk() {
    // a graph made by a fixed rule, held against repeated relaxing
    let n = 40usize;
    let mut g: Vec<Vec<(usize, u32)>> = vec![vec![]; n];
    let mut x: u64 = 0x2545f4914f6cdd1d;
    for _ in 0..160 {
        x ^= x << 13;
        x ^= x >> 7;
        x ^= x << 17;
        let a = (x % n as u64) as usize;
        let b = ((x >> 20) % n as u64) as usize;
        let c = ((x >> 40) % 1000) as u32;
        g[a].push((b, c));
    }
    let mut best: Vec<Option<u32>> = vec![None; n];
    best[0] = Some(0);
    for _ in 0..n {
        for v in 0..n {
            if let Some(d) = best[v] {
                for &(u, c) in &g[v] {
                    if best[u].map_or(true, |old| d + c < old) {
                        best[u] = Some(d + c);
                    }
                }
            }
        }
    }
    let tree = dijkstra_tree(&g, 0);
    for v in 0..n {
        assert_eq!(tree[v].map(|e| e.0), best[v]);
        assert_eq!(dijkstra(&g, 0, v), best[v]);
        if let Some((d, p)) = tree[v] {
            if v != 0 {
                let dp = tree[p].unwrap().0;
                assert!(g[p].iter().any(|&(u, c)| u == v && dp + c == d));
            }
        }
    }
}

#[test]
fn costs_of_64_bits() {
    let big = 1u64 << 40;
    let g: Vec<Vec<(usize, u64)>> = vec![
        vec![(1, big), (2, 3 * big)],
        vec![(2, big)],
        vec![(3, 5)],
        vec![],
    ];
    assert_eq!(dijkstra(&g, 0, 3), Some(2 * big + 5));
    assert_eq!(dijkstra(&g, 3, 0), None);
    let h: Vec<Vec<(usize, usize)>> = vec![vec![(1, 4)], vec![(0, 1)]];
    assert_eq!(dijkstra_tree(&h, 1), vec![Some((1, 1)), Some((0, 1))]);
}

#[test]
fn costs_of_128_bits() {
    let big = 1u128 << 100;
    let g: Vec<Vec<(usize, u128)>> = vec![vec![(1, big), (2, 3 * big)], vec![(2, big)], vec![]];
    assert_eq!(dijkstra(&g, 0, 2), Some(2 * big));
    let h: Vec<Vec<(usize, i128)>> = vec![vec![(1, 4)], vec![(0, 1)]];
    assert_eq!(dijkstra_tree(&h, 1), vec![Some((1, 1)), Some((0, 1))]);
}
