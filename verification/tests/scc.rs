use algolib::scc::scc;

fn sorted(parts: Vec<Vec<usize>>) -> Vec<Vec<usize>> {
    let mut result: Vec<Vec<usize>> = parts
        .into_iter()
        .map(|mut v| {
            v.sort();
            v
        })
        .collect();
    result.sort();
    result
}

#[test]
fn scc_test() {
    let result = sorted(scc(&[
        vec![3],
        vec![4],
        vec![],
        vec![0],
        vec![1, 2],
        vec![2, 5],
    ]));
    assert_eq!(result, [vec![0, 3], vec![1, 4], vec![2], vec![5]]);
}

#[test]
fn a_vertex_seen_from_two_sides_stays_alone() {
    // 0 -> 1, 0 -> 2, 2 -> 1: nothing leads back
    let result = sorted(scc(&[vec![1, 2], vec![], vec![1]]));
    assert_eq!(result, [vec![0], vec![1], vec![2]]);
}

#[test]
fn no_edge_leads_to_an_earlier_part() {
    let g = vec![
        vec![1],
        vec![2],
        vec![0, 3],
        vec![4],
        vec![5, 7],
        vec![6],
        vec![4],
        vec![7],
        vec![0],
    ];
    let parts = scc(&g);
    assert_eq!(
        sorted(parts.clone()),
        [vec![0, 1, 2], vec![3], vec![4, 5, 6], vec![7], vec![8]]
    );
    let mut part_of = vec![usize::MAX; g.len()];
    for (c, part) in parts.iter().enumerate() {
        for &v in part {
            assert_eq!(part_of[v], usize::MAX);
            part_of[v] = c;
        }
    }
    for (v, row) in g.iter().enumerate() {
        for &u in row {
            assert!(part_of[v] <= part_of[u]);
        }
    }
}

#[test]
fn the_empty_graph_and_loops() {
    assert_eq!(scc(&[]), Vec::<Vec<usize>>::new());
    assert_eq!(sorted(scc(&[vec![0, 0], vec![1]])), [vec![0], vec![1]]);
    assert_eq!(sorted(scc(&[vec![1, 1], vec![0]])), [vec![0, 1]]);
}

#[test]
fn parts_agree_with_reaching_both_ways() {
    let n = 30usize;
    for round in 0..20u64 {
        let mut g: Vec<Vec<usize>> = vec![vec![]; n];
        let mut x: u64 = 0x9e3779b97f4a7c15 ^ (round * 0x1234567);
        for _ in 0..(20 + 3 * round) {
            x ^= x << 13;
            x ^= x >> 7;
            x ^= x << 17;
            let a = (x % n as u64) as usize;
            let b = ((x >> 24) % n as u64) as usize;
            g[a].push(b);
        }
        let mut reach = vec![vec![false; n]; n];
        for v in 0..n {
            reach[v][v] = true;
            for &u in &g[v] {
                reach[v][u] = true;
            }
        }
        for k in 0..n {
            for a in 0..n {
                for b in 0..n {
                    if reach[a][k] && reach[k][b] {
                        reach[a][b] = true;
                    }
                }
            }
        }
        let parts = scc(&g);
        let mut part_of = vec![usize::MAX; n];
        for (c, part) in parts.iter().enumerate() {
            assert!(!part.is_empty());
            for &v in part {
                assert_eq!(part_of[v], usize::MAX);
                part_of[v] = c;
            }
        }
        for a in 0..n {
            assert_ne!(part_of[a], usize::MAX);
            for b in 0..n {
                assert_eq!(part_of[a] == part_of[b], reach[a][b] && reach[b][a]);
                if reach[a][b] {
                    assert!(part_of[a] <= part_of[b]);
                }
            }
        }
    }
}
