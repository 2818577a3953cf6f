use algolib::kruskal::kruskal;

#[test]
fn kruskal_test() {
    let edges = kruskal(
        4,
        &[
            (0, 1, 4),
            (0, 2, 2),
            (0, 3, 3),
            (1, 2, 6),
            (1, 3, 8),
            (2, 3, 1),
            (1, 1, 0),
        ],
    );
    // By weight the edges come as 6, 5, 1, 2, 0, 3, 4. Edge 6 is a loop, edge
    // 5 joins 2 and 3, edge 1 joins 0 to them, edge 2 would close a cycle,
    // and edge 0 brings in 1: the chosen edges are 5, 1, 0 in this order,
    // edge 1 (weight 2) before edge 0 (weight 4), not 5, 0, 1.
    assert_eq!(edges, vec![5, 1, 0]);
}

#[test]
fn kruskal_on_a_graph_in_two_parts() {
    let edges = [(0usize, 1usize, 5u32), (3, 4, 1), (1, 2, 2), (0, 2, 9), (4, 5, 7), (3, 5, 3)];
    assert_eq!(kruskal(6, &edges), vec![1, 2, 5, 0]);
    assert_eq!(kruskal(3, &[] as &[(usize, usize, u8)]), Vec::<usize>::new());
}
