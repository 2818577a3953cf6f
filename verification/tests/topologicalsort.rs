use algolib::topologicalsort::topological_sort;

#[test]
fn topologicalsort_test() {
    let edges = [vec![1], vec![], vec![3, 5], vec![0, 4], vec![1], vec![4]];
    let result = topological_sort(&edges);
    assert_eq!(result.len(), edges.len());
    for (v, edges) in edges.iter().enumerate() {
        let idx = result
            .iter()
            .enumerate()
            .find_map(|(i, &s)| (s == v).then_some(i));
        for &u in edges {
            let idx2 = result
                .iter()
                .enumerate()
                .find_map(|(i, &s)| (s == u).then_some(i));
            assert!(idx < idx2);
        }
    }
}

#[test]
fn a_cycle_and_what_lies_behind_it_are_left_out() {
    // 0 -> 1 -> 2 -> 1, 2 -> 3, 4 -> 0
    let edges = [vec![1], vec![2], vec![1, 3], vec![], vec![0]];
    assert_eq!(topological_sort(&edges), vec![4, 0]);
}

#[test]
fn edges_that_are_given_twice() {
    let edges = [vec![2, 2, 1], vec![2], vec![]];
    assert_eq!(topological_sort(&edges), vec![0, 1, 2]);
    assert_eq!(topological_sort(&[]), Vec::<usize>::new());
}
