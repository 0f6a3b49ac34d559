use qter::acyclicity::{has_no_cycle, in_range};
use qter::all_topos::AllTopologicalSorts;

fn collect(n: usize, edges: &[[usize; 2]]) -> Vec<Vec<usize>> {
    let mut iter = AllTopologicalSorts::new(n, edges);
    let mut results = Vec::new();
    while iter.next().is_some() {
        results.push(iter.current().to_vec());
    }
    results
}

fn assert_respects(results: &[Vec<usize>], edges: &[[usize; 2]]) {
    for sort in results {
        for &[from, to] in edges {
            let from_pos = sort.iter().position(|&x| x == from).unwrap();
            let to_pos = sort.iter().position(|&x| x == to).unwrap();
            assert!(from_pos < to_pos);
        }
    }
}

#[test]
fn simple_graph() {
    let edges = [[1, 2], [2, 3], [2, 4]];

    let mut iter = AllTopologicalSorts::new(4, &edges);
    let mut results = Vec::new();
    while iter.next().is_some() {
        results.push(iter.current().to_vec());
    }

    results.sort_unstable();
    assert_eq!(results, vec![vec![1, 2, 3, 4], vec![1, 2, 4, 3]]);
}

#[test]
fn linear_graph() {
    let edges = [[1, 2], [2, 3], [3, 4]];

    let mut iter = AllTopologicalSorts::new(4, &edges);
    let mut results = Vec::new();
    while iter.next().is_some() {
        results.push(iter.current().to_vec());
    }

    assert_eq!(results, vec![vec![1, 2, 3, 4]]);
}

#[test]
fn empty_graph() {
    let edges = [];

    let mut iter = AllTopologicalSorts::new(3, &edges);
    let mut results = Vec::new();
    while iter.next().is_some() {
        results.push(iter.current().to_vec());
    }

    // All permutations of [1, 2, 3] are valid
    assert_eq!(results.len(), 6); // 3! = 6
}

#[test]
fn diamond_graph() {
    let edges = [[1, 2], [1, 3], [2, 4], [3, 4]];

    let mut iter = AllTopologicalSorts::new(4, &edges);
    let mut results = Vec::new();
    while iter.next().is_some() {
        results.push(iter.current().to_vec());
    }
    results.sort_unstable();

    assert_eq!(results, vec![vec![1, 2, 3, 4], vec![1, 3, 2, 4]]);
}

#[test]
fn single_node() {
    let edges = [];

    let mut iter = AllTopologicalSorts::new(1, &edges);
    let mut results = Vec::new();
    while iter.next().is_some() {
        results.push(iter.current().to_vec());
    }

    assert_eq!(results, vec![vec![1]]);
}

#[test]
fn larger_graph() {
    let edges = [[1, 2], [1, 3], [2, 4], [2, 5], [3, 5], [3, 6], [4, 6]];

    let mut iter = AllTopologicalSorts::new(6, &edges);
    let mut results = Vec::new();
    while iter.next().is_some() {
        results.push(iter.current().to_vec());
    }
    assert_eq!(
        results,
        vec![
            vec![1, 3, 2, 5, 4, 6],
            vec![1, 3, 2, 4, 6, 5],
            vec![1, 3, 2, 4, 5, 6],
            vec![1, 2, 4, 3, 6, 5],
            vec![1, 2, 4, 3, 5, 6],
            vec![1, 2, 3, 5, 4, 6],
            vec![1, 2, 3, 4, 6, 5],
            vec![1, 2, 3, 4, 5, 6]
        ]
    );

    for sort in &results {
        for &[from, to] in &edges {
            let from_pos = sort.iter().position(|&x| x == from).unwrap();
            let to_pos = sort.iter().position(|&x| x == to).unwrap();
            assert!(from_pos < to_pos);
        }
    }
}

#[test]
fn complex_dag() {
    let edges = [
        [1, 3],
        [1, 4],
        [2, 3],
        [2, 5],
        [3, 6],
        [3, 7],
        [4, 7],
        [4, 8],
        [5, 6],
        [6, 8],
    ];

    let mut iter = AllTopologicalSorts::new(8, &edges);
    let mut results = Vec::new();
    while iter.next().is_some() {
        results.push(iter.current().to_vec());
    }
    assert_eq!(results.len(), 63);

    for sort in &results {
        for &[from, to] in &edges {
            let from_pos = sort.iter().position(|&x| x == from).unwrap();
            let to_pos = sort.iter().position(|&x| x == to).unwrap();
            assert!(from_pos < to_pos);
        }
    }
}

#[test]
fn large_graph_two_solutions() {
    let mut edges = vec![[1, 3], [2, 3]];
    for i in 3..20 {
        edges.push([i, i + 1]);
    }

    let mut iter = AllTopologicalSorts::new(20, &edges);
    let mut results = Vec::new();
    while iter.next().is_some() {
        results.push(iter.current().to_vec());
    }
    results.sort_unstable();

    assert_eq!(
        results,
        vec![
            vec![
                1, 2, 3, 4, 5, 6, 7, 8, 9, 10, 11, 12, 13, 14, 15, 16, 17, 18, 19, 20,
            ],
            vec![
                2, 1, 3, 4, 5, 6, 7, 8, 9, 10, 11, 12, 13, 14, 15, 16, 17, 18, 19, 20,
            ]
        ]
    );
}

#[test]
fn no_nodes_no_sorts() {
    let mut iter = AllTopologicalSorts::new(0, &[]);
    assert!(iter.next().is_none());
    assert!(iter.next().is_none());
    assert_eq!(iter.current(), &[] as &[usize]);
}

#[test]
fn sorts_are_distinct_and_end() {
    let edges = [[1, 2], [3, 4]];
    let mut results = collect(4, &edges);
    assert_eq!(results.len(), 6);
    assert_respects(&results, &edges);
    results.sort_unstable();
    results.dedup();
    assert_eq!(results.len(), 6);

    let mut iter = AllTopologicalSorts::new(2, &[[2, 1]]);
    assert!(iter.next().is_some());
    assert_eq!(iter.current(), &[2, 1]);
    assert!(iter.next().is_none());
    assert!(iter.next().is_none());
}

#[test]
fn repeated_edges_count_once() {
    let edges = [[1, 2], [1, 2], [2, 3]];
    assert_eq!(collect(3, &edges), vec![vec![1, 2, 3]]);
}

#[test]
fn cycle_detection() {
    let edges = [[1, 2], [2, 3], [3, 1]];
    assert!(AllTopologicalSorts::try_new(3, &edges).is_none());
    assert!(!has_no_cycle(3, &edges));
}

#[test]
fn graphs_with_cycles_have_no_enumeration() {
    // A cycle that no node without predecessors gives away.
    let hidden = [[1, 2], [2, 3], [3, 4], [4, 2]];
    assert!(!has_no_cycle(4, &hidden));
    assert!(AllTopologicalSorts::try_new(4, &hidden).is_none());
    assert!(!has_no_cycle(1, &[[1, 1]]));
    assert!(has_no_cycle(0, &[]));
    assert!(has_no_cycle(5, &[]));
    assert!(has_no_cycle(4, &[[1, 2], [1, 3], [2, 4], [3, 4], [1, 4], [1, 2]]));
    assert!(!has_no_cycle(4, &[[1, 2], [1, 3], [2, 4], [3, 4], [4, 1]]));

    assert!(in_range(3, &[[1, 3], [3, 2]]));
    assert!(!in_range(3, &[[1, 3], [4, 2]]));
    assert!(!in_range(3, &[[0, 1]]));
    assert!(!in_range(3, &[[1, 0]]));
    assert!(AllTopologicalSorts::try_new(3, &[[1, 4]]).is_none());
    assert!(AllTopologicalSorts::try_new(3, &[[0, 1]]).is_none());
    assert!(AllTopologicalSorts::try_new(usize::MAX, &[]).is_none());

    let edges = [[1, 2], [1, 3], [2, 4], [3, 4]];
    let mut sorts = AllTopologicalSorts::try_new(4, &edges).unwrap();
    let mut results = Vec::new();
    while sorts.next().is_some() {
        results.push(sorts.current().to_vec());
    }
    results.sort_unstable();
    assert_eq!(results, vec![vec![1, 2, 3, 4], vec![1, 3, 2, 4]]);
}

fn extend(n: usize, edges: &[[usize; 2]], order: &mut Vec<usize>, found: &mut Vec<Vec<usize>>) {
    if order.len() == n {
        found.push(order.clone());
        return;
    }
    for node in 1..=n {
        let free =
            !order.contains(&node) && edges.iter().all(|&[from, to]| to != node || order.contains(&from));
        if free {
            order.push(node);
            extend(n, edges, order, found);
            order.pop();
        }
    }
}

/// All orders of the nodes `1..=n` that respect the edges, by trying every
/// order.
fn linear_extensions(n: usize, edges: &[[usize; 2]]) -> Vec<Vec<usize>> {
    let mut found = Vec::new();
    extend(n, edges, &mut Vec::new(), &mut found);
    found
}

#[test]
fn every_linear_extension_comes_once() {
    let graphs: [(usize, &[[usize; 2]]); 6] = [
        (3, &[]),
        (4, &[[1, 2], [1, 3], [2, 4], [3, 4]]),
        (5, &[[1, 2], [3, 4]]),
        (6, &[[6, 1], [5, 1], [4, 2], [4, 3]]),
        (6, &[[1, 2], [2, 3], [3, 4], [4, 5], [5, 6]]),
        (7, &[[1, 7], [2, 7], [3, 7], [7, 4], [7, 5]]),
    ];
    for (n, edges) in graphs {
        let mut results = collect(n, edges);
        assert_respects(&results, edges);
        results.sort_unstable();
        let mut expected = linear_extensions(n, edges);
        expected.sort_unstable();
        assert_eq!(results, expected);
    }
    assert_eq!(collect(3, &[]).len(), 6);
}
