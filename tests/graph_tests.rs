use ac_lib::graph::{bfs, bfs_with_callback, dfs, dfs_with_callback, dijkstra, dijkstra_with_path, Edge};

#[test]
fn test_dfs_basic() {
    let graph = vec![vec![1, 2], vec![0, 3], vec![0], vec![1]];
    let mut visited = vec![false; 4];
    let order = dfs(&graph, 0, &mut visited);

    assert_eq!(order.len(), 4);
    assert_eq!(order[0], 0);
    assert!(order.contains(&1));
    assert!(order.contains(&2));
    assert!(order.contains(&3));
}

#[test]
fn test_dfs_disconnected() {
    let graph = vec![vec![1], vec![0], vec![3], vec![2]];
    let mut visited = vec![false; 4];
    let order = dfs(&graph, 0, &mut visited);

    assert_eq!(order.len(), 2);
    assert_eq!(order, vec![0, 1]);
}

#[test]
fn test_dfs_with_callback_basic() {
    let graph = vec![vec![1, 2], vec![0, 3], vec![0], vec![1]];
    let mut visited = vec![false; 4];
    let mut result = Vec::new();

    dfs_with_callback(&graph, 0, &mut visited, &mut |node| {
        result.push(node);
    });

    assert_eq!(result.len(), 4);
    assert_eq!(result[0], 0);
}

#[test]
fn test_bfs_basic() {
    let graph = vec![vec![1, 2], vec![0, 3], vec![0], vec![1]];
    let mut visited = vec![false; 4];
    let order = bfs(&graph, 0, &mut visited);

    assert_eq!(order, vec![0, 1, 2, 3]);
}

#[test]
fn test_bfs_disconnected() {
    let graph = vec![vec![1], vec![0], vec![3], vec![2]];
    let mut visited = vec![false; 4];
    let order = bfs(&graph, 0, &mut visited);

    assert_eq!(order, vec![0, 1]);
}

#[test]
fn test_bfs_single_node() {
    let graph = vec![vec![]];
    let mut visited = vec![false; 1];
    let order = bfs(&graph, 0, &mut visited);

    assert_eq!(order, vec![0]);
}

#[test]
fn test_bfs_with_callback_basic() {
    let graph = vec![vec![1, 2], vec![0, 3], vec![0], vec![1]];
    let mut visited = vec![false; 4];
    let mut result = Vec::new();

    bfs_with_callback(&graph, 0, &mut visited, &mut |node| {
        result.push(node);
    });

    assert_eq!(result, vec![0, 1, 2, 3]);
}

#[test]
fn test_dijkstra_basic() {
    let graph = vec![
        vec![Edge { node: 1, cost: 4 }, Edge { node: 2, cost: 1 }],
        vec![Edge { node: 3, cost: 1 }],
        vec![Edge { node: 1, cost: 2 }, Edge { node: 3, cost: 5 }],
        vec![],
    ];
    let dist = dijkstra(&graph, 0);

    assert_eq!(dist[0], 0);
    assert_eq!(dist[1], 3);
    assert_eq!(dist[2], 1);
    assert_eq!(dist[3], 4);
}

#[test]
fn test_dijkstra_unreachable() {
    let graph = vec![
        vec![Edge { node: 1, cost: 1 }],
        vec![],
        vec![Edge { node: 3, cost: 1 }],
        vec![],
    ];
    let dist = dijkstra(&graph, 0);

    assert_eq!(dist[0], 0);
    assert_eq!(dist[1], 1);
    assert_eq!(dist[2], usize::MAX);
    assert_eq!(dist[3], usize::MAX);
}

#[test]
fn test_dijkstra_single_node() {
    let graph = vec![vec![]];
    let dist = dijkstra(&graph, 0);

    assert_eq!(dist[0], 0);
}

#[test]
fn test_dijkstra_with_path() {
    let graph = vec![
        vec![Edge { node: 1, cost: 4 }, Edge { node: 2, cost: 1 }],
        vec![Edge { node: 3, cost: 1 }],
        vec![Edge { node: 1, cost: 2 }, Edge { node: 3, cost: 5 }],
        vec![],
    ];
    let (dist, parent) = dijkstra_with_path(&graph, 0);

    assert_eq!(dist[3], 4);
    assert_eq!(parent[3], Some(1));
    assert_eq!(parent[1], Some(2));
    assert_eq!(parent[2], Some(0));
}








#[test]
fn bfs_skips_nodes_marked_beforehand() {
    let graph = vec![vec![1, 2], vec![3], vec![3], vec![]];
    let mut visited = vec![false, true, false, false];
    let order = bfs(&graph, 0, &mut visited);
    assert_eq!(order, vec![0, 2, 3]);
    assert_eq!(visited, vec![true, true, true, true]);
}

#[test]
fn dfs_visits_depth_first_and_skips_marked_nodes() {
    let graph = vec![vec![1, 2], vec![3], vec![3], vec![]];
    let mut visited = vec![false; 4];
    let order = dfs(&graph, 0, &mut visited);
    assert_eq!(order, vec![0, 1, 3, 2]);

    let mut marked = vec![false, false, false, true];
    let order2 = dfs(&graph, 0, &mut marked);
    assert_eq!(order2, vec![0, 1, 2]);
}

#[test]
fn dfs_from_marked_start_still_reports_start() {
    let graph = vec![vec![1], vec![]];
    let mut visited = vec![true, false];
    let order = dfs(&graph, 0, &mut visited);
    assert_eq!(order, vec![0, 1]);
}

#[test]
fn traversal_callbacks_follow_the_orders() {
    let graph = vec![vec![1, 2], vec![3], vec![3], vec![]];
    let mut seen = Vec::new();
    let mut visited = vec![false; 4];
    dfs_with_callback(&graph, 0, &mut visited, &mut |node| seen.push(node));
    assert_eq!(seen, vec![0, 1, 3, 2]);
    assert_eq!(visited, vec![true; 4]);

    let mut seen_bfs = Vec::new();
    let mut visited_bfs = vec![false; 4];
    bfs_with_callback(&graph, 0, &mut visited_bfs, &mut |node| seen_bfs.push(node));
    assert_eq!(seen_bfs, vec![0, 1, 2, 3]);
}

#[test]
fn dijkstra_zero_cost_cycle_and_parallel_edges() {
    let graph = vec![
        vec![Edge { node: 1, cost: 7 }, Edge { node: 1, cost: 2 }],
        vec![Edge { node: 2, cost: 0 }],
        vec![Edge { node: 1, cost: 0 }, Edge { node: 0, cost: 1 }],
    ];
    let (dist, parent) = dijkstra_with_path(&graph, 0);
    assert_eq!(dist, vec![0, 2, 2]);
    assert_eq!(parent, vec![None, Some(0), Some(1)]);
}

#[test]
fn dijkstra_unreachable_nodes_have_no_parent() {
    let graph = vec![vec![Edge { node: 1, cost: 5 }], vec![], vec![Edge { node: 0, cost: 1 }]];
    let (dist, parent) = dijkstra_with_path(&graph, 0);
    assert_eq!(dist, vec![0, 5, usize::MAX]);
    assert_eq!(parent, vec![None, Some(0), None]);
}

#[test]
fn dijkstra_cost_that_would_overflow_is_out_of_reach() {
    let graph = vec![
        vec![Edge { node: 1, cost: usize::MAX - 1 }],
        vec![Edge { node: 2, cost: 5 }],
        vec![],
    ];
    let dist = dijkstra(&graph, 0);
    assert_eq!(dist, vec![0, usize::MAX - 1, usize::MAX]);
}
