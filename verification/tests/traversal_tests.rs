use harmony::traversal::{AdjacencyList, Edge, TraversalDirection};

fn edge(source: u32, target: u32) -> Edge {
    Edge { source, target, weight: 1000, edge_type: 0, metadata: None }
}

#[test]
fn test_adjacency_list_add_edge() {
    let mut adj_list = AdjacencyList::new();
    adj_list.add_edge(edge(1, 2));
    assert_eq!(adj_list.edge_count(), 1);
    assert!(adj_list.get_outgoing(1).is_some());
    assert!(adj_list.get_incoming(2).is_some());
}

#[test]
fn test_bfs_traversal() {
    let mut adj_list = AdjacencyList::new();

    // Create a simple graph: 1 -> 2 -> 3
    adj_list.add_edge(edge(1, 2));
    adj_list.add_edge(edge(2, 3));

    // BFS should visit nodes in order: 1, 2, 3
    let result = adj_list.bfs_traverse(1, TraversalDirection::Forward, None);
    assert_eq!(result.nodes.len(), 3);
    assert_eq!(result.nodes[0], 1);
    assert_eq!(result.edges.len(), 2);
}

#[test]
fn test_bfs_visits_breadth_first() {
    let mut adj = AdjacencyList::new();
    adj.add_edge(edge(1, 2));
    adj.add_edge(edge(1, 3));
    adj.add_edge(edge(2, 4));

    let result = adj.bfs_traverse(1, TraversalDirection::Forward, None);
    assert_eq!(result.nodes, vec![1, 2, 3, 4]);
}

#[test]
fn test_dfs_visits_depth_first() {
    let mut adj = AdjacencyList::new();
    adj.add_edge(edge(1, 2));
    adj.add_edge(edge(1, 3));
    adj.add_edge(edge(2, 4));

    let result = adj.dfs_traverse(1, TraversalDirection::Forward, None);
    assert_eq!(result.nodes, vec![1, 2, 4, 3]);
}

#[test]
fn test_traversal_respects_max_depth() {
    let mut adj = AdjacencyList::new();
    adj.add_edge(edge(1, 2));
    adj.add_edge(edge(2, 3));
    adj.add_edge(edge(3, 4));

    let result = adj.bfs_traverse(1, TraversalDirection::Forward, Some(1));
    assert_eq!(result.nodes, vec![1, 2]);
}

#[test]
fn test_backward_and_bidirectional_traversal() {
    let mut adj = AdjacencyList::new();
    adj.add_edge(edge(1, 2));
    adj.add_edge(edge(3, 2));

    let back = adj.bfs_traverse(2, TraversalDirection::Backward, None);
    assert_eq!(back.nodes, vec![2, 1, 3]);

    let both = adj.bfs_traverse(1, TraversalDirection::Bidirectional, None);
    assert_eq!(both.nodes, vec![1, 2, 3]);
}

#[test]
fn test_node_edges_listing() {
    let mut adj = AdjacencyList::new();
    adj.add_edge(edge(1, 2));
    adj.add_edge(edge(1, 3));
    adj.add_edge(edge(4, 1));

    let out = adj.node_edges(1, true);
    assert_eq!(out.len(), 2);
    assert_eq!(out[0].target, 2);
    assert_eq!(out[1].target, 3);

    let incoming = adj.node_edges(1, false);
    assert_eq!(incoming.len(), 1);
    assert_eq!(incoming[0].source, 4);

    assert!(adj.node_edges(99, true).is_empty());
}

#[test]
fn test_traversal_of_unknown_start() {
    let adj = AdjacencyList::new();
    let result = adj.bfs_traverse(7, TraversalDirection::Forward, None);
    assert_eq!(result.nodes, vec![7]);
    assert!(result.edges.is_empty());
    assert_eq!(result.duration_us, 0);
}
