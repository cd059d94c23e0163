use memory_core::graph::{Edge, KnowledgeGraph};
use memory_core::traversal::{bfs_traverse, dfs_traverse, find_shortest_path};
use memory_core::types::{EntityType, NodeType};
use uuid::Uuid;

fn create_test_graph() -> (KnowledgeGraph, Vec<u128>) {
    let mut graph = KnowledgeGraph::new();
    let ids: Vec<u128> = (0..5).map(|_| Uuid::new_v4().as_u128()).collect();
    for &id in &ids {
        graph.add_node(id);
    }
    // 0 -> 1 -> 2 -> 3
    //      |
    //      v
    //      4
    graph.add_edge(Edge::new(ids[0], ids[1], "a".to_string()));
    graph.add_edge(Edge::new(ids[1], ids[2], "b".to_string()));
    graph.add_edge(Edge::new(ids[2], ids[3], "c".to_string()));
    graph.add_edge(Edge::new(ids[1], ids[4], "d".to_string()));
    (graph, ids)
}

#[test]
fn test_bfs_traverse() {
    let (graph, ids) = create_test_graph();
    let start = ids[0];
    let result = bfs_traverse(&graph, start, 2);
    assert!(result.visited_nodes.len() >= 1);
    let pos = result.visited_nodes.iter().position(|&x| x == start).unwrap();
    assert_eq!(result.depths[pos], 0);
}

#[test]
fn test_shortest_path() {
    let (graph, ids) = create_test_graph();
    let path = find_shortest_path(&graph, ids[0], ids[0]);
    assert!(path.is_some());
    assert_eq!(path.unwrap().len(), 1);
}

#[test]
fn bfs_records_depths_and_paths() {
    let (graph, ids) = create_test_graph();
    let r = bfs_traverse(&graph, ids[3], 2);
    let mut seen = r.visited_nodes.clone();
    seen.sort();
    let mut want = vec![ids[3], ids[2], ids[1]];
    want.sort();
    assert_eq!(seen, want);
    let at = |x: u128| r.visited_nodes.iter().position(|&y| y == x).unwrap();
    assert_eq!(r.depths[at(ids[1])], 2);
    assert_eq!(r.paths[at(ids[1])], vec![ids[3], ids[2], ids[1]]);
    assert!(bfs_traverse(&graph, 12345, 3).visited_nodes.is_empty());
}

#[test]
fn shortest_path_follows_edges_both_ways() {
    let (graph, ids) = create_test_graph();
    assert_eq!(find_shortest_path(&graph, ids[3], ids[4]), Some(vec![ids[3], ids[2], ids[1], ids[4]]));
    let mut g2 = KnowledgeGraph::new();
    g2.add_node(1);
    g2.add_node(2);
    assert_eq!(find_shortest_path(&g2, 1, 2), None);
    assert_eq!(find_shortest_path(&g2, 1, 9), None);
}

#[test]
fn components_partition_the_nodes() {
    let mut g = KnowledgeGraph::new();
    g.add_edge(Edge::new(1, 2, "r".to_string()));
    g.add_edge(Edge::new(3, 2, "r".to_string()));
    g.add_edge(Edge::new(4, 5, "r".to_string()));
    g.add_node(6);
    let comps = memory_core::traversal::find_connected_components(&g);
    let mut sorted: Vec<Vec<u128>> = comps
        .into_iter()
        .map(|mut c| {
            c.sort();
            c
        })
        .collect();
    sorted.sort();
    assert_eq!(sorted, vec![vec![1, 2, 3], vec![4, 5], vec![6]]);
}

#[test]
fn neighbours_with_relations_lists_both_directions() {
    let mut g = KnowledgeGraph::new();
    g.add_edge(Edge::new(1, 2, "knows".to_string()));
    g.add_edge(Edge::new(3, 1, "owns".to_string()));
    let n = memory_core::traversal::get_neighbors_with_relations(&g, 1);
    assert_eq!(n.len(), 2);
    assert_eq!((n[0].node_id, n[0].distance, n[0].relation.clone()), (2, 1, Some("knows".to_string())));
    assert_eq!((n[1].node_id, n[1].distance, n[1].relation.clone()), (3, 1, Some("owns".to_string())));
    assert!(memory_core::traversal::get_neighbors_with_relations(&g, 9).is_empty());
}

#[test]
fn dfs_goes_deep_first_within_the_bound() {
    let (graph, ids) = create_test_graph();
    let r = dfs_traverse(&graph, ids[0], 2);
    assert_eq!(r.visited_nodes, vec![ids[0], ids[1], ids[2], ids[4]]);
    assert_eq!(r.depths, vec![0, 1, 2, 2]);
    assert_eq!(r.paths[3], vec![ids[0], ids[1], ids[4]]);
    assert!(dfs_traverse(&graph, 77, 2).visited_nodes.is_empty());
}

#[test]
fn stored_names_of_kinds() {
    assert_eq!(NodeType::Event.name(), "event");
    assert_eq!(NodeType::from_name("concept"), Some(NodeType::Concept));
    assert_eq!(NodeType::from_name("Entity"), None);
    assert_eq!(EntityType::Place.name(), "place");
    assert_eq!(EntityType::from_name("time"), EntityType::Time);
    assert_eq!(EntityType::from_name("robot"), EntityType::Other);
}
