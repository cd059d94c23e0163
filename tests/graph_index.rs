use memory_core::graph::{Edge, KnowledgeGraph};
use uuid::Uuid;

fn id() -> u128 {
    Uuid::new_v4().as_u128()
}

#[test]
fn test_basic_operations() {
    let mut graph = KnowledgeGraph::new();
    let id1 = id();
    let id2 = id();
    graph.add_node(id1);
    graph.add_node(id2);
    assert_eq!(graph.node_count(), 2);
    assert!(graph.contains_node(id1));
    assert!(graph.contains_node(id2));
}

#[test]
fn test_neighbors() {
    let mut graph = KnowledgeGraph::new();
    let id1 = id();
    let id2 = id();
    let id3 = id();
    graph.add_edge(Edge::new(id1, id2, "relates".to_string()));
    graph.add_edge(Edge::new(id2, id3, "relates".to_string()));

    let neighbors = graph.get_neighbors(id1, 1);
    assert!(neighbors.contains(&id1));
    assert!(neighbors.contains(&id2));
    assert!(!neighbors.contains(&id3));

    let neighbors = graph.get_neighbors(id1, 2);
    assert!(neighbors.contains(&id3));
}

#[test]
fn neighbors_are_undirected_and_absent_nodes_have_none() {
    let mut g = KnowledgeGraph::new();
    g.add_edge(Edge::new(1, 2, "r".to_string()));
    g.add_edge(Edge::new(3, 2, "r".to_string()));
    let mut n = g.get_neighbors(3, 2);
    n.sort();
    assert_eq!(n, vec![1, 2, 3]);
    assert!(g.get_neighbors(9, 5).is_empty());
    assert_eq!(g.get_neighbors(1, 0), vec![1]);
    let mut far = g.get_neighbors(1, usize::MAX);
    far.sort();
    assert_eq!(far, vec![1, 2, 3]);
}

#[test]
fn add_node_is_idempotent() {
    let mut g = KnowledgeGraph::new();
    let a = g.add_node(7);
    let b = g.add_node(7);
    assert_eq!(a, b);
    assert_eq!(g.node_count(), 1);
}

#[test]
fn parallel_edges_are_kept() {
    let mut g = KnowledgeGraph::new();
    g.add_edge(Edge::new(1, 2, "a".to_string()));
    g.add_edge(Edge::new(1, 2, "a".to_string()));
    assert_eq!(g.edge_count(), 2);
    assert_eq!(g.get_outgoing_edges(1).len(), 2);
    assert!(g.get_outgoing_edges(2).is_empty());
    assert_eq!(g.get_edge(1, 2).unwrap().relation, "a");
    assert!(g.get_edge(2, 1).is_none());
}

#[test]
fn remove_then_readd_leaves_a_bare_node() {
    let mut g = KnowledgeGraph::new();
    g.add_edge(Edge::new(1, 2, "r".to_string()));
    g.add_edge(Edge::new(2, 3, "r".to_string()));
    g.add_edge(Edge::new(3, 4, "r".to_string()));
    assert!(g.remove_node(2));
    assert!(!g.remove_node(2));
    assert_eq!(g.edge_count(), 1);
    assert!(!g.contains_node(2));
    g.add_node(2);
    assert!(g.contains_node(2));
    assert_eq!(g.get_neighbors(2, 3), vec![2]);
    assert!(g.get_outgoing_edges(2).is_empty());
    let mut ids = g.get_all_node_ids();
    ids.sort();
    assert_eq!(ids, vec![1, 2, 3, 4]);
}

#[test]
fn concept_bridging_finds_siblings() {
    // 10 and 11 are entities of concept 100; 12 is an unrelated node
    let mut g = KnowledgeGraph::new();
    g.add_edge(Edge::new(10, 100, "conceptualized_as".to_string()));
    g.add_edge(Edge::new(11, 100, "conceptualized_as".to_string()));
    g.add_edge(Edge::new(12, 13, "relates_to".to_string()));
    let r = g.find_concept_bridged(&vec![10], &vec![100]);
    assert_eq!(r, vec![11]);
    assert!(g.find_concept_bridged(&vec![10], &vec![]).is_empty());
    assert!(g.find_concept_bridged(&vec![10, 11], &vec![100]).is_empty());
}

#[test]
fn expansion_layer_respects_room_and_visited() {
    let mut g = KnowledgeGraph::new();
    for t in 2..7u128 {
        g.add_edge(Edge::new(1, t, "r".to_string()));
    }
    let all = g.expansion_layer(&vec![1], &vec![1, 2], 10);
    assert_eq!(all.len(), 4);
    assert!(!all.contains(&2));
    let some = g.expansion_layer(&vec![1], &vec![1], 2);
    assert_eq!(some.len(), 2);
}

#[test]
fn clear_empties_the_graph() {
    let mut g = KnowledgeGraph::new();
    g.add_edge(Edge::new(1, 2, "r".to_string()));
    g.clear();
    assert_eq!(g.node_count(), 0);
    assert_eq!(g.edge_count(), 0);
}

#[test]
fn expansion_step_tracks_layers() {
    let mut g = KnowledgeGraph::new();
    g.add_edge(Edge::new(1, 2, "r".to_string()));
    g.add_edge(Edge::new(2, 3, "r".to_string()));
    let first = memory_core::retrieval::expansion_step(&g, 0, 2, &vec![1], &vec![1], 30).unwrap();
    assert_eq!(first, vec![2]);
    let second = memory_core::retrieval::expansion_step(&g, 1, 2, &vec![1, 2], &vec![2], 30).unwrap();
    assert_eq!(second, vec![3]);
    assert!(memory_core::retrieval::expansion_step(&g, 2, 2, &vec![1, 2, 3], &vec![3], 30).is_none());
    assert!(memory_core::retrieval::expansion_step(&g, 0, 5, &vec![1, 2, 3], &vec![3], 30).is_none());
    assert!(memory_core::retrieval::expansion_step(&g, 0, 5, &vec![1], &vec![1], 1).is_none());
}
