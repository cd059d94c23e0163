use memory_core::edges::{create_conceptualization_edges, create_participation_edges, EdgeBuilder, EdgeIndex};
use memory_core::graph::Edge;
use memory_core::validate::validate_edge;
use uuid::Uuid;

#[test]
fn test_edge_builder() {
    let source = Uuid::new_v4().as_u128();
    let target = Uuid::new_v4().as_u128();
    let edge = EdgeBuilder::new(source, target, "relates_to").weight(80).build();
    assert_eq!(edge.source, source);
    assert_eq!(edge.target, target);
    assert_eq!(edge.relation, "relates_to");
    assert_eq!(edge.weight, 80);
}

#[test]
fn test_edge_index() {
    let id1 = Uuid::new_v4().as_u128();
    let id2 = Uuid::new_v4().as_u128();
    let id3 = Uuid::new_v4().as_u128();
    let edges = vec![Edge::new(id1, id2, "relates".to_string()), Edge::new(id2, id3, "relates".to_string())];
    let index = EdgeIndex::from_edges(edges);
    assert_eq!(index.count(), 2);
    assert_eq!(index.find_by_source(id1).len(), 1);
    assert_eq!(index.find_by_target(id3).len(), 1);
}

#[test]
fn edge_index_lookups() {
    let mut index = EdgeIndex::new();
    index.add(Edge::new(1, 2, "knows".to_string()));
    index.add(Edge::new(2, 3, "owns".to_string()));
    index.add(Edge::new(1, 2, "owns".to_string()));
    assert_eq!(index.find_by_relation("owns").len(), 2);
    assert_eq!(index.find_between(1, 2).unwrap().relation, "knows");
    assert!(index.find_between(3, 2).is_none());
    let all: Vec<(u128, u128)> = index.find_all_for_node(2).iter().map(|e| (e.source, e.target)).collect();
    assert_eq!(all, vec![(2, 3), (1, 2), (1, 2)]);
}

#[test]
fn builders_and_batches() {
    let w = EdgeBuilder::temporal(1, 2, "before").weight(250).build();
    assert_eq!(w.weight, 100);
    assert_eq!(EdgeBuilder::participates(1, 2).build().relation, "participates_in");
    let p = create_participation_edges(&vec![4, 5], 9);
    assert_eq!(p.iter().map(|e| (e.source, e.target)).collect::<Vec<_>>(), vec![(4, 9), (5, 9)]);
    let c = create_conceptualization_edges(4, &vec![7]);
    assert_eq!((c[0].source, c[0].target, c[0].relation.as_str()), (4, 7, "conceptualized_as"));
}

#[test]
fn overweight_edges_are_reported() {
    let mut e = Edge::new(1, 2, "knows".to_string());
    e.weight = 120;
    let r = validate_edge(&e);
    assert!(!r.is_valid);
    assert_eq!(r.errors, vec!["边权重必须在 0-1 之间，当前: 1.20".to_string()]);
}

#[test]
fn edge_metadata_is_kept() {
    let e = EdgeBuilder::new(1, 2, "knows").metadata("{\"since\":2020}").build();
    assert_eq!(e.metadata.as_deref(), Some("{\"since\":2020}"));
    assert!(Edge::new(1, 2, "knows".to_string()).metadata.is_none());
}
