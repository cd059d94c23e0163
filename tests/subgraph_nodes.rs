use memory_core::builder::NodeBuilder;
use memory_core::config::SubgraphConfig;
use memory_core::graph::{Edge, KnowledgeGraph};
use memory_core::traversal::extract_subgraph;
use memory_core::node::MemoryNode;
use memory_core::subgraph::{Subgraph, SubgraphExpander, SubgraphExpansionConfig};
use memory_core::types::{EntityType, NodeType};

#[test]
fn test_subgraph_creation() {
    let mut subgraph = Subgraph::new();
    let node = MemoryNode::new_event("测试事件".to_string(), "2026-02-06-12-00".to_string());
    let node_id = node.id;
    subgraph.add_node(node);
    assert_eq!(subgraph.node_count(), 1);
    assert!(subgraph.contains_node(node_id));
}

#[test]
fn test_subgraph_merge() {
    let mut sg1 = Subgraph::new();
    let mut sg2 = Subgraph::new();
    sg1.add_node(MemoryNode::new_event("事件1".to_string(), "2026-01-01-00-00".to_string()));
    sg2.add_node(MemoryNode::new_event("事件2".to_string(), "2026-01-02-00-00".to_string()));
    sg1.merge(sg2);
    assert_eq!(sg1.node_count(), 2);
}

#[test]
fn subgraph_keeps_first_of_each_id_and_inner_edges() {
    let a = MemoryNode::new_entity("家".to_string(), EntityType::Place);
    let b = MemoryNode::new_concept("地点".to_string());
    let (ia, ib) = (a.id, b.id);
    let mut dup = MemoryNode::new_entity("别的".to_string(), EntityType::Other);
    dup.id = ia;
    let mut s = Subgraph::from_nodes(vec![a, b, dup]);
    assert_eq!(s.node_count(), 2);
    assert_eq!(s.get_node(ia).unwrap().content, "家");
    s.add_edge(Edge::new(ia, ib, "conceptualized_as".to_string()));
    s.add_edge(Edge::new(ia, 999, "relates_to".to_string()));
    assert_eq!(s.edge_count(), 1);
    assert_eq!(s.nodes_by_type(NodeType::Concept).len(), 1);
    assert_eq!(s.node_ids(), vec![ia, ib]);
    assert!(s.get_node(999).is_none());
}

#[test]
fn expansion_via_concepts_adds_bridged_nodes() {
    let e1 = MemoryNode::new_entity("我的朋友".to_string(), EntityType::Person);
    let e2 = MemoryNode::new_entity("我同学".to_string(), EntityType::Person);
    let c = MemoryNode::new_concept("人物".to_string());
    let mut g = KnowledgeGraph::new();
    g.add_edge(Edge::new(e1.id, c.id, "conceptualized_as".to_string()));
    g.add_edge(Edge::new(e2.id, c.id, "conceptualized_as".to_string()));
    let lookup = vec![e2.clone(), c.clone()];
    let mut s = Subgraph::from_nodes(vec![e1.clone(), c.clone()]);
    SubgraphExpander::with_defaults().expand_via_concepts(&g, &mut s, &lookup);
    assert_eq!(s.node_count(), 3);
    assert!(s.contains_node(e2.id));
    let mut capped = Subgraph::from_nodes(vec![e1.clone(), c.clone()]);
    let two = SubgraphExpansionConfig { hop_depth: 2, max_nodes: 2, include_concepts: true, min_edge_weight: 10 };
    SubgraphExpander::new(two).expand_via_concepts(&g, &mut capped, &lookup);
    assert_eq!(capped.node_count(), 2);
    let mut no_concepts = Subgraph::from_nodes(vec![e1]);
    SubgraphExpander::with_defaults().expand_via_concepts(&g, &mut no_concepts, &lookup);
    assert_eq!(no_concepts.node_count(), 1);
}

#[test]
fn extraction_collects_nodes_and_one_edge_per_pair() {
    let mut g = KnowledgeGraph::new();
    g.add_edge(Edge::new(1, 2, "a".to_string()));
    g.add_edge(Edge::new(1, 2, "b".to_string()));
    g.add_edge(Edge::new(2, 3, "c".to_string()));
    g.add_edge(Edge::new(3, 4, "d".to_string()));
    let (mut nodes, edges) = extract_subgraph(&g, &vec![1], 2, &SubgraphConfig::default());
    nodes.sort();
    assert_eq!(nodes, vec![1, 2, 3]);
    assert_eq!(edges.len(), 2);
    assert_eq!(edges[0].relation, "a");
    let small = SubgraphConfig { max_nodes: 2, include_concepts: true, node_type_filter: None };
    let (nodes, _) = extract_subgraph(&g, &vec![1, 4], 3, &small);
    assert_eq!(nodes.len(), 2);
}

#[test]
fn expander_walks_from_seeds() {
    let ev = MemoryNode::new_event("去公园".to_string(), "2026-01-01-10-00".to_string());
    let en = MemoryNode::new_entity("公园".to_string(), EntityType::Place);
    let co = MemoryNode::new_concept("地点".to_string());
    let far = MemoryNode::new_event("别处".to_string(), "2026-01-02-10-00".to_string());
    let mut g = KnowledgeGraph::new();
    g.add_edge(Edge::new(en.id, ev.id, "participates_in".to_string()));
    g.add_edge(Edge::new(en.id, co.id, "conceptualized_as".to_string()));
    let mut weak = Edge::new(co.id, far.id, "relates_to".to_string());
    weak.weight = 5;
    g.add_edge(weak);
    let lookup = vec![ev.clone(), en.clone(), co.clone(), far.clone()];
    let s = SubgraphExpander::with_defaults().expand(&g, &vec![ev.id], &lookup);
    let mut ids = s.node_ids();
    ids.sort();
    let mut want = vec![ev.id, en.id, co.id];
    want.sort();
    assert_eq!(ids, want);
    assert_eq!(s.edge_count(), 2);
    let no_concepts = SubgraphExpansionConfig { hop_depth: 3, max_nodes: 30, include_concepts: false, min_edge_weight: 0 };
    let s2 = SubgraphExpander::new(no_concepts).expand(&g, &vec![ev.id], &lookup);
    assert!(!s2.contains_node(co.id));
    assert!(s2.contains_node(far.id));
    assert_eq!(s2.node_count(), 3);
    assert_eq!(s2.edge_count(), 1);
    let order = SubgraphExpander::new(SubgraphExpansionConfig { hop_depth: 3, max_nodes: 2, include_concepts: true, min_edge_weight: 0 })
        .expand(&g, &vec![ev.id], &lookup);
    assert_eq!(order.node_ids(), vec![ev.id, en.id]);
    let one = SubgraphExpansionConfig { hop_depth: 3, max_nodes: 1, include_concepts: true, min_edge_weight: 0 };
    assert_eq!(SubgraphExpander::new(one).expand(&g, &vec![ev.id], &lookup).node_count(), 1);
}

#[test]
fn test_node_builder() {
    let node = NodeBuilder::entity("张三").entity_type(EntityType::Person).importance(80).build();
    assert_eq!(node.content, "张三");
    assert_eq!(node.node_type(), NodeType::Entity);
    assert_eq!(node.entity_type(), Some(EntityType::Person));
    assert_eq!(node.importance, 80);
}

#[test]
fn event_builder_setters() {
    let node = NodeBuilder::event("开会")
        .event_time("2026-03-01-09-00")
        .participants(vec![1, 2])
        .add_participant(3)
        .source_conversation("conv-1")
        .importance(500)
        .entity_type(EntityType::Place)
        .build();
    assert_eq!(node.event_time(), Some("2026-03-01-09-00"));
    assert_eq!(node.participants().unwrap(), &vec![1, 2, 3]);
    assert_eq!(node.source_conversation_id(), Some("conv-1"));
    assert_eq!(node.importance, 100);
    assert_eq!(node.entity_type(), None);
    assert_eq!(NodeBuilder::concept("人物").build().instance_count(), Some(1));
}

#[test]
fn merged_candidates_keep_first_of_each_id() {
    let a = MemoryNode::new_event("甲".to_string(), "2026-01-01-00-00".to_string());
    let b = MemoryNode::new_event("乙".to_string(), "2026-01-01-00-00".to_string());
    let mut a2 = MemoryNode::new_event("甲'".to_string(), "2026-01-01-00-00".to_string());
    a2.id = a.id;
    let merged = memory_core::retrieval::merge_and_dedupe(vec![a.clone(), b.clone()], vec![a2, b.clone()]);
    let names: Vec<&str> = merged.iter().map(|n| n.content.as_str()).collect();
    assert_eq!(names, vec!["甲", "乙"]);
}

#[test]
fn entity_attributes_are_kept() {
    let node = NodeBuilder::entity("张三").attributes("{\"age\":30}").build();
    assert_eq!(node.attributes(), Some("{\"age\":30}"));
    assert!(MemoryNode::new_entity("家".to_string(), EntityType::Place).attributes().is_none());
}
