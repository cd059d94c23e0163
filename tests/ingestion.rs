use memory_core::embed::prepare_embed_batch;
use memory_core::error::MemoryError;
use memory_core::graph::{Edge, KnowledgeGraph};
use memory_core::ingest::{conceptualize_entities, extract_entities, messages_to_events, plan_save, Message};
use memory_core::node::{now_event_time, MemoryNode, NodeData};
use memory_core::pool::{escape_literal, is_inactive, prune_entries, upserted_entry};
use memory_core::config::{ConceptPoolEntry, EmbeddingConfig, RetrievalConfig};
use memory_core::retrieval::{boosted_importance, format_memories, MemoryEntry};
use memory_core::system::MemorySystem;
use memory_core::types::{EntityType, NodeType};
use memory_core::validate::{merge_nodes, validate_edge, validate_node};

fn msg(role: &str, content: &str, ts: Option<i64>) -> Message {
    Message { role: role.to_string(), content: content.to_string(), timestamp: ts }
}

fn event_time_of(n: &MemoryNode) -> String {
    n.event_time().unwrap().to_string()
}

#[test]
fn events_pair_user_and_reply() {
    let ms = vec![
        msg("user", "去北京见了朋友", Some(1700000000)),
        msg("assistant", "好的", Some(1700000001)),
        msg("system", "ignored", None),
        msg("user", "再见", None),
    ];
    let now = "2030-01-01-00-00".to_string();
    let ev = messages_to_events(&ms, &now);
    assert_eq!(ev.len(), 2);
    assert_eq!(ev[0].content, "用户说：去北京见了朋友\n回复：好的");
    assert_eq!(event_time_of(&ev[0]), "2023-11-14-22-13");
    assert_eq!(ev[0].importance, 40);
    assert_eq!(ev[1].content, "用户说：再见");
    assert_eq!(event_time_of(&ev[1]), "2030-01-01-00-00");
    assert_eq!(ev[0].node_type(), NodeType::Event);
}

#[test]
fn event_importance_by_length() {
    let long = "a".repeat(201);
    let mid = "a".repeat(51);
    let ms = vec![msg("user", &long, None), msg("user", &mid, None), msg("user", &"a".repeat(50), None)];
    let ev = messages_to_events(&ms, &"2030-01-01-00-00".to_string());
    assert_eq!(ev.iter().map(|e| e.importance).collect::<Vec<_>>(), vec![80, 60, 40]);
}

#[test]
fn entities_are_deduplicated() {
    let ms = vec![
        msg("user", "家，家。我的朋友", None),
        msg("assistant", "嗯", None),
        msg("user", "回家", None),
    ];
    let ev = messages_to_events(&ms, &"2030-01-01-00-00".to_string());
    let (ents, pairs) = extract_entities(&ms, &ev);
    let names: Vec<&str> = ents.iter().map(|e| e.content.as_str()).collect();
    assert_eq!(names, vec!["家", "我的朋友", "回家"]);
    assert_eq!(ents[0].entity_type(), Some(EntityType::Place));
    assert_eq!(ents[1].entity_type(), Some(EntityType::Person));
    assert_eq!(pairs.len(), 4);
    assert_eq!(pairs[0], (ents[0].id, ev[0].id));
    assert_eq!(pairs[1], (ents[0].id, ev[0].id));
    assert_eq!(pairs[3], (ents[2].id, ev[1].id));
    assert_ne!(ents[0].id, ents[1].id);
}

#[test]
fn one_concept_per_label() {
    let ms = vec![msg("user", "家，我的朋友，我同学，今天", None)];
    let ev = messages_to_events(&ms, &"2030-01-01-00-00".to_string());
    let (ents, _) = extract_entities(&ms, &ev);
    let (cons, edges) = conceptualize_entities(&ents);
    let names: Vec<&str> = cons.iter().map(|c| c.content.as_str()).collect();
    assert_eq!(names, vec!["地点", "人物", "时间"]);
    assert_eq!(edges.len(), 4);
    assert_eq!(edges[1].target, cons[1].id);
    assert_eq!(edges[2].target, cons[1].id);
    assert!(edges.iter().all(|e| e.relation == "conceptualized_as"));
    assert_eq!(cons[0].instance_count(), Some(1));
}

#[test]
fn save_plan_links_entities_events_and_concepts() {
    let ms = vec![
        msg("user", "家，家", Some(1700000000)),
        msg("assistant", "好的", None),
    ];
    let plan = plan_save(&ms, &"2030-01-01-00-00".to_string());
    assert_eq!(plan.nodes.len(), 3);
    assert_eq!(plan.nodes[0].node_type(), NodeType::Event);
    assert_eq!(plan.nodes[1].content, "家");
    assert_eq!(plan.nodes[2].content, "地点");
    assert_eq!(plan.concept_names, vec!["地点".to_string()]);
    assert_eq!(plan.edges.len(), 3);
    assert_eq!(plan.edges[0].relation, "participates_in");
    assert_eq!(plan.edges[0].source, plan.nodes[1].id);
    assert_eq!(plan.edges[0].target, plan.nodes[0].id);
    assert_eq!(plan.edges[2].relation, "conceptualized_as");
    assert_eq!(plan.edges[2].target, plan.nodes[2].id);
}

#[test]
fn concept_bridging_connects_two_events() {
    let ms = vec![msg("user", "我的朋友张三", None), msg("user", "我同学李四", None)];
    let plan = plan_save(&ms, &"2030-01-01-00-00".to_string());
    let mut g = KnowledgeGraph::new();
    g.add_edges(plan.edges);
    let ev1 = plan.nodes[0].id;
    let ev2 = plan.nodes[1].id;
    let person1 = plan.nodes[2].id;
    let person2 = plan.nodes[3].id;
    let concept = plan.nodes[4].id;
    assert_eq!(plan.nodes[4].content, "人物");
    assert!(g.get_neighbors(ev1, 4).contains(&ev2));
    assert!(!g.get_neighbors(ev1, 3).contains(&ev2));
    assert_eq!(g.find_concept_bridged(&vec![person1], &vec![concept]), vec![person2]);
}

#[test]
fn system_lifecycle() {
    let mut s = MemorySystem::new(None);
    assert_eq!(s.db_path(), "./memory_db");
    assert!(!s.is_initialized());
    assert_eq!(s.check_ready(), Err(MemoryError::NotInitialized));
    let ms = vec![msg("user", "家", None)];
    let now = now_event_time();
    assert!(matches!(s.begin_save(&ms, &now), Err(MemoryError::NotInitialized)));
    s.initialize(vec![Edge::new(1, 2, "r".to_string())]);
    assert!(s.is_initialized());
    assert_eq!(s.graph().edge_count(), 1);
    s.initialize(vec![Edge::new(3, 4, "r".to_string())]);
    assert_eq!(s.graph().edge_count(), 1);
    assert_eq!(s.graph().node_count(), 2);
    assert!(matches!(s.begin_save(&vec![], &now), Ok(None)));
    let plan = s.begin_save(&ms, &now).unwrap().unwrap();
    assert_eq!(plan.nodes.len(), 3);
    s.commit_save(plan.edges);
    assert_eq!(s.graph().edge_count(), 3);
    assert_eq!(MemorySystem::new(Some("./tdb")).db_path(), "./tdb");
}

#[test]
fn now_event_time_has_five_fields() {
    let t = now_event_time();
    assert_eq!(t.len(), 16);
    assert_eq!(t.split('-').count(), 5);
}

#[test]
fn embed_batch_boundaries() {
    assert_eq!(prepare_embed_batch(&vec![], 32).unwrap().len(), 0);
    let blank = vec!["".to_string(), "  ".to_string()];
    assert!(matches!(prepare_embed_batch(&blank, 32), Err(MemoryError::InvalidInput(_))));
    let texts: Vec<String> = vec!["a", "", "b", "c", " ", "d", "e"].into_iter().map(String::from).collect();
    let b = prepare_embed_batch(&texts, 2).unwrap();
    assert_eq!(b, vec![vec!["a".to_string(), "b".to_string()], vec!["c".to_string(), "d".to_string()], vec!["e".to_string()]]);
    let one = prepare_embed_batch(&texts, EmbeddingConfig::default().batch_size).unwrap();
    assert_eq!(one.len(), 1);
    assert_eq!(one[0].len(), 5);
}

#[test]
fn test_validate_node() {
    let node = MemoryNode::new_entity(String::new(), EntityType::Person);
    let result = validate_node(&node);
    assert!(!result.is_valid);
    assert!(result.errors.iter().any(|e| e.contains("内容不能为空")));
}

#[test]
fn validation_messages() {
    let mut n = MemoryNode::new_event("x".to_string(), String::new());
    n.importance = 150;
    let r = validate_node(&n);
    assert_eq!(r.errors, vec!["重要性值必须在 0-1 之间，当前: 1.50".to_string(), "事件节点必须指定 event_time".to_string()]);
    let e = validate_edge(&Edge::new(5, 5, "  ".to_string()));
    assert!(!e.is_valid);
    assert_eq!(e.errors, vec!["关系类型不能为空".to_string(), "不允许自环边".to_string()]);
    assert!(validate_edge(&Edge::new(5, 6, "knows".to_string())).is_valid);
}

#[test]
fn merging_keeps_the_stronger_node() {
    let mut a = MemoryNode::new_event("e".to_string(), "2026-01-01-00-00".to_string());
    let mut b = MemoryNode::new_event("e".to_string(), "2026-01-01-00-00".to_string());
    if let NodeData::Event { participants, .. } = &mut a.data {
        participants.push(1);
        participants.push(2);
    }
    if let NodeData::Event { participants, .. } = &mut b.data {
        participants.push(2);
        participants.push(3);
    }
    b.importance = 90;
    merge_nodes(&mut a, &b);
    assert_eq!(a.access_count, 1);
    assert_eq!(a.importance, 90);
    assert_eq!(a.participants().unwrap(), &vec![1, 2, 3]);
}

#[test]
fn concept_pool_rules() {
    let e = upserted_entry(None, "人物", 5);
    assert_eq!((e.name.as_str(), e.instance_count, e.last_used_at), ("人物", 1, 5));
    let e2 = upserted_entry(Some(&e), "ignored", 9);
    assert_eq!((e2.name.as_str(), e2.instance_count, e2.last_used_at), ("人物", 2, 9));
    let full = ConceptPoolEntry { name: "x".to_string(), instance_count: u32::MAX, last_used_at: 0 };
    assert_eq!(upserted_entry(Some(&full), "x", 1).instance_count, u32::MAX);
    assert!(is_inactive(&e, 2, 6));
    assert!(!is_inactive(&e, 1, 6));
    assert!(!is_inactive(&e, 2, 5));
    let (kept, removed) = prune_entries(vec![e, e2], 2, 100);
    assert_eq!(removed, 1);
    assert_eq!(kept.len(), 1);
    assert_eq!(kept[0].instance_count, 2);
    assert_eq!(escape_literal("it's"), "it''s");
}

#[test]
fn custom_mark_bonus_is_capped() {
    assert_eq!(boosted_importance(40, true), 70);
    assert_eq!(boosted_importance(90, true), 100);
    assert_eq!(boosted_importance(90, false), 90);
}

#[test]
fn formatted_context() {
    assert_eq!(format_memories(&vec![]), "");
    let es = vec![
        MemoryEntry { content: "去北京".to_string(), memory_type: NodeType::Event, event_time: None, time_ago: Some("3天前".to_string()) },
        MemoryEntry { content: "人物".to_string(), memory_type: NodeType::Concept, event_time: None, time_ago: None },
    ];
    assert_eq!(format_memories(&es), "## 相关记忆\n- [事件] 去北京 (3天前)\n- [概念] 人物");
    let d = RetrievalConfig::default();
    assert_eq!((d.top_k, d.hop_depth, d.max_subgraph_nodes, d.rerank_top_n), (10, 2, 30, 5));
}

#[test]
fn storage_handle_lifecycle() {
    let mut s = memory_core::storage::LanceDBStorage::new("./tdb").unwrap();
    assert_eq!(s.db_path(), "./tdb");
    assert!(!s.is_initialized());
    assert_eq!(s.check_initialized(), Err(MemoryError::NotInitialized));
    s.mark_initialized();
    assert_eq!(s.check_initialized(), Ok(()));
    let missing = memory_core::config::missing_tables(&vec!["memory_edges".to_string(), "x".to_string()]);
    assert_eq!(missing, vec!["memory_nodes", "concept_pool", "custom_memories", "sync_metadata"]);
}

#[test]
fn empty_query_result() {
    let r = memory_core::retrieval::assemble_result(vec![], Some(true));
    assert_eq!(r.count, 0);
    assert_eq!(r.formatted_context, "");
    assert_eq!(r.raw.unwrap().len(), 0);
    let e = MemoryEntry { content: "北京".to_string(), memory_type: NodeType::Event, event_time: None, time_ago: None };
    let r = memory_core::retrieval::assemble_result(vec![e], None);
    assert_eq!(r.count, 1);
    assert_eq!(r.formatted_context, "## 相关记忆\n- [事件] 北京");
    assert!(r.raw.is_none());
    assert_eq!(memory_core::retrieval::seed_count(None, 10), 10);
    assert_eq!(memory_core::retrieval::seed_count(Some(3), 10), 3);
}

#[test]
fn unused_ids_avoid_taken_ones() {
    let taken: Vec<u128> = vec![0, 1, 2, 5];
    let id = memory_core::node::unused_id(&taken);
    assert!(!taken.contains(&id));
    let mut node = MemoryNode::new_entity("家".to_string(), EntityType::Place);
    let mut ids = vec![node.id];
    memory_core::node::claim_id(&mut node, &mut ids);
    assert_eq!(ids.len(), 2);
    assert_ne!(ids[0], ids[1]);
    assert_eq!(ids[1], node.id);
}

#[test]
fn save_plan_ids_are_distinct_and_home_appears_once() {
    let ms = vec![msg("user", "家，家", None), msg("user", "家", None)];
    let plan = plan_save(&ms, &"2030-01-01-00-00".to_string());
    let mut ids: Vec<u128> = plan.nodes.iter().map(|n| n.id).collect();
    ids.sort();
    ids.dedup();
    assert_eq!(ids.len(), plan.nodes.len());
    let homes: Vec<&MemoryNode> = plan.nodes.iter().filter(|n| n.content == "家").collect();
    assert_eq!(homes.len(), 1);
    let places: Vec<&MemoryNode> = plan.nodes.iter().filter(|n| n.content == "地点").collect();
    assert_eq!(places.len(), 1);
    let concept_edges: Vec<&Edge> = plan.edges.iter().filter(|e| e.relation == "conceptualized_as").collect();
    assert_eq!(concept_edges.len(), 1);
    assert_eq!((concept_edges[0].source, concept_edges[0].target), (homes[0].id, places[0].id));
}
