//! Memory nodes: entities, events and concepts.

use vstd::prelude::*;
use crate::types::{EntityType, NodeType};

verus! {

/// Relies on `uuid::Uuid::new_v4` and `Uuid::as_u128`: a fresh random
/// identifier; nothing is promised of its value.
#[verifier::external_body]
pub(crate) fn fresh_id() -> (r: u128) {
    uuid::Uuid::new_v4().as_u128()
}

/// A fresh identifier that `taken` does not hold: a random one where it is
/// free, else the least identifier not taken.
pub fn unused_id(taken: &Vec<u128>) -> (r: u128)
    ensures
        !taken@.contains(r),
{
    let drawn = fresh_id();
    if !crate::graph::holds(taken, drawn) {
        return drawn;
    }
    let n = taken.len();
    let mut v: u128 = 0;
    while crate::graph::holds(taken, v)
        invariant
            n == taken@.len(),
            v <= n,
            forall|x: u128| x < v ==> taken@.contains(x),
        decreases n - v,
    {
        proof {
            let ti = taken@.map_values(|x: u128| x as int);
            vstd::set_lib::lemma_int_range(0, v + 1);
            ti.lemma_cardinality_of_set();
            assert forall|i: int| vstd::set_lib::set_int_range(0, v + 1).contains(i) implies ti.to_set().contains(i) by {
                let x = i as u128;
                assert(taken@.contains(x));
                let w = choose|w: int| 0 <= w < taken@.len() && taken@[w] == x;
                assert(ti[w] == i);
            }
            vstd::set_lib::lemma_len_subset(vstd::set_lib::set_int_range(0, v + 1), ti.to_set());
        }
        v = v + 1;
    }
    v
}

/// Gives `node` an identifier that `taken` does not hold yet, keeping its
/// drawn one where it is free, and records it in `taken`.
pub fn claim_id(node: &mut MemoryNode, taken: &mut Vec<u128>)
    ensures
        final(node).id == (if old(taken)@.contains(old(node).id) {
            final(node).id
        } else {
            old(node).id
        }),
        !old(taken)@.contains(final(node).id),
        final(taken)@ == old(taken)@.push(final(node).id),
        old(taken)@.no_duplicates() ==> final(taken)@.no_duplicates(),
        final(node).content == old(node).content,
        final(node).importance == old(node).importance,
        final(node).access_count == old(node).access_count,
        final(node).created_at == old(node).created_at,
        final(node).updated_at == old(node).updated_at,
        final(node).data == old(node).data,
{
    if crate::graph::holds(taken, node.id) {
        node.id = unused_id(taken);
    }
    let ghost t0 = taken@;
    taken.push(node.id);
    proof {
        if t0.no_duplicates() {
            assert forall|a: int, b: int| 0 <= a < b < taken@.len() implies taken@[a] != taken@[b] by {
                if b == t0.len() {
                    assert(t0.contains(taken@[a]));
                }
            }
        }
    }
}

/// Relies on `chrono::Utc::now` and `DateTime::timestamp`: the current Unix
/// time in seconds; nothing is promised of its value.
#[verifier::external_body]
pub(crate) fn now_seconds() -> (r: i64) {
    chrono::Utc::now().timestamp()
}

/// Relies on `chrono::Utc::now` and `DateTime::format`: the current UTC time
/// as "YYYY-MM-DD-HH-MM"; nothing is promised of its value.
#[verifier::external_body]
pub fn now_event_time() -> (r: String) {
    chrono::Utc::now().format("%Y-%m-%d-%H-%M").to_string()
}

/// Payload specific to each kind of node.
#[derive(Debug, Clone)]
pub enum NodeData {
    Entity {
        entity_type: EntityType,
        /// Free-form attributes, as JSON text.
        attributes: Option<String>,
    },
    Event {
        /// Identifiers of the participating entities.
        participants: Vec<u128>,
        /// "YYYY-MM-DD-HH-MM".
        event_time: String,
        source_conversation_id: Option<String>,
    },
    Concept { instance_count: u32, last_used_at: i64 },
}

/// A unit of memory. The embedding vector is kept beside the node by the
/// store; importance is counted in hundredths (0 to 100).
#[derive(Debug, Clone)]
pub struct MemoryNode {
    pub id: u128,
    pub content: String,
    pub importance: u32,
    pub access_count: u32,
    pub created_at: i64,
    pub updated_at: i64,
    pub data: NodeData,
}

/// The kind of a payload.
pub open spec fn kind_of(d: NodeData) -> NodeType {
    match d {
        NodeData::Entity { .. } => NodeType::Entity,
        NodeData::Event { .. } => NodeType::Event,
        NodeData::Concept { .. } => NodeType::Concept,
    }
}

/// `a` and `b` carry the same payload.
pub open spec fn same_data(a: NodeData, b: NodeData) -> bool {
    match (a, b) {
        (NodeData::Entity { entity_type: t1, attributes: a1 }, NodeData::Entity { entity_type: t2, attributes: a2 }) => t1
            == t2 && a1 == a2,
        (
            NodeData::Event { participants: pa, event_time: ea, source_conversation_id: sa },
            NodeData::Event { participants: pb, event_time: eb, source_conversation_id: sb },
        ) => pa@ == pb@ && ea == eb && sa == sb,
        (
            NodeData::Concept { instance_count: c1, last_used_at: l1 },
            NodeData::Concept { instance_count: c2, last_used_at: l2 },
        ) => c1 == c2 && l1 == l2,
        _ => false,
    }
}

/// `a` and `b` are the same node, field by field.
pub open spec fn same_node(a: MemoryNode, b: MemoryNode) -> bool {
    &&& a.id == b.id
    &&& a.content == b.content
    &&& a.importance == b.importance
    &&& a.access_count == b.access_count
    &&& a.created_at == b.created_at
    &&& a.updated_at == b.updated_at
    &&& same_data(a.data, b.data)
}

impl NodeData {
    /// A field-by-field copy.
    pub fn clone_data(&self) -> (r: NodeData)
        ensures
            same_data(r, *self),
    {
        match self {
            NodeData::Entity { entity_type, attributes } => {
                let a = match attributes {
                    Some(t) => Some(t.clone()),
                    None => None,
                };
                NodeData::Entity { entity_type: *entity_type, attributes: a }
            },
            NodeData::Event { participants, event_time, source_conversation_id } => {
                let sc = match source_conversation_id {
                    Some(c) => Some(c.clone()),
                    None => None,
                };
                NodeData::Event { participants: participants.clone(), event_time: event_time.clone(), source_conversation_id: sc }
            },
            NodeData::Concept { instance_count, last_used_at } => NodeData::Concept {
                instance_count: *instance_count,
                last_used_at: *last_used_at,
            },
        }
    }
}

impl MemoryNode {
    /// A field-by-field copy.
    pub fn clone_node(&self) -> (r: MemoryNode)
        ensures
            same_node(r, *self),
    {
        MemoryNode {
            id: self.id,
            content: self.content.clone(),
            importance: self.importance,
            access_count: self.access_count,
            created_at: self.created_at,
            updated_at: self.updated_at,
            data: self.data.clone_data(),
        }
    }

    /// The node's kind, read off its payload.
    pub fn node_type(&self) -> (r: NodeType)
        ensures
            r == kind_of(self.data),
    {
        match &self.data {
            NodeData::Entity { .. } => NodeType::Entity,
            NodeData::Event { .. } => NodeType::Event,
            NodeData::Concept { .. } => NodeType::Concept,
        }
    }

    /// The entity type of an entity node.
    pub fn entity_type(&self) -> (r: Option<EntityType>)
        ensures
            r == (match self.data {
                NodeData::Entity { entity_type, .. } => Some(entity_type),
                _ => None,
            }),
    {
        match &self.data {
            NodeData::Entity { entity_type, .. } => Some(*entity_type),
            _ => None,
        }
    }

    /// The attributes of an entity node, as JSON text, if it has any.
    pub fn attributes(&self) -> (r: Option<&str>)
        ensures
            match self.data {
                NodeData::Entity { attributes: Some(a), .. } => r.is_some() && r.unwrap()@ == a@,
                _ => r.is_none(),
            },
    {
        match &self.data {
            NodeData::Entity { attributes: Some(a), .. } => Some(a.as_str()),
            _ => None,
        }
    }

    /// The time of an event node.
    pub fn event_time(&self) -> (r: Option<&str>)
        ensures
            match self.data {
                NodeData::Event { event_time, .. } => r.is_some() && r.unwrap()@ == event_time@,
                _ => r.is_none(),
            },
    {
        match &self.data {
            NodeData::Event { event_time, .. } => Some(event_time.as_str()),
            _ => None,
        }
    }

    /// The participants of an event node.
    pub fn participants(&self) -> (r: Option<&Vec<u128>>)
        ensures
            match self.data {
                NodeData::Event { participants, .. } => r.is_some() && r.unwrap()@ == participants@,
                _ => r.is_none(),
            },
    {
        match &self.data {
            NodeData::Event { participants, .. } => Some(participants),
            _ => None,
        }
    }

    /// The conversation an event node came from, if recorded.
    pub fn source_conversation_id(&self) -> (r: Option<&str>)
        ensures
            match self.data {
                NodeData::Event { source_conversation_id: Some(c), .. } => r.is_some() && r.unwrap()@ == c@,
                _ => r.is_none(),
            },
    {
        match &self.data {
            NodeData::Event { source_conversation_id: Some(c), .. } => Some(c.as_str()),
            _ => None,
        }
    }

    /// The instance count of a concept node.
    pub fn instance_count(&self) -> (r: Option<u32>)
        ensures
            r == (match self.data {
                NodeData::Concept { instance_count, .. } => Some(instance_count),
                _ => None,
            }),
    {
        match &self.data {
            NodeData::Concept { instance_count, .. } => Some(*instance_count),
            _ => None,
        }
    }

    /// When a concept node was last used.
    pub fn last_used_at(&self) -> (r: Option<i64>)
        ensures
            r == (match self.data {
                NodeData::Concept { last_used_at, .. } => Some(last_used_at),
                _ => None,
            }),
    {
        match &self.data {
            NodeData::Concept { last_used_at, .. } => Some(*last_used_at),
            _ => None,
        }
    }

    /// A fresh entity node of middling importance.
    pub fn new_entity(content: String, entity_type: EntityType) -> (r: Self)
        ensures
            r.content@ == content@,
            r.data == (NodeData::Entity { entity_type, attributes: None }),
            r.importance == 50,
            r.access_count == 0,
            r.created_at == r.updated_at,
    {
        let now = now_seconds();
        MemoryNode {
            id: fresh_id(),
            content,
            importance: 50,
            access_count: 0,
            created_at: now,
            updated_at: now,
            data: NodeData::Entity { entity_type, attributes: None },
        }
    }

    /// A fresh event node of middling importance, with no participants.
    pub fn new_event(content: String, event_time: String) -> (r: Self)
        ensures
            r.content@ == content@,
            match r.data {
                NodeData::Event { participants, event_time: t, source_conversation_id } => participants@.len()
                    == 0 && t@ == event_time@ && source_conversation_id.is_none(),
                _ => false,
            },
            r.importance == 50,
            r.access_count == 0,
            r.created_at == r.updated_at,
    {
        let now = now_seconds();
        MemoryNode {
            id: fresh_id(),
            content,
            importance: 50,
            access_count: 0,
            created_at: now,
            updated_at: now,
            data: NodeData::Event { participants: Vec::new(), event_time, source_conversation_id: None },
        }
    }

    /// A fresh concept node, used once as of now.
    pub fn new_concept(content: String) -> (r: Self)
        ensures
            r.content@ == content@,
            match r.data {
                NodeData::Concept { instance_count, last_used_at } => instance_count == 1
                    && last_used_at == r.created_at,
                _ => false,
            },
            r.importance == 50,
            r.access_count == 0,
            r.created_at == r.updated_at,
    {
        let now = now_seconds();
        MemoryNode {
            id: fresh_id(),
            content,
            importance: 50,
            access_count: 0,
            created_at: now,
            updated_at: now,
            data: NodeData::Concept { instance_count: 1, last_used_at: now },
        }
    }
}

} // verus!
