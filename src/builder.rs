//! Building memory nodes step by step.

use vstd::prelude::*;
use crate::node::{now_event_time, same_data, MemoryNode, NodeData};
use crate::types::EntityType;

verus! {

/// Builds a memory node step by step. Setters that do not apply to the
/// node's kind leave it as it is.
pub struct NodeBuilder {
    node: MemoryNode,
}

impl NodeBuilder {
    /// The node under construction.
    pub closed spec fn current(&self) -> MemoryNode {
        self.node
    }

    /// A builder for an entity of type `Other`.
    pub fn entity(content: &str) -> (r: Self)
        ensures
            r.current().content@ == content@,
            r.current().data == (NodeData::Entity { entity_type: EntityType::Other, attributes: None }),
            r.current().importance == 50,
    {
        NodeBuilder { node: MemoryNode::new_entity(String::from_str(content), EntityType::Other) }
    }

    /// A builder for an event stamped with the current time.
    pub fn event(content: &str) -> (r: Self)
        ensures
            r.current().content@ == content@,
            r.current().importance == 50,
            match r.current().data {
                NodeData::Event { participants, source_conversation_id, .. } => participants@.len() == 0
                    && source_conversation_id.is_none(),
                _ => false,
            },
    {
        NodeBuilder { node: MemoryNode::new_event(String::from_str(content), now_event_time()) }
    }

    /// A builder for a concept used once as of now.
    pub fn concept(content: &str) -> (r: Self)
        ensures
            r.current().content@ == content@,
            r.current().importance == 50,
            match r.current().data {
                NodeData::Concept { instance_count, .. } => instance_count == 1,
                _ => false,
            },
    {
        NodeBuilder { node: MemoryNode::new_concept(String::from_str(content)) }
    }

    /// Sets the entity type of an entity.
    pub fn entity_type(self, entity_type: EntityType) -> (r: Self)
        ensures
            r.current().id == self.current().id,
            r.current().content == self.current().content,
            r.current().importance == self.current().importance,
            match self.current().data {
                NodeData::Entity { attributes, .. } => r.current().data == (NodeData::Entity { entity_type, attributes }),
                _ => same_data(r.current().data, self.current().data),
            },
    {
        let mut b = self;
        match &mut b.node.data {
            NodeData::Entity { entity_type: t, .. } => {
                *t = entity_type;
            },
            _ => {},
        }
        proof {
            match self.current().data {
                NodeData::Entity { .. } => {},
                NodeData::Event { .. } => {},
                NodeData::Concept { .. } => {},
            }
        }
        b
    }

    /// Sets the attributes of an entity, as JSON text.
    pub fn attributes(self, attrs: &str) -> (r: Self)
        ensures
            r.current().id == self.current().id,
            r.current().content == self.current().content,
            r.current().importance == self.current().importance,
            match (self.current().data, r.current().data) {
                (NodeData::Entity { entity_type: ta, .. }, NodeData::Entity { entity_type: tb, attributes: a }) => ta == tb
                    && a.is_some() && a.unwrap()@ == attrs@,
                (NodeData::Entity { .. }, _) => false,
                _ => same_data(r.current().data, self.current().data),
            },
    {
        let mut b = self;
        match &mut b.node.data {
            NodeData::Entity { attributes: a, .. } => {
                *a = Some(String::from_str(attrs));
            },
            _ => {},
        }
        b
    }

    /// Sets the time of an event.
    pub fn event_time(self, time: &str) -> (r: Self)
        ensures
            r.current().id == self.current().id,
            r.current().content == self.current().content,
            match (self.current().data, r.current().data) {
                (
                    NodeData::Event { participants: pa, source_conversation_id: sa, .. },
                    NodeData::Event { participants: pb, event_time: t, source_conversation_id: sb },
                ) => t@ == time@ && pa@ == pb@ && sa == sb,
                (NodeData::Event { .. }, _) => false,
                _ => same_data(r.current().data, self.current().data),
            },
    {
        let mut b = self;
        match &mut b.node.data {
            NodeData::Event { event_time: t, .. } => {
                *t = String::from_str(time);
            },
            _ => {},
        }
        b
    }

    /// Sets the participants of an event.
    pub fn participants(self, participants: Vec<u128>) -> (r: Self)
        ensures
            r.current().id == self.current().id,
            r.current().content == self.current().content,
            match (self.current().data, r.current().data) {
                (
                    NodeData::Event { event_time: ta, source_conversation_id: sa, .. },
                    NodeData::Event { participants: p, event_time: tb, source_conversation_id: sb },
                ) => p@ == participants@ && ta == tb && sa == sb,
                (NodeData::Event { .. }, _) => false,
                _ => same_data(r.current().data, self.current().data),
            },
    {
        let mut b = self;
        match &mut b.node.data {
            NodeData::Event { participants: p, .. } => {
                *p = participants;
            },
            _ => {},
        }
        b
    }

    /// Appends a participant to an event.
    pub fn add_participant(self, participant: u128) -> (r: Self)
        ensures
            r.current().id == self.current().id,
            r.current().content == self.current().content,
            match (self.current().data, r.current().data) {
                (
                    NodeData::Event { participants: pa, event_time: ta, source_conversation_id: sa },
                    NodeData::Event { participants: pb, event_time: tb, source_conversation_id: sb },
                ) => pb@ == pa@.push(participant) && ta == tb && sa == sb,
                (NodeData::Event { .. }, _) => false,
                _ => same_data(r.current().data, self.current().data),
            },
    {
        let mut b = self;
        match &mut b.node.data {
            NodeData::Event { participants: p, .. } => {
                p.push(participant);
            },
            _ => {},
        }
        b
    }

    /// Sets the importance, in hundredths, capped at one hundred.
    pub fn importance(self, importance: u32) -> (r: Self)
        ensures
            r.current().importance == if importance > 100 {
                100
            } else {
                importance
            },
            r.current().id == self.current().id,
            r.current().content == self.current().content,
            r.current().data == self.current().data,
    {
        let mut b = self;
        b.node.importance = if importance > 100 {
            100
        } else {
            importance
        };
        b
    }

    /// Records the conversation an event came from.
    pub fn source_conversation(self, conv_id: &str) -> (r: Self)
        ensures
            r.current().id == self.current().id,
            r.current().content == self.current().content,
            match (self.current().data, r.current().data) {
                (
                    NodeData::Event { participants: pa, event_time: ta, .. },
                    NodeData::Event { participants: pb, event_time: tb, source_conversation_id: s },
                ) => s.is_some() && s.unwrap()@ == conv_id@ && pa@ == pb@ && ta == tb,
                (NodeData::Event { .. }, _) => false,
                _ => same_data(r.current().data, self.current().data),
            },
    {
        let mut b = self;
        match &mut b.node.data {
            NodeData::Event { source_conversation_id: s, .. } => {
                *s = Some(String::from_str(conv_id));
            },
            _ => {},
        }
        b
    }

    /// The finished node.
    pub fn build(self) -> (r: MemoryNode)
        ensures
            r == self.current(),
    {
        self.node
    }
}

} // verus!
