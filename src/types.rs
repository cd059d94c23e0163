//! Kinds of memory nodes and the plain records around them.

use vstd::prelude::*;
use crate::text::{chars_of, same_chars};

verus! {

/// The kind of a memory node, derived from its payload.
#[derive(Debug, Clone, Copy, PartialEq, Eq, Structural, Hash)]
pub enum NodeType {
    /// A concrete referent: a person, a place, a thing.
    Entity,
    /// A conversational turn.
    Event,
    /// An abstract class that entities are conceptualized as.
    Concept,
}

/// What an entity refers to.
#[derive(Debug, Clone, Copy, PartialEq, Eq, Structural, Hash)]
pub enum EntityType {
    Person,
    Place,
    Object,
    Time,
    Other,
}

/// The name under which the store records a kind of node.
pub open spec fn node_type_text(t: NodeType) -> Seq<char> {
    match t {
        NodeType::Entity => "entity"@,
        NodeType::Event => "event"@,
        NodeType::Concept => "concept"@,
    }
}

/// The name under which the store records an entity type.
pub open spec fn entity_type_text(t: EntityType) -> Seq<char> {
    match t {
        EntityType::Person => "person"@,
        EntityType::Place => "place"@,
        EntityType::Object => "object"@,
        EntityType::Time => "time"@,
        EntityType::Other => "other"@,
    }
}

/// The entity type that a stored name denotes; unknown names denote `Other`.
pub open spec fn entity_type_named(s: Seq<char>) -> EntityType {
    if s == "person"@ {
        EntityType::Person
    } else if s == "place"@ {
        EntityType::Place
    } else if s == "object"@ {
        EntityType::Object
    } else if s == "time"@ {
        EntityType::Time
    } else {
        EntityType::Other
    }
}

impl NodeType {
    /// The stored name of this kind.
    pub fn name(&self) -> (r: &'static str)
        ensures
            r@ == node_type_text(*self),
    {
        match self {
            NodeType::Entity => "entity",
            NodeType::Event => "event",
            NodeType::Concept => "concept",
        }
    }

    /// The kind stored under `name`, if it is one.
    pub fn from_name(name: &str) -> (r: Option<NodeType>)
        ensures
            match r {
                Some(t) => node_type_text(t) == name@,
                None => forall|t: NodeType| node_type_text(t) != name@,
            },
    {
        let n = chars_of(name);
        if same_chars(&n, &chars_of("entity")) {
            Some(NodeType::Entity)
        } else if same_chars(&n, &chars_of("event")) {
            Some(NodeType::Event)
        } else if same_chars(&n, &chars_of("concept")) {
            Some(NodeType::Concept)
        } else {
            proof {
                assert forall|t: NodeType| node_type_text(t) != name@ by {
                    match t {
                        NodeType::Entity => {},
                        NodeType::Event => {},
                        NodeType::Concept => {},
                    }
                }
            }
            None
        }
    }
}

impl EntityType {
    /// The stored name of this entity type.
    pub fn name(&self) -> (r: &'static str)
        ensures
            r@ == entity_type_text(*self),
    {
        match self {
            EntityType::Person => "person",
            EntityType::Place => "place",
            EntityType::Object => "object",
            EntityType::Time => "time",
            EntityType::Other => "other",
        }
    }

    /// The entity type stored under `name`; an unknown name reads as `Other`.
    pub fn from_name(name: &str) -> (r: EntityType)
        ensures
            r == entity_type_named(name@),
    {
        let n = chars_of(name);
        if same_chars(&n, &chars_of("person")) {
            EntityType::Person
        } else if same_chars(&n, &chars_of("place")) {
            EntityType::Place
        } else if same_chars(&n, &chars_of("object")) {
            EntityType::Object
        } else if same_chars(&n, &chars_of("time")) {
            EntityType::Time
        } else {
            EntityType::Other
        }
    }
}

} // verus!
