//! Conversational memory engine: the verified core.
//!
//! Chat messages are distilled into a typed knowledge graph of entities,
//! events and concepts (`ingest`). An in-memory index over node identifiers
//! (`graph`, `traversal`, `subgraph`) answers neighbourhood, path and
//! concept-bridging queries. `system` holds the lifecycle decisions of the
//! facade; the host performs the store and embedding I/O they call for.
//! Floating-point scoring lives with the host as well.

pub mod builder;
pub mod config;
pub mod dates;
pub mod edges;
pub mod embed;
pub mod entity;
pub mod error;
pub mod graph;
pub mod ingest;
pub mod node;
pub mod pool;
pub mod relation;
pub mod relation_types;
pub mod retrieval;
pub mod segment;
pub mod storage;
pub mod subgraph;
pub mod system;
pub mod text;
pub mod traversal;
pub mod types;
pub mod validate;
