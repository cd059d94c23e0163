//! Configuration and plain records of the engine.

use vstd::prelude::*;
use crate::types::NodeType;

verus! {

/// Retrieval tuning.
#[derive(Debug, Clone)]
pub struct RetrievalConfig {
    /// Seeds taken from the vector search.
    pub top_k: usize,
    /// Depth of subgraph expansion.
    pub hop_depth: usize,
    /// Cap on the expanded subgraph.
    pub max_subgraph_nodes: usize,
    /// Results kept after reranking.
    pub rerank_top_n: usize,
}

impl Default for RetrievalConfig {
    fn default() -> (r: Self)
        ensures
            r.top_k == 10 && r.hop_depth == 2 && r.max_subgraph_nodes == 30 && r.rerank_top_n == 5,
    {
        RetrievalConfig { top_k: 10, hop_depth: 2, max_subgraph_nodes: 30, rerank_top_n: 5 }
    }
}

/// Where the embedding service lives and how to authenticate to it.
#[derive(Debug, Clone)]
pub struct ServerConfig {
    pub server_url: String,
    /// Bearer token, forwarded as is.
    pub auth_token: Option<String>,
    pub talk_endpoint: String,
    pub embedding_endpoint: String,
}

impl Default for ServerConfig {
    fn default() -> (r: Self)
        ensures
            r.server_url@ == "https://www.yukiwithyou.asia/api"@,
            r.auth_token.is_none(),
            r.talk_endpoint@ == "/talk"@,
            r.embedding_endpoint@ == "/v1/embeddings"@,
    {
        ServerConfig {
            server_url: String::from_str("https://www.yukiwithyou.asia/api"),
            auth_token: None,
            talk_endpoint: String::from_str("/talk"),
            embedding_endpoint: String::from_str("/v1/embeddings"),
        }
    }
}

/// How texts are embedded.
#[derive(Debug, Clone)]
pub struct EmbeddingConfig {
    /// Model name, "provider-model".
    pub server_model: String,
    /// Vector dimension.
    pub dimension: usize,
    /// Texts per request.
    pub batch_size: usize,
    pub timeout_ms: u64,
    pub max_retries: u32,
    pub retry_delay_ms: u64,
}

impl Default for EmbeddingConfig {
    fn default() -> (r: Self)
        ensures
            r.server_model@ == "siliconflow-BAAI/bge-m3"@,
            r.dimension == 1024,
            r.batch_size == 32,
            r.timeout_ms == 30000,
            r.max_retries == 3,
            r.retry_delay_ms == 1000,
    {
        EmbeddingConfig {
            server_model: String::from_str("siliconflow-BAAI/bge-m3"),
            dimension: 1024,
            batch_size: 32,
            timeout_ms: 30000,
            max_retries: 3,
            retry_delay_ms: 1000,
        }
    }
}

/// Dimension of stored embeddings.
pub const VECTOR_DIM: usize = 1024;

/// Where the store keeps its tables.
#[derive(Debug, Clone)]
pub struct LanceDBConfig {
    pub db_path: String,
    pub vector_dimension: usize,
}

impl Default for LanceDBConfig {
    fn default() -> (r: Self)
        ensures
            r.db_path@ == "./memory_db"@,
            r.vector_dimension == VECTOR_DIM,
    {
        LanceDBConfig { db_path: String::from_str("./memory_db"), vector_dimension: VECTOR_DIM }
    }
}

/// Names of the store's tables.
pub const NODES_TABLE: &'static str = "memory_nodes";
pub const EDGES_TABLE: &'static str = "memory_edges";
pub const CONCEPT_POOL_TABLE: &'static str = "concept_pool";
pub const CUSTOM_MEMORIES_TABLE: &'static str = "custom_memories";
pub const SYNC_METADATA_TABLE: &'static str = "sync_metadata";

/// The names of all tables, in the order they are created.
pub open spec fn table_list() -> Seq<&'static str> {
    seq![NODES_TABLE, EDGES_TABLE, CONCEPT_POOL_TABLE, CUSTOM_MEMORIES_TABLE, SYNC_METADATA_TABLE]
}

/// The tables that `existing` lacks, in creation order.
pub fn missing_tables(existing: &Vec<String>) -> (r: Vec<&'static str>)
    ensures
        r@ == table_list().filter(|t: &'static str| !crate::segment::string_views(existing@).contains(t@)),
{
    let names: Vec<&'static str> = vec![NODES_TABLE, EDGES_TABLE, CONCEPT_POOL_TABLE, CUSTOM_MEMORIES_TABLE, SYNC_METADATA_TABLE];
    assert(names@ =~= table_list());
    let ghost ev = crate::segment::string_views(existing@);
    let mut r: Vec<&'static str> = Vec::new();
    let mut i: usize = 0;
    proof {
        reveal(Seq::filter);
        assert(names@.subrange(0, 0) =~= Seq::<&'static str>::empty());
    }
    while i < names.len()
        invariant
            ev == crate::segment::string_views(existing@),
            i <= names@.len(),
            r@ == names@.subrange(0, i as int).filter(|t: &'static str| !ev.contains(t@)),
        decreases names@.len() - i,
    {
        proof {
            assert(names@.subrange(0, i + 1) =~= names@.subrange(0, i as int).push(names@[i as int]));
            names@.subrange(0, i as int).lemma_filter_push(names@[i as int], |t: &'static str| !ev.contains(t@));
        }
        let want = crate::text::chars_of(names[i]);
        let mut found = false;
        let mut j: usize = 0;
        while j < existing.len()
            invariant
                ev == crate::segment::string_views(existing@),
                j <= existing@.len(),
                found == ev.subrange(0, j as int).contains(want@),
            decreases existing@.len() - j,
        {
            proof {
                assert(ev.subrange(0, j + 1) =~= ev.subrange(0, j as int).push(ev[j as int]));
                vstd::seq_lib::lemma_seq_contains_after_push(ev.subrange(0, j as int), ev[j as int], want@);
            }
            if crate::text::same_chars(&crate::text::chars_of(existing[j].as_str()), &want) {
                found = true;
            }
            j = j + 1;
        }
        assert(ev.subrange(0, existing@.len() as int) =~= ev);
        if !found {
            r.push(names[i]);
        }
        i = i + 1;
    }
    assert(names@.subrange(0, names@.len() as int) =~= names@);
    r
}

/// Limits of subgraph extraction.
#[derive(Debug, Clone)]
pub struct SubgraphConfig {
    pub max_nodes: usize,
    pub include_concepts: bool,
    /// Kinds of node to keep; `None` keeps all.
    pub node_type_filter: Option<Vec<NodeType>>,
}

impl Default for SubgraphConfig {
    fn default() -> (r: Self)
        ensures
            r.max_nodes == 30,
            r.include_concepts,
            r.node_type_filter.is_none(),
    {
        SubgraphConfig { max_nodes: 30, include_concepts: true, node_type_filter: None }
    }
}

/// Restriction of a vector search.
#[derive(Debug, Clone)]
pub struct VectorSearchFilter {
    pub node_type: Option<NodeType>,
}

/// How vectors are compared.
#[derive(Debug, Clone, Copy, PartialEq, Eq, Structural)]
pub enum SimilarityMetric {
    Cosine,
    Euclidean,
    DotProduct,
}

impl Default for SimilarityMetric {
    fn default() -> (r: Self)
        ensures
            r == SimilarityMetric::Cosine,
    {
        SimilarityMetric::Cosine
    }
}

/// A query: the user's message and optional knobs.
#[derive(Debug, Clone)]
pub struct QueryParams {
    pub user_message: String,
    pub recent_messages: Option<Vec<crate::ingest::Message>>,
    pub top_k: Option<usize>,
    pub include_raw: Option<bool>,
}

/// A (head, relation, tail) triple.
#[derive(Debug, Clone)]
pub struct RawTriple {
    pub head: String,
    pub relation: String,
    pub tail: String,
}

/// An event sentence with its time and entities.
#[derive(Debug, Clone)]
pub struct ExtractedEvent {
    pub event: String,
    pub event_time: String,
    pub entities: Vec<String>,
}

/// A row of the concept pool.
#[derive(Debug, Clone)]
pub struct ConceptPoolEntry {
    pub name: String,
    pub instance_count: u32,
    pub last_used_at: i64,
}

/// A row of the custom-mark table.
#[derive(Debug, Clone)]
pub struct CustomMemoryRecord {
    pub node_id: String,
    pub marked_at: i64,
}

/// The single row of sync metadata.
#[derive(Debug, Clone)]
pub struct SyncMetadataRecord {
    pub last_sync_at: i64,
    pub version: String,
}

/// Outcome of checking an edge.
#[derive(Debug)]
pub struct EdgeValidationResult {
    pub is_valid: bool,
    pub errors: Vec<String>,
}

/// Outcome of checking a node.
#[derive(Debug)]
pub struct NodeValidationResult {
    pub is_valid: bool,
    pub errors: Vec<String>,
}

} // verus!
