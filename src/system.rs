//! Lifecycle of the memory system: the decisions around initialization,
//! saving and querying. The host performs the store and embedder calls
//! that each step asks for and hands the results back.

use vstd::prelude::*;
use crate::error::MemoryError;
use crate::graph::{touches, Edge, KnowledgeGraph};
use crate::ingest::{is_save_plan, plan_save, Message, SavePlan};

verus! {

/// The facade's state: where the store lives, the in-memory graph index,
/// and whether `initialize` has run.
pub struct MemorySystem {
    db_path: String,
    graph: KnowledgeGraph,
    initialized: bool,
}

/// Some edge of `es` touches `x`.
pub open spec fn touches_any(es: Seq<Edge>, x: u128) -> bool {
    exists|i: int| 0 <= i < es.len() && touches(#[trigger] es[i], x)
}

proof fn lemma_touches_any_push(es: Seq<Edge>, e: Edge)
    ensures
        forall|x: u128| touches_any(es.push(e), x) <==> (touches_any(es, x) || touches(e, x)),
{
    assert forall|x: u128| touches_any(es.push(e), x) <==> (touches_any(es, x) || touches(e, x)) by {
        if touches_any(es.push(e), x) {
            let i = choose|i: int| 0 <= i < es.push(e).len() && touches(#[trigger] es.push(e)[i], x);
            if i < es.len() {
                assert(es[i] == es.push(e)[i]);
            }
        }
        if touches_any(es, x) {
            let i = choose|i: int| 0 <= i < es.len() && touches(#[trigger] es[i], x);
            assert(es.push(e)[i] == es[i]);
        }
        if touches(e, x) {
            assert(es.push(e)[es.len() as int] == e);
        }
    }
}

/// `after` is `before` once `initialize` has been offered `edges`, the edges
/// read from the store: a first call loads them into the graph and marks the
/// system initialized; a later call changes nothing.
pub open spec fn initialized_from(before: MemorySystem, edges: Seq<Edge>, after: MemorySystem) -> bool {
    if before.is_ready() {
        after.path() == before.path() && after.graph_view() == before.graph_view()
            && after.is_ready()
    } else {
        &&& after.path() == before.path()
        &&& after.is_ready()
        &&& after.graph_view().edge_list() == before.graph_view().edge_list() + edges
        &&& forall|x: u128|
            after.graph_view().node_ids().contains(x) <==> (before.graph_view().node_ids().contains(x)
                || touches_any(edges, x))
    }
}

impl MemorySystem {
    pub closed spec fn is_ready(&self) -> bool {
        self.initialized
    }

    pub closed spec fn path(&self) -> Seq<char> {
        self.db_path@
    }

    pub closed spec fn graph_view(&self) -> KnowledgeGraph {
        self.graph
    }

    pub open spec fn wf(&self) -> bool {
        self.graph_view().wf()
    }

    /// A system over the store at `db_path` ("./memory_db" by default), not
    /// yet initialized, with an empty graph. Does no I/O.
    pub fn new(db_path: Option<&str>) -> (r: Self)
        ensures
            r.wf(),
            !r.is_ready(),
            r.path() == match db_path {
                Some(p) => p@,
                None => "./memory_db"@,
            },
            r.graph_view().node_ids().len() == 0,
            r.graph_view().edge_list().len() == 0,
    {
        let path = match db_path {
            Some(p) => String::from_str(p),
            None => String::from_str("./memory_db"),
        };
        MemorySystem { db_path: path, graph: KnowledgeGraph::new(), initialized: false }
    }

    /// Where the store lives.
    pub fn db_path(&self) -> (r: &str)
        ensures
            r@ == self.path(),
    {
        self.db_path.as_str()
    }

    /// Whether `initialize` has run.
    pub fn is_initialized(&self) -> (r: bool)
        ensures
            r == self.is_ready(),
    {
        self.initialized
    }

    /// The graph index.
    pub fn graph(&self) -> (r: &KnowledgeGraph)
        ensures
            *r == self.graph_view(),
    {
        &self.graph
    }

    /// Loads the edges read from the store into the graph and marks the
    /// system initialized; once initialized, a call changes nothing.
    pub fn initialize(&mut self, stored_edges: Vec<Edge>)
        requires
            old(self).wf(),
        ensures
            final(self).wf(),
            initialized_from(*old(self), stored_edges@, *final(self)),
    {
        if self.initialized {
            return;
        }
        let ghost g0 = self.graph;
        let mut i: usize = 0;
        assert(stored_edges@.subrange(0, 0) =~= Seq::<Edge>::empty());
        while i < stored_edges.len()
            invariant
                self.graph.wf(),
                self.db_path == old(self).db_path,
                !self.initialized,
                i <= stored_edges@.len(),
                self.graph.edge_list() == g0.edge_list() + stored_edges@.subrange(0, i as int),
                forall|x: u128|
                    self.graph.node_ids().contains(x) <==> (g0.node_ids().contains(x)
                        || touches_any(stored_edges@.subrange(0, i as int), x)),
            decreases stored_edges@.len() - i,
        {
            let e = stored_edges[i].clone_edge();
            let ghost n_prev = self.graph.node_ids();
            let ghost pre = stored_edges@.subrange(0, i as int);
            assert(forall|x: u128| n_prev.contains(x) <==> (g0.node_ids().contains(x) || touches_any(pre, x)));
            self.graph.add_edge(e);
            proof {
                assert(stored_edges@.subrange(0, i + 1) =~= pre.push(e));
                lemma_touches_any_push(pre, e);
                assert forall|x: u128|
                    self.graph.node_ids().contains(x) <==> (g0.node_ids().contains(x) || touches_any(pre.push(e), x)) by {
                    assert(self.graph.node_ids().contains(x) <==> (n_prev.contains(x) || x == e.source || x == e.target));
                    assert(touches(e, x) <==> (x == e.source || x == e.target));
                }
            }
            i = i + 1;
            assert(self.graph.edge_list() =~= g0.edge_list() + stored_edges@.subrange(0, i as int));
        }
        assert(stored_edges@.subrange(0, stored_edges@.len() as int) =~= stored_edges@);
        self.initialized = true;
        assert(self.graph_view().edge_list() == old(self).graph_view().edge_list() + stored_edges@);
        assert(self.path() == old(self).path());
        assert(forall|x: u128|
            self.graph_view().node_ids().contains(x) <==> (old(self).graph_view().node_ids().contains(x)
                || touches_any(stored_edges@, x)));
    }

    /// Decides what a save does: fails with `NotInitialized` before
    /// `initialize`, does nothing for no messages, and otherwise returns the
    /// nodes, edges and concept names to persist.
    pub fn begin_save(&self, messages: &Vec<Message>, now_time: &String) -> (r: Result<Option<SavePlan>, MemoryError>)
        ensures
            !self.is_ready() ==> r == Err::<Option<SavePlan>, MemoryError>(MemoryError::NotInitialized),
            self.is_ready() && messages@.len() == 0 ==> r == Ok::<Option<SavePlan>, MemoryError>(None),
            self.is_ready() && messages@.len() > 0 ==> r.is_ok() && r.unwrap().is_some() && is_save_plan(
                messages@,
                now_time@,
                r.unwrap().unwrap(),
            ),
    {
        if !self.initialized {
            return Err(MemoryError::NotInitialized);
        }
        if messages.len() == 0 {
            return Ok(None);
        }
        Ok(Some(plan_save(messages, now_time)))
    }

    /// Adds the edges of a save to the graph, once the store has taken them.
    pub fn commit_save(&mut self, edges: Vec<Edge>)
        requires
            old(self).wf(),
        ensures
            final(self).wf(),
            final(self).is_ready() == old(self).is_ready(),
            final(self).path() == old(self).path(),
            final(self).graph_view().edge_list() == old(self).graph_view().edge_list() + edges@,
    {
        self.graph.add_edges(edges);
    }

    /// Fails with `NotInitialized` before `initialize`.
    pub fn check_ready(&self) -> (r: Result<(), MemoryError>)
        ensures
            r is Ok <==> self.is_ready(),
            r is Err ==> r == Err::<(), MemoryError>(MemoryError::NotInitialized),
    {
        if self.initialized {
            Ok(())
        } else {
            Err(MemoryError::NotInitialized)
        }
    }
}

/// Initializing twice leaves the system as initializing once does: the
/// second call, whatever edges it is offered, changes nothing.
pub proof fn lemma_initialize_idempotent(
    s0: MemorySystem,
    s1: MemorySystem,
    s2: MemorySystem,
    first: Seq<Edge>,
    second: Seq<Edge>,
)
    requires
        initialized_from(s0, first, s1),
        initialized_from(s1, second, s2),
    ensures
        s2.path() == s1.path(),
        s2.is_ready() == s1.is_ready(),
        s2.graph_view() == s1.graph_view(),
{
}

} // verus!
