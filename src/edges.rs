//! Building edges and looking them up by endpoint or relation.

use vstd::prelude::*;
use crate::graph::Edge;
use crate::relation_types::{CONCEPTUALIZED_AS, PARTICIPATES_IN};
use crate::text::{chars_of, same_chars};

verus! {

/// Builds an edge step by step.
pub struct EdgeBuilder {
    edge: Edge,
}

impl EdgeBuilder {
    /// The edge under construction.
    pub closed spec fn current(&self) -> Edge {
        self.edge
    }

    /// A builder for a fresh full-weight edge from `source` to `target`.
    pub fn new(source: u128, target: u128, relation: &str) -> (r: Self)
        ensures
            r.current().source == source,
            r.current().target == target,
            r.current().relation@ == relation@,
            r.current().weight == 100,
    {
        EdgeBuilder { edge: Edge::new(source, target, String::from_str(relation)) }
    }

    /// A participation edge from an entity to an event.
    pub fn participates(entity_id: u128, event_id: u128) -> (r: Self)
        ensures
            r.current().source == entity_id,
            r.current().target == event_id,
            r.current().relation@ == PARTICIPATES_IN@,
            r.current().weight == 100,
    {
        Self::new(entity_id, event_id, PARTICIPATES_IN)
    }

    /// A conceptualization edge from a node to a concept.
    pub fn conceptualizes(node_id: u128, concept_id: u128) -> (r: Self)
        ensures
            r.current().source == node_id,
            r.current().target == concept_id,
            r.current().relation@ == CONCEPTUALIZED_AS@,
            r.current().weight == 100,
    {
        Self::new(node_id, concept_id, CONCEPTUALIZED_AS)
    }

    /// A temporal edge between two events.
    pub fn temporal(from_event: u128, to_event: u128, relation: &str) -> (r: Self)
        ensures
            r.current().source == from_event,
            r.current().target == to_event,
            r.current().relation@ == relation@,
            r.current().weight == 100,
    {
        Self::new(from_event, to_event, relation)
    }

    /// Sets the weight, in hundredths, capped at one hundred.
    pub fn weight(self, weight: u32) -> (r: Self)
        ensures
            r.current().weight == if weight > 100 {
                100
            } else {
                weight
            },
            r.current().source == self.current().source,
            r.current().target == self.current().target,
            r.current().relation == self.current().relation,
            r.current().id == self.current().id,
    {
        let mut b = self;
        b.edge.weight = if weight > 100 {
            100
        } else {
            weight
        };
        b
    }

    /// Attaches extra data, as JSON text.
    pub fn metadata(self, metadata: &str) -> (r: Self)
        ensures
            r.current().metadata.is_some() && r.current().metadata.unwrap()@ == metadata@,
            r.current().source == self.current().source,
            r.current().target == self.current().target,
            r.current().relation == self.current().relation,
            r.current().weight == self.current().weight,
            r.current().id == self.current().id,
    {
        let mut b = self;
        b.edge.metadata = Some(String::from_str(metadata));
        b
    }

    /// The finished edge.
    pub fn build(self) -> (r: Edge)
        ensures
            r == self.current(),
    {
        self.edge
    }
}

/// Participation edges from each entity of `entities` to `event_id`.
pub fn create_participation_edges(entities: &Vec<u128>, event_id: u128) -> (r: Vec<Edge>)
    ensures
        r@.len() == entities@.len(),
        forall|k: int|
            0 <= k < r@.len() ==> (#[trigger] r@[k]).source == entities@[k] && r@[k].target == event_id
                && r@[k].relation@ == PARTICIPATES_IN@,
{
    let mut r: Vec<Edge> = Vec::new();
    let mut k: usize = 0;
    while k < entities.len()
        invariant
            k <= entities@.len(),
            r@.len() == k,
            forall|q: int|
                0 <= q < k ==> (#[trigger] r@[q]).source == entities@[q] && r@[q].target == event_id
                    && r@[q].relation@ == PARTICIPATES_IN@,
        decreases entities@.len() - k,
    {
        r.push(EdgeBuilder::participates(entities[k], event_id).build());
        k = k + 1;
    }
    r
}

/// Conceptualization edges from `node_id` to each concept of `concepts`.
pub fn create_conceptualization_edges(node_id: u128, concepts: &Vec<u128>) -> (r: Vec<Edge>)
    ensures
        r@.len() == concepts@.len(),
        forall|k: int|
            0 <= k < r@.len() ==> (#[trigger] r@[k]).source == node_id && r@[k].target == concepts@[k]
                && r@[k].relation@ == CONCEPTUALIZED_AS@,
{
    let mut r: Vec<Edge> = Vec::new();
    let mut k: usize = 0;
    while k < concepts.len()
        invariant
            k <= concepts@.len(),
            r@.len() == k,
            forall|q: int|
                0 <= q < k ==> (#[trigger] r@[q]).source == node_id && r@[q].target == concepts@[q]
                    && r@[q].relation@ == CONCEPTUALIZED_AS@,
        decreases concepts@.len() - k,
    {
        r.push(EdgeBuilder::conceptualizes(node_id, concepts[k]).build());
        k = k + 1;
    }
    r
}

/// Which edges a lookup selects.
pub enum EdgeKey {
    Source(u128),
    Target(u128),
}

/// `e` is selected by `key`.
pub open spec fn selects(key: EdgeKey, e: Edge) -> bool {
    match key {
        EdgeKey::Source(x) => e.source == x,
        EdgeKey::Target(x) => e.target == x,
    }
}

/// `r` lists, in order, the edges of `es` that satisfy `p`.
pub open spec fn lists_filtered(r: Seq<&Edge>, es: Seq<Edge>, p: spec_fn(Edge) -> bool) -> bool {
    &&& r.len() == es.filter(p).len()
    &&& forall|k: int| 0 <= k < r.len() ==> r[k] == es.filter(p)[k]
}

/// Edges indexed for lookup by source, target and relation.
pub struct EdgeIndex {
    edges: Vec<Edge>,
}

impl EdgeIndex {
    /// The indexed edges, in order of insertion.
    pub closed spec fn edge_list(&self) -> Seq<Edge> {
        self.edges@
    }

    /// An empty index.
    pub fn new() -> (r: Self)
        ensures
            r.edge_list() == Seq::<Edge>::empty(),
    {
        EdgeIndex { edges: Vec::new() }
    }

    /// An index of `edges`, in order.
    pub fn from_edges(edges: Vec<Edge>) -> (r: Self)
        ensures
            r.edge_list() == edges@,
    {
        EdgeIndex { edges }
    }

    /// Adds an edge.
    pub fn add(&mut self, edge: Edge)
        ensures
            final(self).edge_list() == old(self).edge_list().push(edge),
    {
        self.edges.push(edge);
    }

    fn select(&self, key: EdgeKey) -> (r: Vec<&Edge>)
        ensures
            lists_filtered(r@, self.edge_list(), |e: Edge| selects(key, e)),
    {
        let ghost p = |e: Edge| selects(key, e);
        let mut r: Vec<&Edge> = Vec::new();
        let mut j: usize = 0;
        proof {
            reveal(Seq::filter);
            assert(self.edges@.subrange(0, 0) =~= Seq::<Edge>::empty());
        }
        while j < self.edges.len()
            invariant
                j <= self.edges@.len(),
                lists_filtered(r@, self.edges@.subrange(0, j as int), p),
                p == |e: Edge| selects(key, e),
            decreases self.edges@.len() - j,
        {
            proof {
                assert(self.edges@.subrange(0, j + 1) =~= self.edges@.subrange(0, j as int).push(self.edges@[j as int]));
                self.edges@.subrange(0, j as int).lemma_filter_push(self.edges@[j as int], p);
            }
            let e = &self.edges[j];
            let hit = match key {
                EdgeKey::Source(x) => e.source == x,
                EdgeKey::Target(x) => e.target == x,
            };
            if hit {
                r.push(e);
            }
            j = j + 1;
        }
        assert(self.edges@.subrange(0, self.edges@.len() as int) =~= self.edges@);
        r
    }

    /// The edges leaving `source`, in order.
    pub fn find_by_source(&self, source: u128) -> (r: Vec<&Edge>)
        ensures
            lists_filtered(r@, self.edge_list(), |e: Edge| e.source == source),
    {
        let r = self.select(EdgeKey::Source(source));
        assert((|e: Edge| selects(EdgeKey::Source(source), e)) =~= (|e: Edge| e.source == source));
        r
    }

    /// The edges entering `target`, in order.
    pub fn find_by_target(&self, target: u128) -> (r: Vec<&Edge>)
        ensures
            lists_filtered(r@, self.edge_list(), |e: Edge| e.target == target),
    {
        let r = self.select(EdgeKey::Target(target));
        assert((|e: Edge| selects(EdgeKey::Target(target), e)) =~= (|e: Edge| e.target == target));
        r
    }

    /// The edges with relation `relation`, in order.
    pub fn find_by_relation(&self, relation: &str) -> (r: Vec<&Edge>)
        ensures
            lists_filtered(r@, self.edge_list(), |e: Edge| e.relation@ == relation@),
    {
        let want = chars_of(relation);
        let ghost p = |e: Edge| e.relation@ == relation@;
        let mut r: Vec<&Edge> = Vec::new();
        let mut j: usize = 0;
        proof {
            reveal(Seq::filter);
            assert(self.edges@.subrange(0, 0) =~= Seq::<Edge>::empty());
        }
        while j < self.edges.len()
            invariant
                want@ == relation@,
                j <= self.edges@.len(),
                lists_filtered(r@, self.edges@.subrange(0, j as int), p),
                p == |e: Edge| e.relation@ == relation@,
            decreases self.edges@.len() - j,
        {
            proof {
                assert(self.edges@.subrange(0, j + 1) =~= self.edges@.subrange(0, j as int).push(self.edges@[j as int]));
                self.edges@.subrange(0, j as int).lemma_filter_push(self.edges@[j as int], p);
            }
            if same_chars(&chars_of(self.edges[j].relation.as_str()), &want) {
                r.push(&self.edges[j]);
            }
            j = j + 1;
        }
        assert(self.edges@.subrange(0, self.edges@.len() as int) =~= self.edges@);
        r
    }

    /// The first edge from `source` to `target`, if any.
    pub fn find_between(&self, source: u128, target: u128) -> (r: Option<&Edge>)
        ensures
            match r {
                Some(e) => exists|i: int|
                    0 <= i < self.edge_list().len() && self.edge_list()[i] == *e && e.source == source && e.target
                        == target && forall|q: int|
                        0 <= q < i ==> !((#[trigger] self.edge_list()[q]).source == source
                            && self.edge_list()[q].target == target),
                None => forall|q: int|
                    0 <= q < self.edge_list().len() ==> !((#[trigger] self.edge_list()[q]).source == source
                        && self.edge_list()[q].target == target),
            },
    {
        let mut j: usize = 0;
        while j < self.edges.len()
            invariant
                j <= self.edges@.len(),
                forall|q: int| 0 <= q < j ==> !((#[trigger] self.edges@[q]).source == source && self.edges@[q].target == target),
            decreases self.edges@.len() - j,
        {
            if self.edges[j].source == source && self.edges[j].target == target {
                proof {
                    assert(self.edge_list()[j as int] == self.edges@[j as int]);
                    assert(forall|q: int|
                        0 <= q < j ==> !((#[trigger] self.edge_list()[q]).source == source && self.edge_list()[q].target == target));
                }
                return Some(&self.edges[j]);
            }
            j = j + 1;
        }
        None
    }

    /// The edges leaving `node_id`, then those entering it.
    pub fn find_all_for_node(&self, node_id: u128) -> (r: Vec<&Edge>)
        ensures
            r@.len() == (self.edge_list().filter(|e: Edge| e.source == node_id) + self.edge_list().filter(
                |e: Edge| e.target == node_id,
            )).len(),
            forall|k: int|
                0 <= k < r@.len() ==> #[trigger] r@[k] == (self.edge_list().filter(|e: Edge| e.source == node_id)
                    + self.edge_list().filter(|e: Edge| e.target == node_id))[k],
    {
        let mut out = self.find_by_source(node_id);
        let mut inc = self.find_by_target(node_id);
        let ghost o = out@;
        let ghost i = inc@;
        out.append(&mut inc);
        proof {
            let a = self.edge_list().filter(|e: Edge| e.source == node_id);
            let b = self.edge_list().filter(|e: Edge| e.target == node_id);
            assert forall|k: int| 0 <= k < out@.len() implies #[trigger] out@[k] == (a + b)[k] by {
                if k < o.len() {
                    assert(out@[k] == o[k]);
                } else {
                    assert(out@[k] == i[k - o.len()]);
                }
            }
        }
        out
    }

    /// Number of indexed edges.
    pub fn count(&self) -> (r: usize)
        ensures
            r == self.edge_list().len(),
    {
        self.edges.len()
    }
}

/// An edge that the index holds is among the edges found from its source
/// and among those found from its target.
pub proof fn lemma_indexed_edge_found_both_ways(idx: EdgeIndex, e: Edge)
    requires
        idx.edge_list().contains(e),
    ensures
        idx.edge_list().filter(|x: Edge| x.source == e.source).contains(e),
        idx.edge_list().filter(|x: Edge| x.target == e.target).contains(e),
{
    let i = choose|i: int| 0 <= i < idx.edge_list().len() && idx.edge_list()[i] == e;
    idx.edge_list().lemma_filter_contains(|x: Edge| x.source == e.source, i);
    idx.edge_list().lemma_filter_contains(|x: Edge| x.target == e.target, i);
}

} // verus!
