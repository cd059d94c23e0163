//! A subgraph of retrieved memories: nodes with their payloads, unique by
//! identifier, and the edges among them.

use vstd::prelude::*;
use crate::graph::{adjacent, bridged, holds, within, Edge, KnowledgeGraph};
use crate::node::{kind_of, same_node, MemoryNode};
use crate::types::NodeType;

verus! {

/// The identifiers of a list of nodes.
pub open spec fn ids_of(ns: Seq<MemoryNode>) -> Seq<u128> {
    ns.map_values(|n: MemoryNode| n.id)
}

/// The identifiers of `ns`, in order.
pub fn ids_vec(ns: &Vec<MemoryNode>) -> (r: Vec<u128>)
    ensures
        r@ == ids_of(ns@),
{
    let mut r: Vec<u128> = Vec::new();
    let mut j: usize = 0;
    while j < ns.len()
        invariant
            j <= ns@.len(),
            r@ == ids_of(ns@.subrange(0, j as int)),
        decreases ns@.len() - j,
    {
        r.push(ns[j].id);
        j = j + 1;
        assert(r@ =~= ids_of(ns@.subrange(0, j as int)));
    }
    assert(ns@.subrange(0, ns@.len() as int) =~= ns@);
    r
}

/// Nodes, unique by identifier, and edges whose two ends are among them.
pub struct Subgraph {
    pub nodes: Vec<MemoryNode>,
    pub edges: Vec<Edge>,
}

impl Subgraph {
    /// Identifiers are unique and every edge joins two of the nodes.
    pub open spec fn wf(&self) -> bool {
        &&& ids_of(self.nodes@).no_duplicates()
        &&& forall|i: int|
            0 <= i < self.edges@.len() ==> ids_of(self.nodes@).contains((#[trigger] self.edges@[i]).source)
                && ids_of(self.nodes@).contains(self.edges@[i].target)
    }

    /// An empty subgraph.
    pub fn new() -> (r: Self)
        ensures
            r.wf(),
            r.nodes@.len() == 0,
            r.edges@.len() == 0,
    {
        Subgraph { nodes: Vec::new(), edges: Vec::new() }
    }

    /// The position of the node with identifier `id`, if any.
    fn position(&self, id: u128) -> (r: Option<usize>)
        ensures
            match r {
                Some(k) => k < self.nodes@.len() && self.nodes@[k as int].id == id,
                None => !ids_of(self.nodes@).contains(id),
            },
    {
        let mut k: usize = 0;
        while k < self.nodes.len()
            invariant
                k <= self.nodes@.len(),
                forall|q: int| 0 <= q < k ==> (#[trigger] self.nodes@[q]).id != id,
            decreases self.nodes@.len() - k,
        {
            if self.nodes[k].id == id {
                return Some(k);
            }
            k = k + 1;
        }
        proof {
            if ids_of(self.nodes@).contains(id) {
                let q = choose|q: int| 0 <= q < ids_of(self.nodes@).len() && ids_of(self.nodes@)[q] == id;
                assert(self.nodes@[q].id == id);
            }
        }
        None
    }

    /// Adds a node unless one with its identifier is present.
    pub fn add_node(&mut self, node: MemoryNode)
        requires
            old(self).wf(),
        ensures
            final(self).wf(),
            final(self).edges@ == old(self).edges@,
            final(self).nodes@ == if ids_of(old(self).nodes@).contains(node.id) {
                old(self).nodes@
            } else {
                old(self).nodes@.push(node)
            },
    {
        let found = self.position(node.id);
        if found.is_some() {
            assert(ids_of(self.nodes@)[found.unwrap() as int] == node.id);
        } else {
            let ghost before = self.nodes@;
            self.nodes.push(node);
            proof {
                assert(ids_of(self.nodes@) =~= ids_of(before).push(node.id));
                assert forall|a: int, b: int| 0 <= a < b < ids_of(self.nodes@).len() implies ids_of(self.nodes@)[a] != ids_of(self.nodes@)[b] by {
                    if b == before.len() {
                        assert(ids_of(before).contains(ids_of(self.nodes@)[a]));
                    } else {
                        assert(ids_of(self.nodes@)[a] == ids_of(before)[a]);
                        assert(ids_of(self.nodes@)[b] == ids_of(before)[b]);
                    }
                }
                assert forall|i: int| 0 <= i < self.edges@.len() implies ids_of(self.nodes@).contains(
                    (#[trigger] self.edges@[i]).source,
                ) && ids_of(self.nodes@).contains(self.edges@[i].target) by {
                    assert(old(self).edges@[i] == self.edges@[i]);
                    let a = choose|a: int| 0 <= a < ids_of(before).len() && ids_of(before)[a] == self.edges@[i].source;
                    let b = choose|b: int| 0 <= b < ids_of(before).len() && ids_of(before)[b] == self.edges@[i].target;
                    assert(ids_of(self.nodes@)[a] == ids_of(before)[a]);
                    assert(ids_of(self.nodes@)[b] == ids_of(before)[b]);
                }
            }
        }
    }

    /// Adds each node of `nodes`, in order, whose identifier is missing.
    pub fn add_nodes(&mut self, nodes: Vec<MemoryNode>)
        requires
            old(self).wf(),
        ensures
            final(self).wf(),
            final(self).edges@ == old(self).edges@,
            forall|x: u128|
                #[trigger] ids_of(final(self).nodes@).contains(x) <==> (ids_of(old(self).nodes@).contains(x) || ids_of(
                    nodes@,
                ).contains(x)),
    {
        let ghost all = nodes@;
        let mut rest = nodes;
        let total = rest.len();
        let mut i: usize = 0;
        while rest.len() > 0
            invariant
                self.wf(),
                self.edges@ == old(self).edges@,
                i <= all.len(),
                all.len() == total,
                i + rest@.len() == all.len(),
                rest@ == all.subrange(i as int, all.len() as int),
                forall|x: u128|
                    ids_of(self.nodes@).contains(x) <==> (ids_of(old(self).nodes@).contains(x) || ids_of(
                        all.subrange(0, i as int),
                    ).contains(x)),
            decreases rest@.len(),
        {
            let n = rest.remove(0);
            let ghost before = self.nodes@;
            self.add_node(n);
            proof {
                assert(n == all[i as int]);
                assert(all.subrange(0, i + 1) =~= all.subrange(0, i as int).push(n));
                lemma_ids_push(all.subrange(0, i as int), n);
                lemma_ids_push(before, n);
                assert forall|x: u128| ids_of(self.nodes@).contains(x) <==> (ids_of(old(self).nodes@).contains(x) || ids_of(
                        all.subrange(0, i + 1),
                    ).contains(x)) by {
                    if ids_of(before).contains(n.id) {
                        assert(self.nodes@ == before);
                    } else {
                        assert(self.nodes@ == before.push(n));
                    }
                    assert(ids_of(self.nodes@).contains(x) <==> (ids_of(before).contains(x) || x == n.id));
                    assert(ids_of(before).contains(x) <==> (ids_of(old(self).nodes@).contains(x) || ids_of(
                        all.subrange(0, i as int),
                    ).contains(x)));
                    assert(ids_of(all.subrange(0, i + 1)) == ids_of(all.subrange(0, i as int).push(n)));
                    assert(ids_of(all.subrange(0, i as int).push(n)).contains(x) <==> (ids_of(all.subrange(0, i as int)).contains(x) || x == n.id));
                }
            }
            i = i + 1;
            assert(rest@ =~= all.subrange(i as int, all.len() as int));
        }
        assert(all.subrange(0, all.len() as int) =~= all);
    }

    /// A subgraph of `nodes`, the first of each identifier kept.
    pub fn from_nodes(nodes: Vec<MemoryNode>) -> (r: Self)
        ensures
            r.wf(),
            r.edges@.len() == 0,
            forall|x: u128| ids_of(r.nodes@).contains(x) <==> ids_of(nodes@).contains(x),
    {
        let mut s = Subgraph::new();
        proof {
            assert(ids_of(s.nodes@) =~= Seq::<u128>::empty());
        }
        s.add_nodes(nodes);
        s
    }

    /// Adds an edge whose two ends are nodes of the subgraph; any other
    /// edge is ignored.
    pub fn add_edge(&mut self, edge: Edge)
        requires
            old(self).wf(),
        ensures
            final(self).wf(),
            final(self).nodes@ == old(self).nodes@,
            final(self).edges@ == if ids_of(old(self).nodes@).contains(edge.source) && ids_of(
                old(self).nodes@,
            ).contains(edge.target) {
                old(self).edges@.push(edge)
            } else {
                old(self).edges@
            },
    {
        if self.position(edge.source).is_some() && self.position(edge.target).is_some() {
            proof {
                let k1 = choose|k: int| 0 <= k < self.nodes@.len() && self.nodes@[k].id == edge.source;
                let k2 = choose|k: int| 0 <= k < self.nodes@.len() && self.nodes@[k].id == edge.target;
                assert(ids_of(self.nodes@)[k1] == edge.source);
                assert(ids_of(self.nodes@)[k2] == edge.target);
            }
            self.edges.push(edge);
            proof {
                assert forall|i: int| 0 <= i < self.edges@.len() implies ids_of(self.nodes@).contains(
                    (#[trigger] self.edges@[i]).source,
                ) && ids_of(self.nodes@).contains(self.edges@[i].target) by {
                    if i < old(self).edges@.len() {
                        assert(old(self).edges@[i] == self.edges@[i]);
                    }
                }
            }
        }
    }

    /// The node with identifier `id`, if present.
    pub fn get_node(&self, id: u128) -> (r: Option<&MemoryNode>)
        ensures
            match r {
                Some(n) => self.nodes@.contains(*n) && n.id == id,
                None => !ids_of(self.nodes@).contains(id),
            },
    {
        match self.position(id) {
            Some(k) => Some(&self.nodes[k]),
            None => None,
        }
    }

    /// Whether a node with identifier `id` is present.
    pub fn contains_node(&self, id: u128) -> (r: bool)
        ensures
            r == ids_of(self.nodes@).contains(id),
    {
        let p = self.position(id);
        proof {
            if p.is_some() {
                assert(ids_of(self.nodes@)[p.unwrap() as int] == id);
            }
        }
        p.is_some()
    }

    /// Number of nodes.
    pub fn node_count(&self) -> (r: usize)
        ensures
            r == self.nodes@.len(),
    {
        self.nodes.len()
    }

    /// Number of edges.
    pub fn edge_count(&self) -> (r: usize)
        ensures
            r == self.edges@.len(),
    {
        self.edges.len()
    }

    /// The nodes of kind `node_type`, in order.
    pub fn nodes_by_type(&self, node_type: NodeType) -> (r: Vec<&MemoryNode>)
        ensures
            r@.len() == self.nodes@.filter(|n: MemoryNode| kind_of(n.data) == node_type).len(),
            forall|k: int|
                0 <= k < r@.len() ==> r@[k] == self.nodes@.filter(|n: MemoryNode| kind_of(n.data) == node_type)[k],
    {
        let mut r: Vec<&MemoryNode> = Vec::new();
        let mut j: usize = 0;
        proof {
            reveal(Seq::filter);
            assert(self.nodes@.subrange(0, 0) =~= Seq::<MemoryNode>::empty());
        }
        while j < self.nodes.len()
            invariant
                j <= self.nodes@.len(),
                r@.len() == self.nodes@.subrange(0, j as int).filter(|n: MemoryNode| kind_of(n.data) == node_type).len(),
                forall|k: int|
                    0 <= k < r@.len() ==> r@[k] == self.nodes@.subrange(0, j as int).filter(
                        |n: MemoryNode| kind_of(n.data) == node_type,
                    )[k],
            decreases self.nodes@.len() - j,
        {
            proof {
                assert(self.nodes@.subrange(0, j + 1) =~= self.nodes@.subrange(0, j as int).push(self.nodes@[j as int]));
                self.nodes@.subrange(0, j as int).lemma_filter_push(
                    self.nodes@[j as int],
                    |n: MemoryNode| kind_of(n.data) == node_type,
                );
            }
            if self.nodes[j].node_type() == node_type {
                r.push(&self.nodes[j]);
            }
            j = j + 1;
        }
        assert(self.nodes@.subrange(0, self.nodes@.len() as int) =~= self.nodes@);
        r
    }

    /// The identifiers of the nodes, in order.
    pub fn node_ids(&self) -> (r: Vec<u128>)
        ensures
            r@ == ids_of(self.nodes@),
    {
        let mut r: Vec<u128> = Vec::new();
        let mut j: usize = 0;
        while j < self.nodes.len()
            invariant
                j <= self.nodes@.len(),
                r@ == ids_of(self.nodes@.subrange(0, j as int)),
            decreases self.nodes@.len() - j,
        {
            r.push(self.nodes[j].id);
            j = j + 1;
            assert(r@ =~= ids_of(self.nodes@.subrange(0, j as int)));
        }
        assert(self.nodes@.subrange(0, self.nodes@.len() as int) =~= self.nodes@);
        r
    }

    /// Adds the nodes of `other` that are missing, then those of its edges
    /// whose ends are then present.
    pub fn merge(&mut self, other: Subgraph)
        requires
            old(self).wf(),
        ensures
            final(self).wf(),
            forall|x: u128|
                ids_of(final(self).nodes@).contains(x) <==> (ids_of(old(self).nodes@).contains(x) || ids_of(
                    other.nodes@,
                ).contains(x)),
            final(self).edges@ == old(self).edges@ + other.edges@.filter(
                |e: Edge| ids_of(final(self).nodes@).contains(e.source) && ids_of(final(self).nodes@).contains(e.target),
            ),
    {
        let nodes = other.nodes;
        let edges = other.edges;
        let ghost given = nodes@;
        let ghost more = edges@;
        assert(given == other.nodes@);
        let ghost s0 = self.nodes@;
        assert(s0 == old(self).nodes@);
        self.add_nodes(nodes);
        let ghost n1 = self.nodes@;
        let ghost e0 = self.edges@;
        let ghost inside = |e: Edge| ids_of(n1).contains(e.source) && ids_of(n1).contains(e.target);
        assert(e0 == old(self).edges@);
        let total = edges.len();
        let mut rest = edges;
        let mut i: usize = 0;
        proof {
            reveal(Seq::filter);
            assert(more.subrange(0, 0) =~= Seq::<Edge>::empty());
            assert(self.edges@ =~= e0 + more.subrange(0, 0).filter(inside));
        }
        while rest.len() > 0
            invariant
                self.wf(),
                self.nodes@ == n1,
                forall|x: u128|
                    ids_of(n1).contains(x) <==> (ids_of(old(self).nodes@).contains(x) || ids_of(other.nodes@).contains(x)),
                more.len() == total,
                i + rest@.len() == total,
                rest@ == more.subrange(i as int, total as int),
                inside == (|e: Edge| ids_of(n1).contains(e.source) && ids_of(n1).contains(e.target)),
                self.edges@ == e0 + more.subrange(0, i as int).filter(inside),
            decreases rest@.len(),
        {
            let e = rest.remove(0);
            proof {
                assert(e == more[i as int]);
                assert(more.subrange(0, i + 1) =~= more.subrange(0, i as int).push(e));
                more.subrange(0, i as int).lemma_filter_push(e, inside);
            }
            let ghost before = self.edges@;
            self.add_edge(e);
            proof {
                if inside(e) {
                    assert(self.edges@ =~= e0 + more.subrange(0, i + 1).filter(inside));
                } else {
                    assert(self.edges@ =~= e0 + more.subrange(0, i + 1).filter(inside));
                }
            }
            i = i + 1;
            assert(rest@ =~= more.subrange(i as int, total as int));
        }
        assert(more.subrange(0, total as int) =~= more);
    }
}

/// The identifiers of the concept nodes of `ns`.
pub open spec fn concept_ids(ns: Seq<MemoryNode>) -> Seq<u128> {
    ids_of(ns.filter(|n: MemoryNode| kind_of(n.data) == NodeType::Concept))
}

/// The identifiers of the other nodes of `ns`.
pub open spec fn non_concept_ids(ns: Seq<MemoryNode>) -> Seq<u128> {
    ids_of(ns.filter(|n: MemoryNode| kind_of(n.data) != NodeType::Concept))
}

/// `lookup` holds a node with identifier `x`.
pub open spec fn looked_up(lookup: Seq<MemoryNode>, x: u128) -> bool {
    ids_of(lookup).contains(x)
}

/// Splits the identifiers of `ns` into concept and other nodes.
fn split_ids(ns: &Vec<MemoryNode>) -> (r: (Vec<u128>, Vec<u128>))
    ensures
        r.0@ == concept_ids(ns@),
        r.1@ == non_concept_ids(ns@),
{
    let mut cs: Vec<u128> = Vec::new();
    let mut os: Vec<u128> = Vec::new();
    let mut j: usize = 0;
    proof {
        reveal(Seq::filter);
        assert(ns@.subrange(0, 0) =~= Seq::<MemoryNode>::empty());
        assert(concept_ids(ns@.subrange(0, 0)) =~= Seq::<u128>::empty());
        assert(non_concept_ids(ns@.subrange(0, 0)) =~= Seq::<u128>::empty());
    }
    while j < ns.len()
        invariant
            j <= ns@.len(),
            cs@ == concept_ids(ns@.subrange(0, j as int)),
            os@ == non_concept_ids(ns@.subrange(0, j as int)),
        decreases ns@.len() - j,
    {
        let ghost pre = ns@.subrange(0, j as int);
        let n = &ns[j];
        proof {
            assert(ns@.subrange(0, j + 1) =~= pre.push(*n));
            pre.lemma_filter_push(*n, |m: MemoryNode| kind_of(m.data) == NodeType::Concept);
            pre.lemma_filter_push(*n, |m: MemoryNode| kind_of(m.data) != NodeType::Concept);
        }
        if n.node_type() == NodeType::Concept {
            cs.push(n.id);
            proof {
                let f = pre.filter(|m: MemoryNode| kind_of(m.data) == NodeType::Concept);
                assert(ids_of(f.push(*n)) =~= ids_of(f).push(n.id));
                let g = pre.filter(|m: MemoryNode| kind_of(m.data) != NodeType::Concept);
                assert(pre.push(*n).filter(|m: MemoryNode| kind_of(m.data) != NodeType::Concept) == g);
            }
        } else {
            os.push(n.id);
            proof {
                let f = pre.filter(|m: MemoryNode| kind_of(m.data) != NodeType::Concept);
                assert(ids_of(f.push(*n)) =~= ids_of(f).push(n.id));
            }
        }
        j = j + 1;
    }
    assert(ns@.subrange(0, ns@.len() as int) =~= ns@);
    (cs, os)
}

/// The position in `lookup` of a node with identifier `id`, if any.
fn find_in(lookup: &Vec<MemoryNode>, id: u128) -> (r: Option<usize>)
    ensures
        match r {
            Some(k) => is_first(lookup@, id, k as int),
            None => !looked_up(lookup@, id),
        },
{
    let mut k: usize = 0;
    while k < lookup.len()
        invariant
            k <= lookup@.len(),
            forall|q: int| 0 <= q < k ==> (#[trigger] lookup@[q]).id != id,
        decreases lookup@.len() - k,
    {
        if lookup[k].id == id {
            return Some(k);
        }
        k = k + 1;
    }
    proof {
        if looked_up(lookup@, id) {
            let q = choose|q: int| 0 <= q < ids_of(lookup@).len() && ids_of(lookup@)[q] == id;
            assert(lookup@[q].id == id);
        }
    }
    None
}

/// `after` is `before` once concept bridging has added nodes of `lookup`
/// while it held fewer than `max_nodes`.
pub open spec fn concept_expanded(graph: KnowledgeGraph, before: Subgraph, after: Subgraph, lookup: Seq<MemoryNode>, max_nodes: usize) -> bool {
    &&& after.wf()
    &&& after.edges@ == before.edges@
    &&& after.nodes@.len() >= before.nodes@.len()
    &&& after.nodes@.subrange(0, before.nodes@.len() as int) == before.nodes@
    &&& after.nodes@.len() > before.nodes@.len() ==> after.nodes@.len() <= max_nodes
    &&& forall|k: int|
        before.nodes@.len() <= k < after.nodes@.len() ==> bridged(
            graph.edge_list(),
            non_concept_ids(before.nodes@),
            concept_ids(before.nodes@),
        ).contains((#[trigger] after.nodes@[k]).id) && exists|j: int|
            0 <= j < lookup.len() && same_node(after.nodes@[k], lookup[j])
    &&& after.nodes@.len() < max_nodes ==> forall|x: u128|
        bridged(graph.edge_list(), non_concept_ids(before.nodes@), concept_ids(before.nodes@)).contains(x)
            && looked_up(lookup, x) ==> ids_of(after.nodes@).contains(x)
}

fn expand_via_concepts_upto(graph: &KnowledgeGraph, subgraph: &mut Subgraph, lookup: &Vec<MemoryNode>, max_nodes: usize)
    requires
        old(subgraph).wf(),
    ensures
        concept_expanded(*graph, *old(subgraph), *final(subgraph), lookup@, max_nodes),
{
    let ghost on = subgraph.nodes@;
    let (concepts, sources) = split_ids(&subgraph.nodes);
    let ghost bset = bridged(graph.edge_list(), non_concept_ids(on), concept_ids(on));
    if concepts.len() == 0 {
        proof {
            assert(on.subrange(0, on.len() as int) =~= on);
            assert forall|x: u128| bset.contains(x) && looked_up(lookup@, x) implies ids_of(on).contains(x) by {
                let (s, c) = choose|s: u128, c: u128|
                    non_concept_ids(on).contains(s) && concept_ids(on).contains(c) && crate::graph::adjacent(graph.edge_list(), s, c)
                        && crate::graph::adjacent(graph.edge_list(), c, x);
            }
        }
        return;
    }
    let found = graph.find_concept_bridged(&sources, &concepts);
    let mut i: usize = 0;
    while i < found.len() && subgraph.nodes.len() < max_nodes
        invariant
            subgraph.wf(),
            subgraph.edges@ == old(subgraph).edges@,
            on == old(subgraph).nodes@,
            subgraph.nodes@.len() >= on.len(),
            subgraph.nodes@.subrange(0, on.len() as int) == on,
            subgraph.nodes@.len() > on.len() ==> subgraph.nodes@.len() <= max_nodes,
            i <= found@.len(),
            forall|x: u128| found@.contains(x) <==> bset.contains(x),
            forall|k: int|
                on.len() <= k < subgraph.nodes@.len() ==> bset.contains((#[trigger] subgraph.nodes@[k]).id) && exists|j: int|
                    0 <= j < lookup@.len() && same_node(subgraph.nodes@[k], lookup@[j]),
            forall|q: int|
                0 <= q < i && looked_up(lookup@, #[trigger] found@[q]) ==> ids_of(subgraph.nodes@).contains(found@[q]),
        decreases found@.len() - i,
    {
        let b = found[i];
        let ghost before = subgraph.nodes@;
        if !subgraph.contains_node(b) {
            match find_in(lookup, b) {
                Some(j) => {
                    let copy = lookup[j].clone_node();
                    subgraph.add_node(copy);
                    proof {
                        assert(subgraph.nodes@ == before.push(copy));
                        assert(found@.contains(b));
                        assert(subgraph.nodes@.subrange(0, on.len() as int) =~= before.subrange(0, on.len() as int));
                        assert forall|k: int|
                            on.len() <= k < subgraph.nodes@.len() implies bset.contains((#[trigger] subgraph.nodes@[k]).id) && exists|j2: int|
                                0 <= j2 < lookup@.len() && same_node(subgraph.nodes@[k], lookup@[j2]) by {
                            if k < before.len() {
                                assert(subgraph.nodes@[k] == before[k]);
                            } else {
                                assert(same_node(subgraph.nodes@[k], lookup@[j as int]));
                            }
                        }
                        lemma_ids_push(before, copy);
                        assert forall|q: int|
                            0 <= q < i + 1 && looked_up(lookup@, #[trigger] found@[q]) implies ids_of(subgraph.nodes@).contains(found@[q]) by {
                            if q < i {
                                assert(ids_of(before).contains(found@[q]));
                            }
                        }
                    }
                },
                None => {},
            }
        }
        i = i + 1;
    }
    proof {
        if subgraph.nodes@.len() < max_nodes {
            assert forall|x: u128| bset.contains(x) && looked_up(lookup@, x) implies ids_of(subgraph.nodes@).contains(x) by {
                assert(found@.contains(x));
                let q = choose|q: int| 0 <= q < found@.len() && found@[q] == x;
            }
        }
    }
}

/// Limits of a subgraph expansion; `min_edge_weight` is in hundredths.
#[derive(Debug, Clone)]
pub struct SubgraphExpansionConfig {
    pub hop_depth: usize,
    pub max_nodes: usize,
    pub include_concepts: bool,
    pub min_edge_weight: u32,
}

impl Default for SubgraphExpansionConfig {
    fn default() -> (r: Self)
        ensures
            r.hop_depth == 2 && r.max_nodes == 30 && r.include_concepts && r.min_edge_weight == 10,
    {
        SubgraphExpansionConfig { hop_depth: 2, max_nodes: 30, include_concepts: true, min_edge_weight: 10 }
    }
}

/// `x` lies within `d` steps of some seed.
pub open spec fn reached_from_seeds(es: Seq<Edge>, seeds: Seq<u128>, d: nat, x: u128) -> bool {
    exists|s: u128| seeds.contains(s) && within(es, s, d).contains(x)
}

/// `k` is the first position of `lookup` that holds identifier `x`.
pub open spec fn is_first(lookup: Seq<MemoryNode>, x: u128, k: int) -> bool {
    0 <= k < lookup.len() && lookup[k].id == x && forall|q: int| 0 <= q < k ==> (#[trigger] lookup[q]).id != x
}

/// An expansion takes `x`: `lookup` holds it, and its first node there is
/// no concept unless concepts are included.
pub open spec fn takeable(lookup: Seq<MemoryNode>, include_concepts: bool, x: u128) -> bool {
    exists|k: int| is_first(lookup, x, k) && (include_concepts || kind_of(lookup[k].data) != NodeType::Concept)
}

proof fn lemma_reach_step(es: Seq<Edge>, seeds: Seq<u128>, l: nat, x: u128)
    ensures
        reached_from_seeds(es, seeds, l + 1, x) <==> (reached_from_seeds(es, seeds, l, x) || exists|u: u128|
            reached_from_seeds(es, seeds, l, u) && adjacent(es, u, x)),
{
    if reached_from_seeds(es, seeds, l + 1, x) {
        let s0 = choose|s0: u128| seeds.contains(s0) && within(es, s0, l + 1).contains(x);
        if !within(es, s0, l).contains(x) {
            let u = choose|u: u128| within(es, s0, l).contains(u) && adjacent(es, u, x);
            assert(reached_from_seeds(es, seeds, l, u));
        }
    }
    if reached_from_seeds(es, seeds, l, x) {
        let s0 = choose|s0: u128| seeds.contains(s0) && within(es, s0, l).contains(x);
        assert(within(es, s0, l + 1).contains(x));
    }
    if exists|u: u128| reached_from_seeds(es, seeds, l, u) && adjacent(es, u, x) {
        let u = choose|u: u128| reached_from_seeds(es, seeds, l, u) && adjacent(es, u, x);
        let s0 = choose|s0: u128| seeds.contains(s0) && within(es, s0, l).contains(u);
        assert(within(es, s0, l + 1).contains(x));
    }
}

proof fn lemma_reach_stable(es: Seq<Edge>, seeds: Seq<u128>, l: nat, m: nat)
    requires
        l <= m,
        forall|x: u128| reached_from_seeds(es, seeds, l + 1, x) == reached_from_seeds(es, seeds, l, x),
    ensures
        forall|x: u128| reached_from_seeds(es, seeds, m, x) == reached_from_seeds(es, seeds, l, x),
    decreases m - l,
{
    if m > l {
        lemma_reach_stable(es, seeds, l, (m - 1) as nat);
        assert forall|x: u128| reached_from_seeds(es, seeds, m, x) == reached_from_seeds(es, seeds, l, x) by {
            lemma_reach_step(es, seeds, (m - 1) as nat, x);
            lemma_reach_step(es, seeds, l, x);
            if exists|u: u128| reached_from_seeds(es, seeds, (m - 1) as nat, u) && adjacent(es, u, x) {
                let u = choose|u: u128| reached_from_seeds(es, seeds, (m - 1) as nat, u) && adjacent(es, u, x);
                assert(reached_from_seeds(es, seeds, l, u));
            }
            if exists|u: u128| reached_from_seeds(es, seeds, l, u) && adjacent(es, u, x) {
                let u = choose|u: u128| reached_from_seeds(es, seeds, l, u) && adjacent(es, u, x);
                assert(reached_from_seeds(es, seeds, (m - 1) as nat, u));
            }
        }
    }
}

/// Grows subgraphs from seed nodes.
pub struct SubgraphExpander {
    pub config: SubgraphExpansionConfig,
}

impl SubgraphExpander {
    pub fn new(config: SubgraphExpansionConfig) -> (r: Self)
        ensures
            r.config == config,
    {
        SubgraphExpander { config }
    }

    pub fn with_defaults() -> (r: Self)
        ensures
            r.config.hop_depth == 2 && r.config.max_nodes == 30 && r.config.include_concepts
                && r.config.min_edge_weight == 10,
    {
        SubgraphExpander { config: SubgraphExpansionConfig::default() }
    }

    /// Adds to `subgraph` copies of the nodes of `lookup` that concept
    /// bridging reaches from its other nodes through its concept nodes, while
    /// it holds fewer than the configured `max_nodes`. Nothing changes where it has no
    /// concept node.
    pub fn expand_via_concepts(&self, graph: &KnowledgeGraph, subgraph: &mut Subgraph, lookup: &Vec<MemoryNode>)
        requires
            old(subgraph).wf(),
        ensures
            concept_expanded(*graph, *old(subgraph), *final(subgraph), lookup@, self.config.max_nodes),
    {
        expand_via_concepts_upto(graph, subgraph, lookup, self.config.max_nodes);
    }

    /// Enlarges the seeds breadth first, layer by layer, up to `hop_depth`
    /// steps, and takes the reached nodes that `lookup` holds, nearer layers
    /// first, until `max_nodes` are taken; where concepts are not included,
    /// concept nodes are walked through but not taken. Then adds every graph
    /// edge of at least `min_edge_weight` between taken nodes.
    pub fn expand(&self, graph: &KnowledgeGraph, seeds: &Vec<u128>, lookup: &Vec<MemoryNode>) -> (r: Subgraph)
        requires
            graph.wf(),
        ensures
            r.wf(),
            r.nodes@.len() <= self.config.max_nodes,
            forall|k: int|
                0 <= k < r.nodes@.len() ==> (exists|j: int| 0 <= j < lookup@.len() && same_node(#[trigger] r.nodes@[k], lookup@[j]))
                    && reached_from_seeds(graph.edge_list(), seeds@, self.config.hop_depth as nat, r.nodes@[k].id),
            !self.config.include_concepts ==> forall|k: int|
                0 <= k < r.nodes@.len() ==> kind_of((#[trigger] r.nodes@[k]).data) != NodeType::Concept,
            r.nodes@.len() < self.config.max_nodes ==> forall|x: u128|
                reached_from_seeds(graph.edge_list(), seeds@, self.config.hop_depth as nat, x) && #[trigger] takeable(
                    lookup@,
                    self.config.include_concepts,
                    x,
                ) ==> ids_of(r.nodes@).contains(x),
            r.edges@ == graph.edge_list().filter(
                |e: Edge|
                    e.weight >= self.config.min_edge_weight && ids_of(r.nodes@).contains(e.source) && ids_of(
                        r.nodes@,
                    ).contains(e.target),
            ),
    {
        let ghost es = graph.edge_list();
        let hop = self.config.hop_depth;
        let max = self.config.max_nodes;
        let with_concepts = self.config.include_concepts;
        let min = self.config.min_edge_weight;
        let mut visited: Vec<u128> = Vec::new();
        let mut i: usize = 0;
        while i < seeds.len()
            invariant
                i <= seeds@.len(),
                visited@.no_duplicates(),
                forall|x: u128| visited@.contains(x) <==> seeds@.subrange(0, i as int).contains(x),
            decreases seeds@.len() - i,
        {
            let x = seeds[i];
            let ghost v0 = visited@;
            proof {
                assert(seeds@.subrange(0, i + 1) =~= seeds@.subrange(0, i as int).push(x));
            }
            if !holds(&visited, x) {
                visited.push(x);
                proof {
                    assert forall|a: int, b: int| 0 <= a < b < visited@.len() implies visited@[a] != visited@[b] by {
                        if b == v0.len() {
                            assert(v0.contains(visited@[a]));
                        }
                    }
                }
            }
            proof {
                assert forall|y: u128| visited@.contains(y) <==> seeds@.subrange(0, i + 1).contains(y) by {
                    vstd::seq_lib::lemma_seq_contains_after_push(v0, x, y);
                    vstd::seq_lib::lemma_seq_contains_after_push(seeds@.subrange(0, i as int), x, y);
                }
            }
            i = i + 1;
        }
        proof {
            assert(seeds@.subrange(0, seeds@.len() as int) =~= seeds@);
            assert forall|x: u128| visited@.contains(x) <==> reached_from_seeds(es, seeds@, 0, x) by {
                if visited@.contains(x) {
                    assert(within(es, x, 0).contains(x));
                }
                if reached_from_seeds(es, seeds@, 0, x) {
                    let s0 = choose|s0: u128| seeds@.contains(s0) && within(es, s0, 0).contains(x);
                    assert(s0 == x);
                }
            }
        }
        let mut level: usize = 0;
        while level < hop
            invariant
                graph.wf(),
                es == graph.edge_list(),
                level <= hop,
                visited@.no_duplicates(),
                forall|x: u128| visited@.contains(x) <==> reached_from_seeds(es, seeds@, level as nat, x),
            decreases hop - level,
        {
            let near = graph.neighbours(&visited);
            let next = crate::graph::merged(&visited, &near);
            proof {
                assert forall|x: u128| next@.contains(x) <==> reached_from_seeds(es, seeds@, (level + 1) as nat, x) by {
                    lemma_reach_step(es, seeds@, level as nat, x);
                    if crate::graph::next_to(es, visited@, x) {
                        let u = choose|u: u128| visited@.contains(u) && adjacent(es, u, x);
                        assert(reached_from_seeds(es, seeds@, level as nat, u));
                    }
                    if exists|u: u128| reached_from_seeds(es, seeds@, level as nat, u) && adjacent(es, u, x) {
                        let u = choose|u: u128| reached_from_seeds(es, seeds@, level as nat, u) && adjacent(es, u, x);
                        assert(visited@.contains(u));
                        assert(crate::graph::next_to(es, visited@, x));
                    }
                }
            }
            if next.len() == visited.len() {
                proof {
                    assert forall|x: u128|
                        reached_from_seeds(es, seeds@, (level + 1) as nat, x) == reached_from_seeds(es, seeds@, level as nat, x) by {
                        assert(next@.contains(x) <==> (visited@.contains(x) || near@.contains(x)));
                    }
                    lemma_reach_stable(es, seeds@, level as nat, hop as nat);
                }
                level = hop;
            } else {
                visited = next;
                level = level + 1;
            }
        }
        let mut sub = Subgraph::new();
        proof {
            assert(ids_of(sub.nodes@) =~= Seq::<u128>::empty());
        }
        let mut t: usize = 0;
        while t < visited.len()
            invariant
                es == graph.edge_list(),
                max == self.config.max_nodes,
                with_concepts == self.config.include_concepts,
                hop == self.config.hop_depth,
                t <= visited@.len(),
                visited@.no_duplicates(),
                forall|x: u128| visited@.contains(x) <==> reached_from_seeds(es, seeds@, hop as nat, x),
                sub.wf(),
                sub.edges@.len() == 0,
                sub.nodes@.len() <= max,
                forall|x: u128| ids_of(sub.nodes@).contains(x) ==> visited@.subrange(0, t as int).contains(x),
                forall|k: int|
                    0 <= k < sub.nodes@.len() ==> (exists|j: int| 0 <= j < lookup@.len() && same_node(#[trigger] sub.nodes@[k], lookup@[j]))
                        && reached_from_seeds(es, seeds@, hop as nat, sub.nodes@[k].id),
                !with_concepts ==> forall|k: int|
                    0 <= k < sub.nodes@.len() ==> kind_of((#[trigger] sub.nodes@[k]).data) != NodeType::Concept,
                sub.nodes@.len() < max ==> forall|q: int|
                    0 <= q < t && takeable(lookup@, with_concepts, #[trigger] visited@[q]) ==> ids_of(sub.nodes@).contains(visited@[q]),
            decreases visited@.len() - t,
        {
            let x = visited[t];
            let ghost before = sub.nodes@;
            proof {
                assert(visited@.subrange(0, t + 1) =~= visited@.subrange(0, t as int).push(x));
                assert(visited@.contains(x));
                if ids_of(before).contains(x) {
                    let w = choose|w: int| 0 <= w < t && visited@.subrange(0, t as int)[w] == x;
                    assert(visited@[w] == visited@[t as int]);
                }
            }
            if sub.node_count() < max {
                match find_in(lookup, x) {
                    Some(j) => {
                        if with_concepts || lookup[j].node_type() != NodeType::Concept {
                            let copy = lookup[j].clone_node();
                            sub.add_node(copy);
                            proof {
                                assert(sub.nodes@ == before.push(copy));
                                lemma_ids_push(before, copy);
                                assert forall|k: int|
                                    0 <= k < sub.nodes@.len() implies (exists|j2: int| 0 <= j2 < lookup@.len() && same_node(#[trigger] sub.nodes@[k], lookup@[j2]))
                                        && reached_from_seeds(es, seeds@, hop as nat, sub.nodes@[k].id) by {
                                    if k < before.len() {
                                        assert(sub.nodes@[k] == before[k]);
                                    } else {
                                        assert(sub.nodes@[k] == copy);
                                        assert(same_node(copy, lookup@[j as int]));
                                    }
                                }
                                assert forall|k: int| !with_concepts && 0 <= k < sub.nodes@.len() implies kind_of(
                                    (#[trigger] sub.nodes@[k]).data,
                                ) != NodeType::Concept by {
                                    if k < before.len() {
                                        assert(sub.nodes@[k] == before[k]);
                                    }
                                }
                            }
                        } else {
                            proof {
                                assert(is_first(lookup@, x, j as int));
                                if takeable(lookup@, with_concepts, x) {
                                    let k2 = choose|k2: int| is_first(lookup@, x, k2) && (with_concepts || kind_of(lookup@[k2].data) != NodeType::Concept);
                                    if k2 < j {
                                        assert(lookup@[k2].id != x);
                                    }
                                    if j < k2 {
                                        assert(lookup@[j as int].id != x);
                                    }
                                }
                            }
                        }
                    },
                    None => {
                        proof {
                            if takeable(lookup@, with_concepts, x) {
                                let k2 = choose|k2: int| is_first(lookup@, x, k2) && (with_concepts || kind_of(lookup@[k2].data) != NodeType::Concept);
                                assert(ids_of(lookup@)[k2] == x);
                            }
                        }
                    },
                }
            }
            proof {
                assert forall|y: u128| ids_of(sub.nodes@).contains(y) implies visited@.subrange(0, t + 1).contains(y) by {
                    lemma_ids_push(before, sub.nodes@.last());
                    vstd::seq_lib::lemma_seq_contains_after_push(visited@.subrange(0, t as int), x, y);
                    if sub.nodes@ != before {
                        assert(sub.nodes@ == before.push(sub.nodes@.last()));
                    }
                }
                if sub.nodes@.len() < max {
                    assert forall|q: int| 0 <= q < t + 1 && takeable(lookup@, with_concepts, #[trigger] visited@[q]) implies ids_of(
                        sub.nodes@,
                    ).contains(visited@[q]) by {
                        if q < t {
                            assert(before.len() <= sub.nodes@.len());
                            assert(ids_of(before).contains(visited@[q]));
                            if sub.nodes@ != before {
                                lemma_ids_push(before, sub.nodes@.last());
                                assert(sub.nodes@ == before.push(sub.nodes@.last()));
                            }
                        } else {
                            if sub.nodes@ != before {
                                lemma_ids_push(before, sub.nodes@.last());
                                assert(sub.nodes@ == before.push(sub.nodes@.last()));
                            }
                        }
                    }
                }
            }
            t = t + 1;
        }
        proof {
            assert(visited@.subrange(0, visited@.len() as int) =~= visited@);
        }
        let ghost taken = sub.nodes@;
        proof {
            if taken.len() < max {
                assert forall|x: u128|
                    reached_from_seeds(es, seeds@, hop as nat, x) && #[trigger] takeable(lookup@, with_concepts, x) implies ids_of(
                        taken,
                    ).contains(x) by {
                    assert(visited@.contains(x));
                    let q = choose|q: int| 0 <= q < visited@.len() && visited@[q] == x;
                    assert(takeable(lookup@, with_concepts, visited@[q]));
                }
            }
        }
        let es_exec = graph.edges();
        let ghost keep_edge = |e: Edge| e.weight >= min && ids_of(taken).contains(e.source) && ids_of(taken).contains(e.target);
        let mut j: usize = 0;
        proof {
            reveal(Seq::filter);
            assert(es_exec@.subrange(0, 0) =~= Seq::<Edge>::empty());
        }
        while j < es_exec.len()
            invariant
                es_exec@ == es,
                es == graph.edge_list(),
                j <= es.len(),
                sub.wf(),
                sub.nodes@ == taken,
                taken.len() <= self.config.max_nodes,
                taken.len() < self.config.max_nodes ==> forall|x: u128|
                    reached_from_seeds(es, seeds@, self.config.hop_depth as nat, x) && #[trigger] takeable(
                        lookup@,
                        self.config.include_concepts,
                        x,
                    ) ==> ids_of(taken).contains(x),
                forall|k: int|
                    0 <= k < taken.len() ==> (exists|j2: int| 0 <= j2 < lookup@.len() && same_node(#[trigger] taken[k], lookup@[j2]))
                        && reached_from_seeds(es, seeds@, self.config.hop_depth as nat, taken[k].id),
                !self.config.include_concepts ==> forall|k: int|
                    0 <= k < taken.len() ==> kind_of((#[trigger] taken[k]).data) != NodeType::Concept,
                min == self.config.min_edge_weight,
                keep_edge == (|e: Edge| e.weight >= min && ids_of(taken).contains(e.source) && ids_of(taken).contains(e.target)),
                sub.edges@ == es.subrange(0, j as int).filter(keep_edge),
            decreases es.len() - j,
        {
            let e = &es_exec[j];
            proof {
                assert(es.subrange(0, j + 1) =~= es.subrange(0, j as int).push(es[j as int]));
                es.subrange(0, j as int).lemma_filter_push(es[j as int], keep_edge);
            }
            if e.weight >= min && sub.contains_node(e.source) && sub.contains_node(e.target) {
                sub.add_edge(e.clone_edge());
            }
            j = j + 1;
        }
        proof {
            assert(es.subrange(0, es.len() as int) =~= es);
        }
        sub
    }
}

proof fn lemma_ids_push(ns: Seq<MemoryNode>, n: MemoryNode)
    ensures
        forall|x: u128| #[trigger] ids_of(ns.push(n)).contains(x) <==> (ids_of(ns).contains(x) || x == n.id),
{
    assert(ids_of(ns.push(n)) =~= ids_of(ns).push(n.id));
    assert forall|x: u128| ids_of(ns.push(n)).contains(x) <==> (ids_of(ns).contains(x) || x == n.id) by {
        vstd::seq_lib::lemma_seq_contains_after_push(ids_of(ns), n.id, x);
    }
}

} // verus!
