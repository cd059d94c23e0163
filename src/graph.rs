//! In-memory directed multigraph over node identifiers.
//!
//! The graph holds topology only: node identifiers and the edge records
//! between them. Payloads live in the store.

use vstd::prelude::*;

verus! {

/// A directed, typed edge between two nodes.
#[derive(Debug, Clone)]
pub struct Edge {
    pub id: u128,
    pub source: u128,
    pub target: u128,
    pub relation: String,
    /// Strength in hundredths, 0 to 100.
    pub weight: u32,
    pub created_at: i64,
    /// Extra data, as JSON text.
    pub metadata: Option<String>,
}

impl Edge {
    /// A fresh edge of full weight from `source` to `target`, created now.
    pub fn new(source: u128, target: u128, relation: String) -> (r: Edge)
        ensures
            r.source == source,
            r.target == target,
            r.relation@ == relation@,
            r.weight == 100,
            r.metadata.is_none(),
    {
        Edge {
            id: crate::node::fresh_id(),
            source,
            target,
            relation,
            weight: 100,
            created_at: crate::node::now_seconds(),
            metadata: None,
        }
    }

    /// A field-by-field copy.
    pub fn clone_edge(&self) -> (r: Edge)
        ensures
            r == *self,
    {
        Edge {
            id: self.id,
            source: self.source,
            target: self.target,
            relation: self.relation.clone(),
            weight: self.weight,
            created_at: self.created_at,
            metadata: match &self.metadata {
                Some(m) => Some(m.clone()),
                None => None,
            },
        }
    }
}

/// Whether `v` holds `x`.
pub fn holds(v: &Vec<u128>, x: u128) -> (r: bool)
    ensures
        r == v@.contains(x),
{
    let mut i: usize = 0;
    while i < v.len()
        invariant
            i <= v@.len(),
            forall|t: int| 0 <= t < i ==> v@[t] != x,
        decreases v@.len() - i,
    {
        if v[i] == x {
            return true;
        }
        i = i + 1;
    }
    false
}

/// The elements of `v` in reverse order.
pub fn reversed<T>(v: Vec<T>) -> (r: Vec<T>)
    ensures
        r@ == v@.reverse(),
{
    let ghost all = v@;
    let mut v = v;
    let mut r: Vec<T> = Vec::new();
    while v.len() > 0
        invariant
            v@.len() <= all.len(),
            v@ == all.subrange(0, v@.len() as int),
            r@ == all.subrange(v@.len() as int, all.len() as int).reverse(),
        decreases v@.len(),
    {
        let x = v.pop().unwrap();
        let ghost k = v@.len() as int;
        r.push(x);
        assert(v@ =~= all.subrange(0, k));
        assert(r@ =~= all.subrange(k, all.len() as int).reverse());
    }
    assert(all.subrange(0, all.len() as int) =~= all);
    r
}

proof fn lemma_filter_unique(s: Seq<u128>, id: u128)
    requires
        s.no_duplicates(),
    ensures
        s.filter(|x: u128| x != id).no_duplicates(),
    decreases s.len(),
{
    let p = |x: u128| x != id;
    if s.len() > 0 {
        let t = s.drop_last();
        let x = s.last();
        assert(s =~= t.push(x));
        assert(t.no_duplicates());
        lemma_filter_unique(t, id);
        t.lemma_filter_push(x, p);
        if x != id {
            if t.filter(p).contains(x) {
                t.lemma_filter_contains_rev(p, x);
                let w = choose|w: int| 0 <= w < t.len() && t[w] == x;
                assert(s[w] == s[s.len() - 1]);
            }
            let f = t.filter(p);
            assert forall|a: int, b: int| 0 <= a < b < f.push(x).len() implies f.push(x)[a] != f.push(x)[b] by {
                if b == f.len() {
                    assert(f.contains(f[a]));
                }
            }
        }
    }
}

/// Edge `e` touches node `x`.
pub open spec fn touches(e: Edge, x: u128) -> bool {
    e.source == x || e.target == x
}

/// Edge `e` links `u` and `v`, in either direction.
pub open spec fn links(e: Edge, u: u128, v: u128) -> bool {
    (e.source == u && e.target == v) || (e.source == v && e.target == u)
}

/// Some edge of `es` links `u` and `v`, in either direction.
pub open spec fn adjacent(es: Seq<Edge>, u: u128, v: u128) -> bool {
    exists|i: int| 0 <= i < es.len() && links(#[trigger] es[i], u, v)
}

/// The nodes at most `k` undirected steps away from `start`.
pub open spec fn within(es: Seq<Edge>, start: u128, k: nat) -> Set<u128>
    decreases k,
{
    if k == 0 {
        set![start]
    } else {
        let p = within(es, start, (k - 1) as nat);
        p.union(Set::new(|v: u128| exists|u: u128| p.contains(u) && adjacent(es, u, v)))
    }
}

/// The nodes reached from `sources` through one concept of `concepts`: a
/// neighbour of a neighbour that is a concept, itself not a source.
pub open spec fn bridged(es: Seq<Edge>, sources: Seq<u128>, concepts: Seq<u128>) -> Set<u128> {
    Set::new(
        |b: u128|
            !sources.contains(b) && exists|s: u128, c: u128|
                sources.contains(s) && concepts.contains(c) && adjacent(es, s, c) && adjacent(
                    es,
                    c,
                    b,
                ),
    )
}

/// Edge `e` leads from a node of `cur` to `x`, in either direction.
pub open spec fn leads_from(e: Edge, cur: Seq<u128>, x: u128) -> bool {
    (cur.contains(e.source) && e.target == x) || (cur.contains(e.target) && e.source == x)
}

/// `x` is adjacent to some node of `cur`.
pub open spec fn next_to(es: Seq<Edge>, cur: Seq<u128>, x: u128) -> bool {
    exists|u: u128| cur.contains(u) && adjacent(es, u, x)
}

/// The elements of `v` for which membership in `by` equals `want`.
pub(crate) fn keep(v: Vec<u128>, by: &Vec<u128>, want: bool) -> (r: Vec<u128>)
    requires
        v@.no_duplicates(),
    ensures
        r@.no_duplicates(),
        forall|x: u128| r@.contains(x) <==> (v@.contains(x) && by@.contains(x) == want),
{
    let mut r: Vec<u128> = Vec::new();
    let mut i: usize = 0;
    while i < v.len()
        invariant
            v@.no_duplicates(),
            i <= v@.len(),
            r@.no_duplicates(),
            forall|x: u128|
                r@.contains(x) <==> (v@.subrange(0, i as int).contains(x) && by@.contains(x) == want),
        decreases v@.len() - i,
    {
        let x = v[i];
        let ghost r0 = r@;
        let ghost pre = v@.subrange(0, i as int);
        proof {
            assert(v@.subrange(0, i + 1) =~= pre.push(x));
            if pre.contains(x) {
                let w = choose|w: int| 0 <= w < i && pre[w] == x;
                assert(v@[w] == v@[i as int]);
            }
        }
        let c = holds(by, x) == want;
        if c {
            r.push(x);
        }
        i = i + 1;
        proof {
            broadcast use vstd::seq_lib::lemma_seq_contains_after_push;
            if c {
                assert(r@ == r0.push(x));
            }
        }
    }
    assert(v@.subrange(0, v@.len() as int) =~= v@);
    r
}

/// `a` followed by the elements of `b` that `a` lacks.
pub(crate) fn merged(a: &Vec<u128>, b: &Vec<u128>) -> (r: Vec<u128>)
    requires
        a@.no_duplicates(),
        b@.no_duplicates(),
    ensures
        r@.no_duplicates(),
        forall|x: u128| r@.contains(x) <==> (a@.contains(x) || b@.contains(x)),
        r@.len() == a@.len() ==> forall|x: u128| b@.contains(x) ==> a@.contains(x),
{
    let extra = keep(b.clone(), a, false);
    let mut r = a.clone();
    let mut i: usize = 0;
    while i < extra.len()
        invariant
            a@.no_duplicates(),
            extra@.no_duplicates(),
            forall|x: u128| extra@.contains(x) ==> !a@.contains(x),
            i <= extra@.len(),
            r@ == a@ + extra@.subrange(0, i as int),
            r@.no_duplicates(),
        decreases extra@.len() - i,
    {
        let x = extra[i];
        proof {
            assert(extra@.contains(x));
            if r@.contains(x) {
                let w = choose|w: int| 0 <= w < r@.len() && r@[w] == x;
                if w >= a@.len() {
                    assert(extra@[w - a@.len()] == extra@[i as int]);
                } else {
                    assert(a@.contains(x));
                }
            }
        }
        r.push(x);
        i = i + 1;
        assert(r@ =~= a@ + extra@.subrange(0, i as int));
    }
    assert(extra@.subrange(0, extra@.len() as int) =~= extra@);
    proof {
        assert forall|x: u128| r@.contains(x) <==> (a@.contains(x) || b@.contains(x)) by {
            if r@.contains(x) {
                let w = choose|w: int| 0 <= w < r@.len() && r@[w] == x;
                if w >= a@.len() {
                    assert(extra@[w - a@.len()] == x);
                } else {
                    assert(a@[w] == x);
                }
            }
            if a@.contains(x) {
                let w = choose|w: int| 0 <= w < a@.len() && a@[w] == x;
                assert(r@[w] == x);
            }
            if b@.contains(x) && !a@.contains(x) {
                assert(extra@.contains(x));
                let w = choose|w: int| 0 <= w < extra@.len() && extra@[w] == x;
                assert(r@[a@.len() + w] == x);
            }
        }
        if r@.len() == a@.len() {
            assert forall|x: u128| b@.contains(x) implies a@.contains(x) by {
                if !a@.contains(x) {
                    assert(extra@.contains(x));
                }
            }
        }
    }
    r
}

pub(crate) proof fn lemma_within_stable(es: Seq<Edge>, start: u128, k: nat, m: nat)
    requires
        k <= m,
        within(es, start, k + 1) == within(es, start, k),
    ensures
        within(es, start, m) == within(es, start, k),
    decreases m - k,
{
    if m > k {
        lemma_within_stable(es, start, k, (m - 1) as nat);
        assert(within(es, start, m) =~= within(es, start, k + 1));
    }
}

/// The knowledge graph index.
pub struct KnowledgeGraph {
    nodes: Vec<u128>,
    edges: Vec<Edge>,
}

impl KnowledgeGraph {
    /// The node identifiers, in order of insertion.
    pub closed spec fn node_ids(&self) -> Seq<u128> {
        self.nodes@
    }

    /// The edges, in order of insertion.
    pub closed spec fn edge_list(&self) -> Seq<Edge> {
        self.edges@
    }

    /// Node identifiers are unique and every edge joins two present nodes.
    pub open spec fn wf(&self) -> bool {
        &&& self.node_ids().no_duplicates()
        &&& forall|i: int|
            0 <= i < self.edge_list().len() ==> self.node_ids().contains(
                (#[trigger] self.edge_list()[i]).source,
            ) && self.node_ids().contains(self.edge_list()[i].target)
    }

    /// An empty graph.
    pub fn new() -> (r: Self)
        ensures
            r.wf(),
            r.node_ids() == Seq::<u128>::empty(),
            r.edge_list() == Seq::<Edge>::empty(),
    {
        KnowledgeGraph { nodes: Vec::new(), edges: Vec::new() }
    }

    /// Adds a node; a present node is left as it is. Returns its position.
    pub fn add_node(&mut self, id: u128) -> (r: usize)
        requires
            old(self).wf(),
        ensures
            final(self).wf(),
            final(self).edge_list() == old(self).edge_list(),
            final(self).node_ids() == (if old(self).node_ids().contains(id) {
                old(self).node_ids()
            } else {
                old(self).node_ids().push(id)
            }),
            r < final(self).node_ids().len(),
            final(self).node_ids()[r as int] == id,
    {
        let mut i: usize = 0;
        while i < self.nodes.len()
            invariant
                *self == *old(self),
                old(self).wf(),
                i <= self.nodes@.len(),
                forall|t: int| 0 <= t < i ==> self.nodes@[t] != id,
            decreases self.nodes@.len() - i,
        {
            if self.nodes[i] == id {
                return i;
            }
            i = i + 1;
        }
        let ghost before = self.nodes@;
        self.nodes.push(id);
        proof {
            assert forall|t: int| 0 <= t < self.edges@.len() implies self.nodes@.contains(
                (#[trigger] self.edges@[t]).source,
            ) && self.nodes@.contains(self.edges@[t].target) by {
                assert(old(self).edge_list()[t] == self.edges@[t]);
                let a = choose|a: int| 0 <= a < before.len() && before[a] == self.edges@[t].source;
                let b = choose|b: int| 0 <= b < before.len() && before[b] == self.edges@[t].target;
                assert(self.nodes@[a] == before[a]);
                assert(self.nodes@[b] == before[b]);
            }
        }
        self.nodes.len() - 1
    }

    /// Adds an edge, first adding its endpoints where they are missing.
    /// Parallel edges are kept.
    pub fn add_edge(&mut self, edge: Edge)
        requires
            old(self).wf(),
        ensures
            final(self).wf(),
            final(self).edge_list() == old(self).edge_list().push(edge),
            forall|x: u128|
                final(self).node_ids().contains(x) <==> (old(self).node_ids().contains(x)
                    || x == edge.source || x == edge.target),
    {
        let ghost n0 = self.nodes@;
        self.add_node(edge.source);
        let ghost n1 = self.nodes@;
        self.add_node(edge.target);
        proof {
            assert forall|x: u128| n1.contains(x) <==> (n0.contains(x) || x == edge.source) by {
                if n1 != n0 {
                    assert(n1 == n0.push(edge.source));
                    if n0.contains(x) {
                        let w = choose|w: int| 0 <= w < n0.len() && n0[w] == x;
                        assert(n1[w] == x);
                    }
                    if n1.contains(x) && x != edge.source {
                        let w = choose|w: int| 0 <= w < n1.len() && n1[w] == x;
                        assert(n0[w] == x);
                    }
                    assert(n1[n0.len() as int] == edge.source);
                }
            }
            let n2 = self.nodes@;
            assert forall|x: u128| n2.contains(x) <==> (n1.contains(x) || x == edge.target) by {
                if n2 != n1 {
                    assert(n2 == n1.push(edge.target));
                    if n1.contains(x) {
                        let w = choose|w: int| 0 <= w < n1.len() && n1[w] == x;
                        assert(n2[w] == x);
                    }
                    if n2.contains(x) && x != edge.target {
                        let w = choose|w: int| 0 <= w < n2.len() && n2[w] == x;
                        assert(n1[w] == x);
                    }
                    assert(n2[n1.len() as int] == edge.target);
                }
            }
            assert(self.nodes@.contains(edge.source));
            assert(self.nodes@.contains(edge.target));
        }
        self.edges.push(edge);
        assert(self.edges@.last() == edge);
    }

    /// Adds each edge of `edges`, in order.
    pub fn add_edges(&mut self, edges: Vec<Edge>)
        requires
            old(self).wf(),
        ensures
            final(self).wf(),
            final(self).edge_list() == old(self).edge_list() + edges@,
    {
        let ghost given = edges@;
        let mut edges = reversed(edges);
        let ghost all = edges@;
        let ghost start = self.edge_list();
        while edges.len() > 0
            invariant
                self.wf(),
                edges@.len() <= all.len(),
                edges@ == all.subrange(0, edges@.len() as int),
                self.edge_list() == start + all.subrange(edges@.len() as int, all.len() as int).reverse(),
            decreases edges@.len(),
        {
            let e = edges.pop().unwrap();
            let ghost k = edges@.len() as int;
            self.add_edge(e);
            assert(all.subrange(k, all.len() as int).reverse() =~= all.subrange(
                k + 1,
                all.len() as int,
            ).reverse().push(all[k]));
            assert(edges@ =~= all.subrange(0, k));
        }
        assert(all.subrange(0, all.len() as int).reverse() =~= all.reverse());
        assert(all.reverse() =~= given) by {
            assert(all =~= given.reverse());
            assert(given.reverse().reverse() =~= given);
        }
    }

    /// Removes a node and every edge that touches it. Returns whether the
    /// node was present.
    pub fn remove_node(&mut self, id: u128) -> (r: bool)
        requires
            old(self).wf(),
        ensures
            final(self).wf(),
            r == old(self).node_ids().contains(id),
            final(self).node_ids() == old(self).node_ids().filter(|x: u128| x != id),
            final(self).edge_list() == old(self).edge_list().filter(|e: Edge| !touches(e, id)),
    {
        let ghost on = self.nodes@;
        let ghost oe = self.edges@;
        let mut nodes: Vec<u128> = Vec::new();
        let mut found = false;
        let mut i: usize = 0;
        while i < self.nodes.len()
            invariant
                self.nodes@ == on,
                i <= on.len(),
                nodes@ == on.subrange(0, i as int).filter(|x: u128| x != id),
                found == on.subrange(0, i as int).contains(id),
            decreases on.len() - i,
        {
            let x = self.nodes[i];
            proof {
                let pre = on.subrange(0, i as int);
                assert(on.subrange(0, i + 1) =~= pre.push(x));
                pre.lemma_filter_push(x, |x: u128| x != id);
                if x == id {
                    assert(pre.push(x)[i as int] == id);
                }
                if pre.push(x).contains(id) && x != id {
                    let w = choose|w: int| 0 <= w < i + 1 && pre.push(x)[w] == id;
                    assert(pre[w] == id);
                }
                if pre.contains(id) {
                    let w = choose|w: int| 0 <= w < i && pre[w] == id;
                    assert(pre.push(x)[w] == id);
                }
            }
            if x != id {
                nodes.push(x);
            } else {
                found = true;
            }
            i = i + 1;
        }
        proof {
            lemma_filter_unique(on, id);
        }
        assert(on.subrange(0, on.len() as int) =~= on);
        let mut edges: Vec<Edge> = Vec::new();
        let mut kept: Vec<Edge> = Vec::new();
        std::mem::swap(&mut edges, &mut self.edges);
        let mut rest = reversed(edges);
        let ghost all = rest@;
        assert(all =~= oe.reverse());
        while rest.len() > 0
            invariant
                rest@.len() <= all.len(),
                all == oe.reverse(),
                rest@ == all.subrange(0, rest@.len() as int),
                kept@ == all.subrange(rest@.len() as int, all.len() as int).reverse().filter(
                    |e: Edge| !touches(e, id),
                ),
            decreases rest@.len(),
        {
            let e = rest.pop().unwrap();
            let ghost k = rest@.len() as int;
            proof {
                assert(all.subrange(k, all.len() as int).reverse() =~= all.subrange(
                    k + 1,
                    all.len() as int,
                ).reverse().push(all[k]));
                assert(rest@ =~= all.subrange(0, k));
                reveal(Seq::filter);
                assert(all.subrange(k, all.len() as int).reverse().drop_last() =~= all.subrange(
                    k + 1,
                    all.len() as int,
                ).reverse());
            }
            if !(e.source == id || e.target == id) {
                kept.push(e);
            }
        }
        proof {
            assert(all.subrange(0, all.len() as int).reverse() =~= oe) by {
                assert(oe.reverse().reverse() =~= oe);
            }
        }
        self.nodes = nodes;
        self.edges = kept;
        proof {
            assert forall|t: int| 0 <= t < self.edges@.len() implies self.nodes@.contains(
                (#[trigger] self.edges@[t]).source,
            ) && self.nodes@.contains(self.edges@[t].target) by {
                let e = self.edges@[t];
                let pe = |e: Edge| !touches(e, id);
                let pn = |x: u128| x != id;
                assert(self.edges@ == oe.filter(pe));
                oe.lemma_filter_pred(pe, t);
                assert(oe.filter(pe).contains(e));
                oe.lemma_filter_contains_rev(pe, e);
                let j = choose|j: int| 0 <= j < oe.len() && oe[j] == e;
                assert(old(self).edge_list()[j] == e);
                assert(on.contains(oe[j].source) && on.contains(oe[j].target));
                let a = choose|a: int| 0 <= a < on.len() && on[a] == e.source;
                let b = choose|b: int| 0 <= b < on.len() && on[b] == e.target;
                on.lemma_filter_contains(pn, a);
                on.lemma_filter_contains(pn, b);
            }
        }
        found
    }

    /// The nodes adjacent to some node of `cur`, each once.
    pub(crate) fn neighbours(&self, cur: &Vec<u128>) -> (r: Vec<u128>)
        ensures
            r@.no_duplicates(),
            forall|x: u128| r@.contains(x) <==> next_to(self.edge_list(), cur@, x),
    {
        let es = &self.edges;
        let mut r: Vec<u128> = Vec::new();
        let mut j: usize = 0;
        while j < es.len()
            invariant
                es@ == self.edge_list(),
                j <= es@.len(),
                r@.no_duplicates(),
                forall|x: u128|
                    r@.contains(x) <==> exists|i: int| 0 <= i < j && leads_from(#[trigger] es@[i], cur@, x),
            decreases es@.len() - j,
        {
            let e = &es[j];
            let ghost r0 = r@;
            if holds(cur, e.source) && !holds(&r, e.target) {
                r.push(e.target);
            }
            let ghost r1 = r@;
            if holds(cur, e.target) && !holds(&r, e.source) {
                r.push(e.source);
            }
            proof {
                broadcast use vstd::seq_lib::lemma_seq_contains_after_push;
                assert(r1 == r0 || r1 == r0.push(e.target));
                assert(r@ == r1 || r@ == r1.push(e.source));
                assert forall|x: u128|
                    r@.contains(x) <==> exists|i: int| 0 <= i < j + 1 && leads_from(#[trigger] es@[i], cur@, x) by {
                    if exists|i: int| 0 <= i < j + 1 && leads_from(#[trigger] es@[i], cur@, x) {
                        let i = choose|i: int| 0 <= i < j + 1 && leads_from(#[trigger] es@[i], cur@, x);
                        if i < j {
                            assert(r0.contains(x));
                        }
                    }
                    if r@.contains(x) && !r0.contains(x) {
                        assert(leads_from(es@[j as int], cur@, x));
                    }
                }
            }
            j = j + 1;
        }
        proof {
            assert forall|x: u128| r@.contains(x) <==> next_to(self.edge_list(), cur@, x) by {
                if r@.contains(x) {
                    let i = choose|i: int| 0 <= i < es@.len() && leads_from(#[trigger] es@[i], cur@, x);
                    let e = es@[i];
                    if cur@.contains(e.source) && e.target == x {
                        assert(links(es@[i], e.source, x));
                        assert(adjacent(self.edge_list(), e.source, x));
                    } else {
                        assert(links(es@[i], e.target, x));
                        assert(adjacent(self.edge_list(), e.target, x));
                    }
                }
                if next_to(self.edge_list(), cur@, x) {
                    let u = choose|u: u128| cur@.contains(u) && adjacent(self.edge_list(), u, x);
                    let i = choose|i: int| 0 <= i < es@.len() && links(#[trigger] es@[i], u, x);
                    assert(leads_from(es@[i], cur@, x));
                }
            }
        }
        r
    }

    /// The nodes at most `hops` undirected steps away from `node_id`,
    /// `node_id` included; empty where the node is absent.
    pub fn get_neighbors(&self, node_id: u128, hops: usize) -> (r: Vec<u128>)
        requires
            self.wf(),
        ensures
            r@.no_duplicates(),
            forall|x: u128|
                r@.contains(x) <==> (self.node_ids().contains(node_id) && within(
                    self.edge_list(),
                    node_id,
                    hops as nat,
                ).contains(x)),
    {
        let ghost es = self.edge_list();
        if !self.contains_node(node_id) {
            return Vec::new();
        }
        let mut visited: Vec<u128> = Vec::new();
        visited.push(node_id);
        proof {
            assert forall|x: u128| visited@.contains(x) <==> within(es, node_id, 0).contains(x) by {
                if visited@.contains(x) {
                    let w = choose|w: int| 0 <= w < visited@.len() && visited@[w] == x;
                }
                if x == node_id {
                    assert(visited@[0] == x);
                }
            }
        }
        let mut level: usize = 0;
        while level < hops
            invariant
                es == self.edge_list(),
                self.node_ids().contains(node_id),
                level <= hops,
                visited@.no_duplicates(),
                forall|x: u128| visited@.contains(x) <==> within(es, node_id, level as nat).contains(x),
            decreases hops - level,
        {
            let near = self.neighbours(&visited);
            let next = merged(&visited, &near);
            proof {
                let p = within(es, node_id, level as nat);
                assert forall|x: u128|
                    next@.contains(x) <==> within(es, node_id, (level + 1) as nat).contains(x) by {
                    if next_to(es, visited@, x) {
                        let u = choose|u: u128| visited@.contains(u) && adjacent(es, u, x);
                        assert(p.contains(u) && adjacent(es, u, x));
                    }
                    if exists|u: u128| p.contains(u) && adjacent(es, u, x) {
                        let u = choose|u: u128| p.contains(u) && adjacent(es, u, x);
                        assert(visited@.contains(u) && adjacent(es, u, x));
                        assert(next_to(es, visited@, x));
                    }
                }
            }
            if next.len() == visited.len() {
                proof {
                    assert forall|x: u128|
                        within(es, node_id, (level + 1) as nat).contains(x) == within(es, node_id, level as nat).contains(x) by {
                        assert(next@.contains(x) <==> (visited@.contains(x) || near@.contains(x)));
                    }
                    assert(within(es, node_id, (level + 1) as nat) =~= within(es, node_id, level as nat));
                    lemma_within_stable(es, node_id, level as nat, hops as nat);
                }
                return visited;
            }
            visited = next;
            level = level + 1;
        }
        visited
    }

    /// The nodes reached from `sources` through a neighbouring concept of
    /// `concepts`, leaving out the sources themselves; each once.
    pub fn find_concept_bridged(&self, sources: &Vec<u128>, concepts: &Vec<u128>) -> (r: Vec<u128>)
        ensures
            r@.no_duplicates(),
            forall|b: u128| r@.contains(b) <==> bridged(self.edge_list(), sources@, concepts@).contains(b),
    {
        let ghost es = self.edge_list();
        let near_sources = self.neighbours(sources);
        let cs = keep(near_sources, concepts, true);
        let near_concepts = self.neighbours(&cs);
        let r = keep(near_concepts, sources, false);
        proof {
            assert forall|b: u128| r@.contains(b) <==> bridged(es, sources@, concepts@).contains(b) by {
                if r@.contains(b) {
                    let c = choose|c: u128| cs@.contains(c) && adjacent(es, c, b);
                    let s = choose|s: u128| sources@.contains(s) && adjacent(es, s, c);
                    assert(sources@.contains(s) && concepts@.contains(c) && adjacent(es, s, c) && adjacent(es, c, b));
                }
                if bridged(es, sources@, concepts@).contains(b) {
                    let (s, c) = choose|s: u128, c: u128|
                        sources@.contains(s) && concepts@.contains(c) && adjacent(es, s, c) && adjacent(es, c, b);
                    assert(next_to(es, sources@, c));
                    assert(cs@.contains(c));
                    assert(next_to(es, cs@, b));
                }
            }
        }
        r
    }

    /// Some edge from `source` to `target`, if there is one.
    pub fn get_edge(&self, source: u128, target: u128) -> (r: Option<&Edge>)
        ensures
            r.is_some() <==> exists|i: int|
                0 <= i < self.edge_list().len() && (#[trigger] self.edge_list()[i]).source == source
                    && self.edge_list()[i].target == target,
            r.is_some() ==> self.edge_list().contains(*r.unwrap()) && r.unwrap().source == source
                && r.unwrap().target == target,
    {
        let mut j: usize = 0;
        while j < self.edges.len()
            invariant
                j <= self.edges@.len(),
                forall|i: int| 0 <= i < j ==> !((#[trigger] self.edges@[i]).source == source && self.edges@[i].target == target),
            decreases self.edges@.len() - j,
        {
            if self.edges[j].source == source && self.edges[j].target == target {
                assert(self.edge_list()[j as int].source == source);
                return Some(&self.edges[j]);
            }
            j = j + 1;
        }
        None
    }

    /// The edges that leave `node_id`, in order of insertion.
    pub fn get_outgoing_edges(&self, node_id: u128) -> (r: Vec<&Edge>)
        ensures
            r@.len() == self.edge_list().filter(|e: Edge| e.source == node_id).len(),
            forall|i: int|
                0 <= i < r@.len() ==> r@[i] == self.edge_list().filter(|e: Edge| e.source == node_id)[i],
    {
        let mut r: Vec<&Edge> = Vec::new();
        let mut j: usize = 0;
        while j < self.edges.len()
            invariant
                j <= self.edges@.len(),
                r@.len() == self.edges@.subrange(0, j as int).filter(|e: Edge| e.source == node_id).len(),
                forall|i: int|
                    0 <= i < r@.len() ==> r@[i] == self.edges@.subrange(0, j as int).filter(
                        |e: Edge| e.source == node_id,
                    )[i],
            decreases self.edges@.len() - j,
        {
            proof {
                assert(self.edges@.subrange(0, j + 1) =~= self.edges@.subrange(0, j as int).push(self.edges@[j as int]));
                self.edges@.subrange(0, j as int).lemma_filter_push(self.edges@[j as int], |e: Edge| e.source == node_id);
            }
            if self.edges[j].source == node_id {
                r.push(&self.edges[j]);
            }
            j = j + 1;
        }
        assert(self.edges@.subrange(0, self.edges@.len() as int) =~= self.edges@);
        r
    }

    /// The next layer of a subgraph expansion: nodes adjacent to `layer`
    /// that are not in `visited`, each once, at most `room` of them. Where
    /// fewer than `room` come back, every such node is there.
    pub fn expansion_layer(&self, layer: &Vec<u128>, visited: &Vec<u128>, room: usize) -> (r: Vec<u128>)
        ensures
            r@.no_duplicates(),
            r@.len() <= room,
            forall|x: u128| r@.contains(x) ==> next_to(self.edge_list(), layer@, x) && !visited@.contains(x),
            r@.len() < room ==> forall|x: u128|
                next_to(self.edge_list(), layer@, x) && !visited@.contains(x) ==> r@.contains(x),
    {
        let near = self.neighbours(layer);
        let fresh = keep(near, visited, false);
        let mut r: Vec<u128> = Vec::new();
        let mut i: usize = 0;
        while i < fresh.len() && i < room
            invariant
                i <= fresh@.len(),
                i <= room,
                fresh@.no_duplicates(),
                r@ == fresh@.subrange(0, i as int),
            decreases fresh@.len() - i,
        {
            r.push(fresh[i]);
            i = i + 1;
            assert(r@ =~= fresh@.subrange(0, i as int));
        }
        proof {
            assert forall|x: u128| r@.contains(x) implies fresh@.contains(x) by {
                let w = choose|w: int| 0 <= w < r@.len() && r@[w] == x;
                assert(fresh@[w] == x);
            }
            if r@.len() < room {
                assert(r@ =~= fresh@);
            }
        }
        r
    }

    /// The edges, in order of insertion.
    pub fn edges(&self) -> (r: &Vec<Edge>)
        ensures
            r@ == self.edge_list(),
    {
        &self.edges
    }

    /// Whether the node is present.
    pub fn contains_node(&self, id: u128) -> (r: bool)
        ensures
            r == self.node_ids().contains(id),
    {
        holds(&self.nodes, id)
    }

    /// Number of nodes.
    pub fn node_count(&self) -> (r: usize)
        ensures
            r == self.node_ids().len(),
    {
        self.nodes.len()
    }

    /// Number of edges.
    pub fn edge_count(&self) -> (r: usize)
        ensures
            r == self.edge_list().len(),
    {
        self.edges.len()
    }

    /// All node identifiers.
    pub fn get_all_node_ids(&self) -> (r: Vec<u128>)
        ensures
            r@ == self.node_ids(),
    {
        self.nodes.clone()
    }

    /// Removes every node and edge.
    pub fn clear(&mut self)
        ensures
            final(self).wf(),
            final(self).node_ids() == Seq::<u128>::empty(),
            final(self).edge_list() == Seq::<Edge>::empty(),
    {
        self.nodes = Vec::new();
        self.edges = Vec::new();
    }
}

/// Removing a node and then adding the same identifier back yields a graph
/// in which the node is present and no edge touches it.
pub proof fn lemma_readded_node_is_bare(g0: KnowledgeGraph, g1: KnowledgeGraph, g2: KnowledgeGraph, id: u128)
    requires
        g0.wf(),
        g1.node_ids() == g0.node_ids().filter(|x: u128| x != id),
        g1.edge_list() == g0.edge_list().filter(|e: Edge| !touches(e, id)),
        g2.node_ids() == (if g1.node_ids().contains(id) {
            g1.node_ids()
        } else {
            g1.node_ids().push(id)
        }),
        g2.edge_list() == g1.edge_list(),
    ensures
        g2.node_ids().contains(id),
        forall|i: int| 0 <= i < g2.edge_list().len() ==> !touches(#[trigger] g2.edge_list()[i], id),
{
    let p = |e: Edge| !touches(e, id);
    if g1.node_ids().contains(id) {
        g0.node_ids().lemma_filter_contains_rev(|x: u128| x != id, id);
        let w = choose|w: int| 0 <= w < g1.node_ids().len() && g1.node_ids()[w] == id;
        g0.node_ids().lemma_filter_pred(|x: u128| x != id, w);
    } else {
        assert(g2.node_ids()[g1.node_ids().len() as int] == id);
    }
    assert forall|i: int| 0 <= i < g2.edge_list().len() implies !touches(#[trigger] g2.edge_list()[i], id) by {
        g0.edge_list().lemma_filter_pred(p, i);
    }
}

} // verus!
