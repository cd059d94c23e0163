//! Breadth-first traversal of the graph index, with depths and paths, and
//! shortest paths between nodes. Edges are followed in both directions.

use vstd::prelude::*;
use crate::config::SubgraphConfig;
use crate::graph::{adjacent, holds, keep, links, next_to, within, Edge, KnowledgeGraph};

verus! {

/// What a traversal reached: the nodes in order of discovery, and for the
/// node at each position its depth and a path to it from the start.
pub struct TraversalResult {
    pub visited_nodes: Vec<u128>,
    pub depths: Vec<usize>,
    pub paths: Vec<Vec<u128>>,
}

/// `p` is a walk along edges of `es`, in either direction.
pub open spec fn is_walk(es: Seq<Edge>, p: Seq<u128>) -> bool {
    p.len() >= 1 && forall|i: int| 0 <= i < p.len() - 1 ==> adjacent(es, #[trigger] p[i], p[i + 1])
}

/// The facts about position `k` of a traversal from `start` over `es`:
/// its path is a walk from `start` to the node, one longer than its depth,
/// and no shorter walk reaches the node.
pub open spec fn well_reached(es: Seq<Edge>, start: u128, r: TraversalResult, k: int) -> bool {
    let p = r.paths@[k]@;
    let d = r.depths@[k];
    &&& is_walk(es, p)
    &&& p[0] == start
    &&& p.last() == r.visited_nodes@[k]
    &&& p.len() == d + 1
    &&& (d > 0 ==> !within(es, start, (d - 1) as nat).contains(r.visited_nodes@[k]))
}

/// Whether some edge of `es` links `a` and `b`.
fn linked(es: &Vec<Edge>, a: u128, b: u128) -> (r: bool)
    ensures
        r == adjacent(es@, a, b),
{
    let mut j: usize = 0;
    while j < es.len()
        invariant
            j <= es@.len(),
            forall|i: int| 0 <= i < j ==> !links(#[trigger] es@[i], a, b),
        decreases es@.len() - j,
    {
        if (es[j].source == a && es[j].target == b) || (es[j].source == b && es[j].target == a) {
            assert(links(es@[j as int], a, b));
            return true;
        }
        j = j + 1;
    }
    false
}

fn copy_ids(v: &Vec<u128>) -> (r: Vec<u128>)
    ensures
        r@ == v@,
{
    v.clone()
}

/// Visits the nodes at most `max_depth` undirected steps from `start`,
/// layer by layer, recording each node's depth and a shortest path to it.
/// Nothing is visited where `start` is absent.
pub fn bfs_traverse(g: &KnowledgeGraph, start: u128, max_depth: usize) -> (r: TraversalResult)
    requires
        g.wf(),
    ensures
        !g.node_ids().contains(start) ==> r.visited_nodes@.len() == 0,
        r.depths@.len() == r.visited_nodes@.len(),
        r.paths@.len() == r.visited_nodes@.len(),
        r.visited_nodes@.no_duplicates(),
        g.node_ids().contains(start) ==> r.visited_nodes@.len() > 0 && r.visited_nodes@[0] == start,
        forall|x: u128|
            r.visited_nodes@.contains(x) <==> (g.node_ids().contains(start) && within(
                g.edge_list(),
                start,
                max_depth as nat,
            ).contains(x)),
        forall|k: int| 0 <= k < r.visited_nodes@.len() ==> #[trigger] r.depths@[k] <= max_depth,
        forall|k: int| 0 <= k < r.visited_nodes@.len() ==> well_reached(g.edge_list(), start, r, k),
{
    let es = g.edges();
    let ghost esv = g.edge_list();
    let mut r = TraversalResult { visited_nodes: Vec::new(), depths: Vec::new(), paths: Vec::new() };
    if !g.contains_node(start) {
        return r;
    }
    r.visited_nodes.push(start);
    r.depths.push(0);
    let mut first: Vec<u128> = Vec::new();
    first.push(start);
    r.paths.push(first);
    proof {
        assert forall|x: u128| r.visited_nodes@.contains(x) <==> within(esv, start, 0).contains(x) by {
            if x == start {
                assert(r.visited_nodes@[0] == x);
            }
        }
        assert(well_reached(esv, start, r, 0));
    }
    let mut lo: usize = 0;
    let mut level: usize = 0;
    while level < max_depth
        invariant
            es@ == esv,
            esv == g.edge_list(),
            g.wf(),
            g.node_ids().contains(start),
            level <= max_depth,
            lo <= r.visited_nodes@.len(),
            r.visited_nodes@.len() > 0,
            r.visited_nodes@[0] == start,
            r.depths@.len() == r.visited_nodes@.len(),
            r.paths@.len() == r.visited_nodes@.len(),
            r.visited_nodes@.no_duplicates(),
            forall|x: u128| r.visited_nodes@.contains(x) <==> within(esv, start, level as nat).contains(x),
            forall|k: int, y: u128|
                0 <= k < lo && #[trigger] adjacent(esv, r.visited_nodes@[k], y) ==> r.visited_nodes@.contains(y),
            forall|k: int| 0 <= k < r.visited_nodes@.len() ==> #[trigger] r.depths@[k] <= level,
            forall|k: int| lo <= k < r.visited_nodes@.len() ==> #[trigger] r.depths@[k] == level,
            forall|k: int| 0 <= k < r.visited_nodes@.len() ==> well_reached(esv, start, r, k),
        decreases max_depth - level,
    {
        let hi = r.visited_nodes.len();
        let ghost old_r = r.visited_nodes@;
        assert(old_r.len() > 0);
        let mut layer: Vec<u128> = Vec::new();
        let mut t: usize = lo;
        while t < hi
            invariant
                lo <= t <= hi,
                hi == r.visited_nodes@.len(),
                layer@ == r.visited_nodes@.subrange(lo as int, t as int),
            decreases hi - t,
        {
            layer.push(r.visited_nodes[t]);
            t = t + 1;
            assert(layer@ =~= r.visited_nodes@.subrange(lo as int, t as int));
        }
        let near = g.neighbours(&layer);
        let fresh = keep(near, &r.visited_nodes, false);
        proof {
            assert(r.visited_nodes@ == old_r);
            assert forall|x: u128| fresh@.contains(x) <==> (next_to(esv, layer@, x) && !old_r.contains(x)) by {
                assert(near@.contains(x) <==> next_to(esv, layer@, x));
            }
            assert(r.visited_nodes@.subrange(0, hi as int) =~= old_r);
            assert(fresh@.subrange(0, 0) =~= Seq::<u128>::empty());
            assert(r.visited_nodes@ =~= old_r + fresh@.subrange(0, 0));
        }
        let mut f: usize = 0;
        while f < fresh.len()
            invariant
                es@ == esv,
                esv == g.edge_list(),
                lo <= hi <= r.visited_nodes@.len(),
                hi == old_r.len(),
                r.visited_nodes@.subrange(0, hi as int) == old_r,
                layer@ == old_r.subrange(lo as int, hi as int),
                fresh@.no_duplicates(),
                forall|x: u128| #[trigger] fresh@.contains(x) <==> (next_to(esv, layer@, x) && !old_r.contains(x)),
                f <= fresh@.len(),
                old_r.len() > 0,
                r.visited_nodes@ == old_r + fresh@.subrange(0, f as int),
                r.visited_nodes@[0] == start,
                r.depths@.len() == r.visited_nodes@.len(),
                r.paths@.len() == r.visited_nodes@.len(),
                old_r.no_duplicates(),
                forall|x: u128| old_r.contains(x) <==> within(esv, start, level as nat).contains(x),
                forall|k: int| 0 <= k < hi ==> #[trigger] r.depths@[k] <= level,
                forall|k: int| lo <= k < hi ==> #[trigger] r.depths@[k] == level,
                forall|k: int| hi <= k < r.visited_nodes@.len() ==> #[trigger] r.depths@[k] == level + 1,
                level < max_depth,
                forall|k: int| 0 <= k < r.visited_nodes@.len() ==> well_reached(esv, start, r, k),
            decreases fresh@.len() - f,
        {
            let y = fresh[f];
            proof {
                assert(fresh@.contains(y));
                assert(next_to(esv, layer@, y) && !old_r.contains(y));
            }
            let ghost u0 = choose|u: u128| layer@.contains(u) && adjacent(esv, u, y);
            let mut k: usize = lo;
            while k < hi && !linked(es, r.visited_nodes[k], y)
                invariant
                    lo <= k <= hi,
                    hi <= r.visited_nodes@.len(),
                    r.visited_nodes@.subrange(0, hi as int) == old_r,
                    layer@ == old_r.subrange(lo as int, hi as int),
                    layer@.contains(u0) && adjacent(esv, u0, y),
                    es@ == esv,
                    forall|q: int| lo <= q < k ==> !adjacent(esv, #[trigger] old_r[q], y),
                decreases hi - k,
            {
                assert(r.visited_nodes@[k as int] == old_r[k as int]);
                k = k + 1;
            }
            proof {
                if k == hi {
                    let w = choose|w: int| 0 <= w < layer@.len() && layer@[w] == u0;
                    assert(old_r[lo + w] == u0);
                }
                assert(r.visited_nodes@[k as int] == old_r[k as int]);
            }
            let mut path = copy_ids(&r.paths[k]);
            path.push(y);
            let ghost before = r;
            r.visited_nodes.push(y);
            r.depths.push(level + 1);
            r.paths.push(path);
            proof {
                let n = r.visited_nodes@.len() - 1;
                assert(r.visited_nodes@ =~= old_r + fresh@.subrange(0, f + 1));
                let p = r.paths@[n]@;
                let pk = before.paths@[k as int]@;
                assert(well_reached(esv, start, before, k as int));
                assert(p == pk.push(y));
                assert forall|i: int| 0 <= i < p.len() - 1 implies adjacent(esv, #[trigger] p[i], p[i + 1]) by {
                    if i < p.len() - 2 {
                        assert(p[i] == pk[i] && p[i + 1] == pk[i + 1]);
                    } else {
                        assert(p[i] == pk.last());
                    }
                }
                assert(fresh@.contains(y));
                assert(!old_r.contains(y));
                assert(!within(esv, start, level as nat).contains(y));
                assert(well_reached(esv, start, r, n));
                assert forall|q: int| 0 <= q < n implies well_reached(esv, start, r, q) by {
                    assert(well_reached(esv, start, before, q));
                    assert(r.paths@[q] == before.paths@[q]);
                    assert(r.depths@[q] == before.depths@[q]);
                    assert(r.visited_nodes@[q] == before.visited_nodes@[q]);
                }
                assert(r.visited_nodes@.subrange(0, hi as int) =~= old_r);
            }
            f = f + 1;
        }
        proof {
            let v = r.visited_nodes@;
            assert(v =~= old_r + fresh@);
            assert forall|x: u128| v.contains(x) <==> (old_r.contains(x) || fresh@.contains(x)) by {
                if v.contains(x) {
                    let w = choose|w: int| 0 <= w < v.len() && v[w] == x;
                    if w >= old_r.len() {
                        assert(fresh@[w - old_r.len()] == x);
                    } else {
                        assert(old_r[w] == x);
                    }
                }
                if old_r.contains(x) {
                    let w = choose|w: int| 0 <= w < old_r.len() && old_r[w] == x;
                    assert(v[w] == x);
                }
                if fresh@.contains(x) {
                    let w = choose|w: int| 0 <= w < fresh@.len() && fresh@[w] == x;
                    assert(v[old_r.len() + w] == x);
                }
            }
            assert forall|a: int, b: int| 0 <= a < b < v.len() implies v[a] != v[b] by {
                if b >= old_r.len() && a < old_r.len() {
                    assert(fresh@.contains(v[b]));
                    assert(old_r.contains(v[a]));
                }
            }
            assert forall|k: int, y: u128| 0 <= k < hi && #[trigger] adjacent(esv, v[k], y) implies v.contains(y) by {
                assert(v[k] == old_r[k]);
                if k < lo {
                    assert(old_r.contains(y));
                } else {
                    assert(layer@[k - lo] == v[k]);
                    assert(layer@.contains(v[k]));
                    assert(next_to(esv, layer@, y));
                }
            }
            assert forall|x: u128| v.contains(x) <==> within(esv, start, (level + 1) as nat).contains(x) by {
                let p = within(esv, start, level as nat);
                if fresh@.contains(x) {
                    let u = choose|u: u128| layer@.contains(u) && adjacent(esv, u, x);
                    let w = choose|w: int| 0 <= w < layer@.len() && layer@[w] == u;
                    assert(old_r[lo + w] == u);
                    assert(old_r.contains(u));
                }
                if exists|u: u128| p.contains(u) && adjacent(esv, u, x) {
                    let u = choose|u: u128| p.contains(u) && adjacent(esv, u, x);
                    assert(old_r.contains(u));
                    let w = choose|w: int| 0 <= w < old_r.len() && old_r[w] == u;
                    assert(v[w] == u);
                }
            }
        }
        if r.visited_nodes.len() == hi {
            proof {
                assert(fresh@.len() == 0);
                assert(r.visited_nodes@ =~= old_r);
                assert forall|x: u128|
                    within(esv, start, (level + 1) as nat).contains(x) == within(esv, start, level as nat).contains(x) by {
                    assert(r.visited_nodes@.contains(x) <==> within(esv, start, (level + 1) as nat).contains(x));
                    assert(old_r.contains(x) <==> within(esv, start, level as nat).contains(x));
                }
                assert(within(esv, start, (level + 1) as nat) =~= within(esv, start, level as nat));
                crate::graph::lemma_within_stable(esv, start, level as nat, max_depth as nat);
            }
            return r;
        }
        lo = hi;
        level = level + 1;
    }
    r
}

/// The facts a depth-first traversal keeps of position `k`: its path is a
/// walk from `start` to the node, one longer than its depth, and the depth
/// is within the bound.
pub open spec fn walked_to(es: Seq<Edge>, start: u128, r: TraversalResult, k: int, max_depth: usize) -> bool {
    let p = r.paths@[k]@;
    &&& is_walk(es, p)
    &&& p[0] == start
    &&& p.last() == r.visited_nodes@[k]
    &&& p.len() == r.depths@[k] + 1
    &&& r.depths@[k] <= max_depth
}

/// The well-formedness of a traversal record in progress.
pub open spec fn dfs_record_ok(es: Seq<Edge>, start: u128, r: TraversalResult, max_depth: usize) -> bool {
    &&& r.depths@.len() == r.visited_nodes@.len()
    &&& r.paths@.len() == r.visited_nodes@.len()
    &&& r.visited_nodes@.no_duplicates()
    &&& forall|k: int| 0 <= k < r.visited_nodes@.len() ==> walked_to(es, start, r, k, max_depth)
}

/// The node at position `k` was visited above the depth bound, so all its
/// neighbours were visited too.
pub open spec fn closed_at(es: Seq<Edge>, r: TraversalResult, k: int, max_depth: usize) -> bool {
    r.depths@[k] < max_depth ==> forall|y: u128| adjacent(es, r.visited_nodes@[k], y) ==> r.visited_nodes@.contains(y)
}

proof fn lemma_closed_grows(es: Seq<Edge>, a: TraversalResult, b: TraversalResult, k: int, max_depth: usize)
    requires
        0 <= k < a.visited_nodes@.len(),
        a.depths@.len() == a.visited_nodes@.len(),
        a.visited_nodes@.len() <= b.visited_nodes@.len(),
        b.visited_nodes@.subrange(0, a.visited_nodes@.len() as int) == a.visited_nodes@,
        b.depths@.len() >= a.depths@.len(),
        b.depths@.subrange(0, a.depths@.len() as int) == a.depths@,
        closed_at(es, a, k, max_depth),
    ensures
        closed_at(es, b, k, max_depth),
{
    assert(b.visited_nodes@.subrange(0, a.visited_nodes@.len() as int)[k] == b.visited_nodes@[k]);
    assert(b.depths@.subrange(0, a.depths@.len() as int)[k] == b.depths@[k]);
    assert(b.visited_nodes@[k] == a.visited_nodes@[k]);
    assert(b.depths@[k] == a.depths@[k]);
    assert forall|y: u128| b.depths@[k] < max_depth && adjacent(es, b.visited_nodes@[k], y) implies b.visited_nodes@.contains(y) by {
        assert(b.visited_nodes@.subrange(0, a.visited_nodes@.len() as int)[k] == b.visited_nodes@[k]);
        assert(b.depths@.subrange(0, a.depths@.len() as int)[k] == b.depths@[k]);
        assert(adjacent(es, a.visited_nodes@[k], y));
        assert(a.depths@[k] < max_depth);
        assert(a.visited_nodes@.contains(y));
        let w = choose|w: int| 0 <= w < a.visited_nodes@.len() && a.visited_nodes@[w] == y;
        assert(b.visited_nodes@.subrange(0, a.visited_nodes@.len() as int)[w] == b.visited_nodes@[w]);
        assert(b.visited_nodes@[w] == y);
    }
}

fn dfs_visit(
    g: &KnowledgeGraph,
    start: u128,
    current: u128,
    depth: usize,
    max_depth: usize,
    path: &mut Vec<u128>,
    r: &mut TraversalResult,
)
    requires
        depth <= max_depth,
        old(path)@.len() == depth,
        depth == 0 ==> current == start,
        depth > 0 ==> is_walk(g.edge_list(), old(path)@) && old(path)@[0] == start && adjacent(
            g.edge_list(),
            old(path)@.last(),
            current,
        ),
        !old(r).visited_nodes@.contains(current),
        dfs_record_ok(g.edge_list(), start, *old(r), max_depth),
    ensures
        final(path)@ == old(path)@,
        dfs_record_ok(g.edge_list(), start, *final(r), max_depth),
        final(r).visited_nodes@.len() > old(r).visited_nodes@.len(),
        final(r).visited_nodes@.subrange(0, old(r).visited_nodes@.len() as int) == old(r).visited_nodes@,
        final(r).visited_nodes@[old(r).visited_nodes@.len() as int] == current,
        final(r).depths@.subrange(0, old(r).depths@.len() as int) == old(r).depths@,
        forall|k: int|
            old(r).visited_nodes@.len() <= k < final(r).visited_nodes@.len() ==> #[trigger] closed_at(
                g.edge_list(),
                *final(r),
                k,
                max_depth,
            ),
    decreases max_depth - depth,
{
    let ghost es = g.edge_list();
    let ghost v0 = r.visited_nodes@;
    path.push(current);
    let ghost p = path@;
    proof {
        assert forall|i: int| 0 <= i < p.len() - 1 implies adjacent(es, #[trigger] p[i], p[i + 1]) by {
            if i < p.len() - 2 {
                assert(p[i] == old(path)@[i] && p[i + 1] == old(path)@[i + 1]);
            } else {
                assert(p[i] == old(path)@.last());
            }
        }
        if depth == 0 {
            assert(p[0] == start);
        } else {
            assert(p[0] == old(path)@[0]);
        }
    }
    let ghost before = *r;
    r.visited_nodes.push(current);
    r.depths.push(depth);
    r.paths.push(copy_ids(path));
    proof {
        let n = r.visited_nodes@.len() - 1;
        assert(walked_to(es, start, *r, n, max_depth));
        assert forall|k: int| 0 <= k < r.visited_nodes@.len() implies walked_to(es, start, *r, k, max_depth) by {
            if k < n {
                assert(walked_to(es, start, before, k, max_depth));
                assert(r.paths@[k] == before.paths@[k]);
                assert(r.depths@[k] == before.depths@[k]);
                assert(r.visited_nodes@[k] == before.visited_nodes@[k]);
            }
        }
        assert forall|a: int, b: int| 0 <= a < b < r.visited_nodes@.len() implies r.visited_nodes@[a] != r.visited_nodes@[b] by {
            if b == n {
                assert(v0.contains(r.visited_nodes@[a]));
            }
        }
    }
    if depth < max_depth {
        let mut here: Vec<u128> = Vec::new();
        here.push(current);
        let near = g.neighbours(&here);
        let mut i: usize = 0;
        while i < near.len()
            invariant
                es == g.edge_list(),
                depth < max_depth,
                path@ == p,
                p == old(path)@.push(current),
                old(path)@.len() == depth,
                is_walk(es, p),
                p[0] == start,
                here@ == seq![current],
                forall|x: u128| near@.contains(x) <==> next_to(es, here@, x),
                i <= near@.len(),
                dfs_record_ok(es, start, *r, max_depth),
                r.visited_nodes@.len() > v0.len(),
                r.visited_nodes@.subrange(0, v0.len() as int) == v0,
                r.visited_nodes@[v0.len() as int] == current,
                r.depths@.subrange(0, v0.len() as int) == old(r).depths@,
                r.depths@[v0.len() as int] == depth,
                old(r).depths@.len() == v0.len(),
                forall|k: int| v0.len() < k < r.visited_nodes@.len() ==> #[trigger] closed_at(es, *r, k, max_depth),
                forall|q: int| 0 <= q < i ==> r.visited_nodes@.contains(#[trigger] near@[q]),
            decreases near@.len() - i,
        {
            let y = near[i];
            if !holds(&r.visited_nodes, y) {
                proof {
                    assert(near@.contains(y));
                    let u = choose|u: u128| here@.contains(u) && adjacent(es, u, y);
                    assert(u == current);
                    assert(p.last() == current);
                }
                let ghost vb = r.visited_nodes@;
                let ghost rb = *r;
                dfs_visit(g, start, y, depth + 1, max_depth, path, r);
                proof {
                    assert(r.visited_nodes@.subrange(0, v0.len() as int) =~= vb.subrange(0, v0.len() as int));
                    assert(r.visited_nodes@[v0.len() as int] == vb[v0.len() as int]);
                    assert(r.depths@.subrange(0, v0.len() as int) =~= rb.depths@.subrange(0, v0.len() as int));
                    assert(r.depths@[v0.len() as int] == rb.depths@[v0.len() as int]);
                    assert forall|k: int| v0.len() < k < r.visited_nodes@.len() implies #[trigger] closed_at(es, *r, k, max_depth) by {
                        if k < vb.len() {
                            lemma_closed_grows(es, rb, *r, k, max_depth);
                        }
                    }
                    assert forall|q: int| 0 <= q < i implies r.visited_nodes@.contains(#[trigger] near@[q]) by {
                        let w = choose|w: int| 0 <= w < vb.len() && vb[w] == near@[q];
                        assert(r.visited_nodes@[w] == near@[q]);
                    }
                    assert(r.visited_nodes@[vb.len() as int] == y);
                }
            }
            proof {
                assert(r.visited_nodes@.contains(near@[i as int]));
            }
            i = i + 1;
        }
        proof {
            assert forall|y: u128| adjacent(es, r.visited_nodes@[v0.len() as int], y) implies r.visited_nodes@.contains(y) by {
                assert(here@[0] == current);
                assert(here@.contains(current));
                assert(next_to(es, here@, y));
                assert(near@.contains(y));
                let q = choose|q: int| 0 <= q < near@.len() && near@[q] == y;
                assert(r.visited_nodes@.contains(near@[q]));
            }
        }
    }
    let _ = path.pop();
    proof {
        assert(path@ =~= old(path)@);
        assert(r.visited_nodes@.subrange(0, v0.len() as int) == v0);
        assert(closed_at(es, *r, v0.len() as int, max_depth));
    }
}

/// Visits, depth first, the nodes reachable from `start` along paths of at
/// most `max_depth` steps that a depth-first walk follows, recording each
/// node's depth and the path it was reached by: every neighbour of a node
/// visited above the bound is visited too. Nothing is visited where `start`
/// is absent.
pub fn dfs_traverse(g: &KnowledgeGraph, start: u128, max_depth: usize) -> (r: TraversalResult)
    ensures
        !g.node_ids().contains(start) ==> r.visited_nodes@.len() == 0,
        g.node_ids().contains(start) ==> r.visited_nodes@.len() > 0 && r.visited_nodes@[0] == start,
        dfs_record_ok(g.edge_list(), start, r, max_depth),
        forall|k: int| 0 <= k < r.visited_nodes@.len() ==> #[trigger] closed_at(g.edge_list(), r, k, max_depth),
{
    let mut r = TraversalResult { visited_nodes: Vec::new(), depths: Vec::new(), paths: Vec::new() };
    if !g.contains_node(start) {
        return r;
    }
    let mut path: Vec<u128> = Vec::new();
    dfs_visit(g, start, start, 0, max_depth, &mut path, &mut r);
    r
}

/// A shortest undirected path from `from` to `to`, if `to` can be reached.
pub fn find_shortest_path(g: &KnowledgeGraph, from: u128, to: u128) -> (r: Option<Vec<u128>>)
    requires
        g.wf(),
    ensures
        r.is_some() <==> (g.node_ids().contains(from) && within(g.edge_list(), from, usize::MAX as nat).contains(to)),
        r.is_some() ==> ({
            let p = r.unwrap()@;
            &&& is_walk(g.edge_list(), p)
            &&& p[0] == from
            &&& p.last() == to
            &&& (p.len() > 1 ==> !within(g.edge_list(), from, (p.len() - 2) as nat).contains(to))
        }),
{
    let t = bfs_traverse(g, from, usize::MAX);
    let mut k: usize = 0;
    while k < t.visited_nodes.len()
        invariant
            k <= t.visited_nodes@.len(),
            t.paths@.len() == t.visited_nodes@.len(),
            t.depths@.len() == t.visited_nodes@.len(),
            forall|x: u128|
                t.visited_nodes@.contains(x) <==> (g.node_ids().contains(from) && within(
                    g.edge_list(),
                    from,
                    usize::MAX as nat,
                ).contains(x)),
            forall|q: int| 0 <= q < t.visited_nodes@.len() ==> well_reached(g.edge_list(), from, t, q),
            forall|q: int| 0 <= q < k ==> t.visited_nodes@[q] != to,
        decreases t.visited_nodes@.len() - k,
    {
        if t.visited_nodes[k] == to {
            proof {
                assert(t.visited_nodes@.contains(to));
                assert(well_reached(g.edge_list(), from, t, k as int));
            }
            return Some(copy_ids(&t.paths[k]));
        }
        k = k + 1;
    }
    proof {
        if t.visited_nodes@.contains(to) {
            let w = choose|w: int| 0 <= w < t.visited_nodes@.len() && t.visited_nodes@[w] == to;
        }
    }
    None
}

/// A direct neighbour of a node and the relation of the edge between them.
#[derive(Debug, Clone)]
pub struct NeighborInfo {
    pub node_id: u128,
    pub distance: usize,
    pub relation: Option<String>,
}

/// `n` describes the far end of `e`, reached in one step over its relation.
pub open spec fn describes(n: NeighborInfo, far: u128, e: Edge) -> bool {
    n.node_id == far && n.distance == 1 && n.relation.is_some() && n.relation.unwrap()@ == e.relation@
}

/// The neighbours of `node_id`: first the targets of its outgoing edges,
/// then the sources of its incoming edges, each edge in order of insertion.
pub fn get_neighbors_with_relations(g: &KnowledgeGraph, node_id: u128) -> (r: Vec<NeighborInfo>)
    ensures
        ({
            let outs = g.edge_list().filter(|e: Edge| e.source == node_id);
            let ins = g.edge_list().filter(|e: Edge| e.target == node_id);
            &&& r@.len() == outs.len() + ins.len()
            &&& forall|k: int| 0 <= k < outs.len() ==> describes(#[trigger] r@[k], outs[k].target, outs[k])
            &&& forall|k: int| 0 <= k < ins.len() ==> describes(#[trigger] r@[outs.len() + k], ins[k].source, ins[k])
        }),
{
    let es = g.edges();
    let ghost outs = es@.filter(|e: Edge| e.source == node_id);
    let ghost ins = es@.filter(|e: Edge| e.target == node_id);
    let mut r: Vec<NeighborInfo> = Vec::new();
    let mut j: usize = 0;
    proof {
        reveal(Seq::filter);
        assert(es@.subrange(0, 0) =~= Seq::<Edge>::empty());
    }
    while j < es.len()
        invariant
            j <= es@.len(),
            r@.len() == es@.subrange(0, j as int).filter(|e: Edge| e.source == node_id).len(),
            forall|k: int| 0 <= k < r@.len() ==> describes(
                #[trigger] r@[k],
                es@.subrange(0, j as int).filter(|e: Edge| e.source == node_id)[k].target,
                es@.subrange(0, j as int).filter(|e: Edge| e.source == node_id)[k],
            ),
        decreases es@.len() - j,
    {
        proof {
            assert(es@.subrange(0, j + 1) =~= es@.subrange(0, j as int).push(es@[j as int]));
            es@.subrange(0, j as int).lemma_filter_push(es@[j as int], |e: Edge| e.source == node_id);
        }
        if es[j].source == node_id {
            r.push(NeighborInfo { node_id: es[j].target, distance: 1, relation: Some(es[j].relation.clone()) });
        }
        j = j + 1;
    }
    assert(es@.subrange(0, es@.len() as int) =~= es@);
    let n_out = r.len();
    let mut j: usize = 0;
    while j < es.len()
        invariant
            j <= es@.len(),
            n_out == outs.len(),
            outs == es@.filter(|e: Edge| e.source == node_id),
            ins == es@.filter(|e: Edge| e.target == node_id),
            r@.len() == n_out + es@.subrange(0, j as int).filter(|e: Edge| e.target == node_id).len(),
            forall|k: int| 0 <= k < n_out ==> describes(#[trigger] r@[k], outs[k].target, outs[k]),
            forall|k: int| 0 <= k < r@.len() - n_out ==> describes(
                #[trigger] r@[n_out + k],
                es@.subrange(0, j as int).filter(|e: Edge| e.target == node_id)[k].source,
                es@.subrange(0, j as int).filter(|e: Edge| e.target == node_id)[k],
            ),
        decreases es@.len() - j,
    {
        proof {
            assert(es@.subrange(0, j + 1) =~= es@.subrange(0, j as int).push(es@[j as int]));
            es@.subrange(0, j as int).lemma_filter_push(es@[j as int], |e: Edge| e.target == node_id);
        }
        let ghost before = r@;
        if es[j].target == node_id {
            r.push(NeighborInfo { node_id: es[j].source, distance: 1, relation: Some(es[j].relation.clone()) });
            proof {
                assert forall|k: int| 0 <= k < n_out implies describes(#[trigger] r@[k], outs[k].target, outs[k]) by {
                    assert(r@[k] == before[k]);
                }
            }
        }
        j = j + 1;
    }
    assert(es@.subrange(0, es@.len() as int) =~= es@);
    r
}

/// Some list of `cs` holds `x`.
pub open spec fn in_some(cs: Seq<Vec<u128>>, x: u128) -> bool {
    exists|k: int| 0 <= k < cs.len() && (#[trigger] cs[k])@.contains(x)
}

/// The undirected connected components: each component is everything
/// reachable from its first node, which lies in no earlier component, and
/// every node lies in some component.
pub fn find_connected_components(g: &KnowledgeGraph) -> (r: Vec<Vec<u128>>)
    requires
        g.wf(),
    ensures
        forall|k: int| 0 <= k < r@.len() ==> (#[trigger] r@[k])@.len() > 0 && g.node_ids().contains(r@[k]@[0]),
        forall|k: int, x: u128|
            0 <= k < r@.len() ==> (#[trigger] r@[k]@.contains(x) <==> within(
                g.edge_list(),
                r@[k]@[0],
                usize::MAX as nat,
            ).contains(x)),
        forall|k: int, j: int| 0 <= j < k < r@.len() ==> !(#[trigger] r@[j])@.contains((#[trigger] r@[k])@[0]),
        forall|x: u128| g.node_ids().contains(x) ==> in_some(r@, x),
{
    let nodes = g.get_all_node_ids();
    let mut comps: Vec<Vec<u128>> = Vec::new();
    let mut i: usize = 0;
    while i < nodes.len()
        invariant
            g.wf(),
            nodes@ == g.node_ids(),
            i <= nodes@.len(),
            forall|k: int| 0 <= k < comps@.len() ==> (#[trigger] comps@[k])@.len() > 0 && g.node_ids().contains(comps@[k]@[0]),
            forall|k: int, x: u128|
                0 <= k < comps@.len() ==> (#[trigger] comps@[k]@.contains(x) <==> within(
                    g.edge_list(),
                    comps@[k]@[0],
                    usize::MAX as nat,
                ).contains(x)),
            forall|k: int, j: int| 0 <= j < k < comps@.len() ==> !(#[trigger] comps@[j])@.contains((#[trigger] comps@[k])@[0]),
            forall|t: int| 0 <= t < i ==> in_some(comps@, #[trigger] nodes@[t]),
        decreases nodes@.len() - i,
    {
        let n = nodes[i];
        let mut covered = false;
        let mut k: usize = 0;
        while k < comps.len()
            invariant
                k <= comps@.len(),
                covered == exists|q: int| 0 <= q < k && (#[trigger] comps@[q])@.contains(n),
            decreases comps@.len() - k,
        {
            if crate::graph::holds(&comps[k], n) {
                covered = true;
            }
            proof {
                if covered && !comps@[k as int]@.contains(n) {
                    let q = choose|q: int| 0 <= q < k && (#[trigger] comps@[q])@.contains(n);
                    assert(0 <= q < k + 1);
                }
                if comps@[k as int]@.contains(n) {
                    assert(0 <= k < k + 1 && comps@[k as int]@.contains(n));
                }
            }
            k = k + 1;
        }
        if !covered {
            assert(nodes@[i as int] == n);
            assert(g.node_ids().contains(n));
            let t = bfs_traverse(g, n, usize::MAX);
            let ghost before = comps@;
            comps.push(t.visited_nodes);
            proof {
                let c = comps@[before.len() as int]@;
                assert(c.len() > 0 && c[0] == n);
                assert forall|k: int, j: int| 0 <= j < k < comps@.len() implies !(#[trigger] comps@[j])@.contains((#[trigger] comps@[k])@[0]) by {
                    if k < before.len() {
                        assert(comps@[j] == before[j] && comps@[k] == before[k]);
                    } else {
                        assert(comps@[j] == before[j]);
                    }
                }
                assert(c.contains(n)) by {
                    assert(c[0] == n);
                }
                assert forall|t2: int| 0 <= t2 < i + 1 implies in_some(comps@, #[trigger] nodes@[t2]) by {
                    if t2 < i {
                        assert(in_some(before, nodes@[t2]));
                        let q = choose|q: int| 0 <= q < before.len() && (#[trigger] before[q])@.contains(nodes@[t2]);
                        assert(comps@[q] == before[q]);
                    } else {
                        assert(comps@[before.len() as int]@.contains(nodes@[t2]));
                        assert(in_some(comps@, nodes@[t2]));
                    }
                }
            }
        } else {
            proof {
                assert forall|t2: int| 0 <= t2 < i + 1 implies in_some(comps@, #[trigger] nodes@[t2]) by {
                    if t2 == i {
                        let q = choose|q: int| 0 <= q < comps@.len() && (#[trigger] comps@[q])@.contains(n);
                        assert(in_some(comps@, nodes@[t2]));
                    }
                }
            }
        }
        i = i + 1;
    }
    proof {
        assert forall|x: u128| g.node_ids().contains(x) implies in_some(comps@, x) by {
            let t = choose|t: int| 0 <= t < nodes@.len() && nodes@[t] == x;
            assert(in_some(comps@, nodes@[t]));
        }
    }
    comps
}

/// `x` lies within `hops` steps of some present seed.
pub open spec fn near_some_seed(g: KnowledgeGraph, seeds: Seq<u128>, hops: nat, x: u128) -> bool {
    exists|s: u128| seeds.contains(s) && g.node_ids().contains(s) && within(g.edge_list(), s, hops).contains(x)
}

/// Some edge of `es` runs from `a` to `b`.
pub open spec fn has_pair(es: Seq<Edge>, a: u128, b: u128) -> bool {
    exists|i: int| 0 <= i < es.len() && (#[trigger] es[i]).source == a && es[i].target == b
}

/// Whether some edge of `es` runs from `a` to `b`.
fn pair_present(es: &Vec<Edge>, a: u128, b: u128) -> (r: bool)
    ensures
        r == has_pair(es@, a, b),
{
    let mut j: usize = 0;
    while j < es.len()
        invariant
            j <= es@.len(),
            forall|i: int| 0 <= i < j ==> !((#[trigger] es@[i]).source == a && es@[i].target == b),
        decreases es@.len() - j,
    {
        if es[j].source == a && es[j].target == b {
            return true;
        }
        j = j + 1;
    }
    false
}

/// The part of the graph around `seeds`: the nodes within `hop_depth`
/// steps of the seeds, taken seed after seed until `config.max_nodes` are
/// collected, and one edge for each ordered pair of collected nodes that an
/// edge joins.
pub fn extract_subgraph(g: &KnowledgeGraph, seeds: &Vec<u128>, hop_depth: usize, config: &SubgraphConfig) -> (r: (Vec<u128>, Vec<Edge>))
    requires
        g.wf(),
    ensures
        r.0@.no_duplicates(),
        r.0@.len() <= config.max_nodes,
        forall|x: u128| r.0@.contains(x) ==> near_some_seed(*g, seeds@, hop_depth as nat, x),
        r.0@.len() < config.max_nodes ==> forall|x: u128|
            near_some_seed(*g, seeds@, hop_depth as nat, x) ==> r.0@.contains(x),
        forall|i: int|
            0 <= i < r.1@.len() ==> g.edge_list().contains(#[trigger] r.1@[i]) && r.0@.contains(r.1@[i].source)
                && r.0@.contains(r.1@[i].target),
        forall|i: int, j: int|
            0 <= i < j < r.1@.len() ==> !((#[trigger] r.1@[i]).source == (#[trigger] r.1@[j]).source
                && r.1@[i].target == r.1@[j].target),
        forall|i: int|
            0 <= i < g.edge_list().len() && r.0@.contains((#[trigger] g.edge_list()[i]).source) && r.0@.contains(
                g.edge_list()[i].target,
            ) ==> has_pair(r.1@, g.edge_list()[i].source, g.edge_list()[i].target),
{
    let max = config.max_nodes;
    let mut nodes: Vec<u128> = Vec::new();
    let mut s: usize = 0;
    while s < seeds.len() && nodes.len() < max
        invariant
            g.wf(),
            s <= seeds@.len(),
            nodes@.no_duplicates(),
            nodes@.len() <= max,
            forall|x: u128| nodes@.contains(x) ==> near_some_seed(*g, seeds@, hop_depth as nat, x),
            nodes@.len() < max ==> forall|x: u128|
                (exists|q: int| 0 <= q < s && g.node_ids().contains(seeds@[q]) && within(g.edge_list(), seeds@[q], hop_depth as nat).contains(x))
                    ==> nodes@.contains(x),
        decreases seeds@.len() - s,
    {
        let seed = seeds[s];
        let t = bfs_traverse(g, seed, hop_depth);
        let ghost n0 = nodes@;
        assert(n0.len() < max);
        let mut k: usize = 0;
        while k < t.visited_nodes.len() && nodes.len() < max
            invariant
                k <= t.visited_nodes@.len(),
                nodes@.no_duplicates(),
                nodes@.len() <= max,
                seed == seeds@[s as int],
                s < seeds@.len(),
                forall|x: u128|
                    t.visited_nodes@.contains(x) <==> (g.node_ids().contains(seed) && within(g.edge_list(), seed, hop_depth as nat).contains(x)),
                forall|x: u128| nodes@.contains(x) ==> near_some_seed(*g, seeds@, hop_depth as nat, x),
                forall|x: u128| n0.contains(x) ==> nodes@.contains(x),
                n0.len() <= nodes@.len(),
                forall|q: int| 0 <= q < k ==> nodes@.contains(#[trigger] t.visited_nodes@[q]),
            decreases t.visited_nodes@.len() - k,
        {
            let v = t.visited_nodes[k];
            proof {
                assert(t.visited_nodes@.contains(v));
                assert(seeds@[s as int] == seed);
                assert(seeds@.contains(seed));
                assert(g.node_ids().contains(seed) && within(g.edge_list(), seed, hop_depth as nat).contains(v));
                assert(near_some_seed(*g, seeds@, hop_depth as nat, v));
            }
            let ghost before = nodes@;
            if !holds(&nodes, v) {
                nodes.push(v);
                proof {
                    assert forall|a: int, b: int| 0 <= a < b < nodes@.len() implies nodes@[a] != nodes@[b] by {
                        if b == before.len() {
                            assert(before.contains(nodes@[a]));
                        }
                    }
                }
            }
            proof {
                vstd::seq_lib::lemma_seq_contains_after_push(before, v, v);
                assert forall|x: u128| #[trigger] before.contains(x) implies nodes@.contains(x) by {
                    vstd::seq_lib::lemma_seq_contains_after_push(before, v, x);
                }
                assert forall|x: u128| #[trigger] nodes@.contains(x) implies near_some_seed(*g, seeds@, hop_depth as nat, x) by {
                    vstd::seq_lib::lemma_seq_contains_after_push(before, v, x);
                }
                assert(nodes@.contains(v));
            }
            k = k + 1;
        }
        proof {
            if nodes@.len() < max {
                assert forall|x: u128|
                    (exists|q: int| 0 <= q < s + 1 && g.node_ids().contains(seeds@[q]) && within(g.edge_list(), seeds@[q], hop_depth as nat).contains(x))
                        implies nodes@.contains(x) by {
                    let q = choose|q: int| 0 <= q < s + 1 && g.node_ids().contains(seeds@[q]) && within(g.edge_list(), seeds@[q], hop_depth as nat).contains(x);
                    if q < s {
                        assert(exists|q2: int| 0 <= q2 < s && g.node_ids().contains(seeds@[q2]) && within(g.edge_list(), seeds@[q2], hop_depth as nat).contains(x));
                        assert(n0.contains(x));
                    } else {
                        assert(t.visited_nodes@.contains(x));
                        let w = choose|w: int| 0 <= w < t.visited_nodes@.len() && t.visited_nodes@[w] == x;
                        assert(nodes@.contains(t.visited_nodes@[w]));
                    }
                }
            }
        }
        s = s + 1;
    }
    proof {
        if nodes@.len() < max {
            assert forall|x: u128| near_some_seed(*g, seeds@, hop_depth as nat, x) implies nodes@.contains(x) by {
                let sd = choose|sd: u128| seeds@.contains(sd) && g.node_ids().contains(sd) && within(g.edge_list(), sd, hop_depth as nat).contains(x);
                let q = choose|q: int| 0 <= q < seeds@.len() && seeds@[q] == sd;
                assert(0 <= q < s && g.node_ids().contains(seeds@[q]) && within(g.edge_list(), seeds@[q], hop_depth as nat).contains(x));
            }
        }
    }
    let es = g.edges();
    let mut out: Vec<Edge> = Vec::new();
    let mut j: usize = 0;
    while j < es.len()
        invariant
            es@ == g.edge_list(),
            j <= es@.len(),
            forall|i: int|
                0 <= i < out@.len() ==> g.edge_list().contains(#[trigger] out@[i]) && nodes@.contains(out@[i].source)
                    && nodes@.contains(out@[i].target),
            forall|a: int, b: int|
                0 <= a < b < out@.len() ==> !((#[trigger] out@[a]).source == (#[trigger] out@[b]).source
                    && out@[a].target == out@[b].target),
            forall|i: int|
                0 <= i < j && nodes@.contains((#[trigger] es@[i]).source) && nodes@.contains(es@[i].target)
                    ==> has_pair(out@, es@[i].source, es@[i].target),
        decreases es@.len() - j,
    {
        let e = &es[j];
        let ghost before = out@;
        if holds(&nodes, e.source) && holds(&nodes, e.target) && !pair_present(&out, e.source, e.target) {
            out.push(e.clone_edge());
            proof {
                assert(g.edge_list()[j as int] == out@[out@.len() - 1]);
                assert forall|a: int, b: int|
                    0 <= a < b < out@.len() implies !((#[trigger] out@[a]).source == (#[trigger] out@[b]).source
                        && out@[a].target == out@[b].target) by {
                    if b == before.len() {
                        assert(out@[a] == before[a]);
                    } else {
                        assert(out@[a] == before[a] && out@[b] == before[b]);
                    }
                }
                assert forall|i: int| 0 <= i < out@.len() implies g.edge_list().contains(#[trigger] out@[i]) && nodes@.contains(out@[i].source)
                    && nodes@.contains(out@[i].target) by {
                    if i < before.len() {
                        assert(out@[i] == before[i]);
                    }
                }
            }
        }
        proof {
            assert forall|i: int|
                0 <= i < j + 1 && nodes@.contains((#[trigger] es@[i]).source) && nodes@.contains(es@[i].target)
                    implies has_pair(out@, es@[i].source, es@[i].target) by {
                if i < j {
                    let w = choose|w: int| 0 <= w < before.len() && (#[trigger] before[w]).source == es@[i].source && before[w].target == es@[i].target;
                    assert(out@[w] == before[w]);
                } else if out@.len() > before.len() {
                    assert(out@[before.len() as int] == es@[i]);
                }
            }
        }
        j = j + 1;
    }
    (nodes, out)
}

} // verus!
