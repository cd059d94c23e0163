//! The parts of retrieval that decide without scores: importance with the
//! custom-mark bonus, and the formatted context.

use vstd::prelude::*;
use crate::text::{chars_of, text_of};
use crate::graph::{next_to, KnowledgeGraph};
use crate::node::MemoryNode;
use crate::subgraph::ids_of;
use crate::types::NodeType;

verus! {

/// A memory as it is shown to the caller.
#[derive(Debug, Clone)]
pub struct MemoryEntry {
    pub content: String,
    pub memory_type: NodeType,
    pub event_time: Option<String>,
    pub time_ago: Option<String>,
}

/// Importance in hundredths, raised by thirty and capped at one hundred for
/// a custom-marked node.
pub fn boosted_importance(importance: u32, marked: bool) -> (r: u32)
    ensures
        r as int == if marked {
            if importance + 30 > 100 {
                100
            } else {
                importance + 30
            }
        } else {
            importance as int
        },
{
    if marked {
        if importance > 70 {
            100
        } else {
            importance + 30
        }
    } else {
        importance
    }
}

/// The bracketed label of a kind of node.
pub open spec fn kind_label(t: NodeType) -> Seq<char> {
    match t {
        NodeType::Entity => "实体"@,
        NodeType::Event => "事件"@,
        NodeType::Concept => "概念"@,
    }
}

/// The line of one memory: "- [label] content", then " (time ago)" where
/// there is one.
pub open spec fn entry_line(e: MemoryEntry) -> Seq<char> {
    "- ["@ + kind_label(e.memory_type) + "] "@ + e.content@ + match e.time_ago {
        Some(t) => " ("@ + t@ + ")"@,
        None => Seq::empty(),
    }
}

/// The lines of `es` joined by newlines.
pub open spec fn joined_lines(es: Seq<MemoryEntry>) -> Seq<char>
    decreases es.len(),
{
    if es.len() == 0 {
        Seq::empty()
    } else if es.len() == 1 {
        entry_line(es[0])
    } else {
        joined_lines(es.drop_last()) + "\n"@ + entry_line(es.last())
    }
}

/// The context handed back to the caller: empty for no memories, else a
/// heading and one line per memory.
pub open spec fn context_of(es: Seq<MemoryEntry>) -> Seq<char> {
    if es.len() == 0 {
        Seq::empty()
    } else {
        "## 相关记忆\n"@ + joined_lines(es)
    }
}

fn push_str(v: &mut Vec<char>, s: &str)
    ensures
        final(v)@ == old(v)@ + s@,
{
    let c = chars_of(s);
    let mut i: usize = 0;
    while i < c.len()
        invariant
            c@ == s@,
            i <= c@.len(),
            v@ == old(v)@ + c@.subrange(0, i as int),
        decreases c@.len() - i,
    {
        v.push(c[i]);
        i = i + 1;
        assert(v@ =~= old(v)@ + c@.subrange(0, i as int));
    }
    assert(c@.subrange(0, c@.len() as int) =~= c@);
}

fn push_line(v: &mut Vec<char>, e: &MemoryEntry)
    ensures
        final(v)@ == old(v)@ + entry_line(*e),
{
    push_str(v, "- [");
    match e.memory_type {
        NodeType::Entity => push_str(v, "实体"),
        NodeType::Event => push_str(v, "事件"),
        NodeType::Concept => push_str(v, "概念"),
    }
    push_str(v, "] ");
    push_str(v, e.content.as_str());
    match &e.time_ago {
        Some(t) => {
            push_str(v, " (");
            push_str(v, t.as_str());
            push_str(v, ")");
        },
        None => {},
    }
    assert(final(v)@ =~= old(v)@ + entry_line(*e));
}

/// Formats retrieved memories as context text.
pub fn format_memories(entries: &Vec<MemoryEntry>) -> (r: String)
    ensures
        r@ == context_of(entries@),
{
    if entries.len() == 0 {
        return String::new();
    }
    let mut v: Vec<char> = Vec::new();
    push_str(&mut v, "## 相关记忆\n");
    let ghost head = v@;
    push_line(&mut v, &entries[0]);
    let mut i: usize = 1;
    assert(entries@.subrange(0, 1).drop_last() =~= Seq::<MemoryEntry>::empty());
    assert(joined_lines(entries@.subrange(0, 1)) == entry_line(entries@[0]));
    while i < entries.len()
        invariant
            1 <= i <= entries@.len(),
            v@ == head + joined_lines(entries@.subrange(0, i as int)),
        decreases entries@.len() - i,
    {
        push_str(&mut v, "\n");
        push_line(&mut v, &entries[i]);
        proof {
            let s = entries@.subrange(0, i + 1);
            assert(s.drop_last() =~= entries@.subrange(0, i as int));
            assert(s.last() == entries@[i as int]);
        }
        i = i + 1;
        assert(v@ =~= head + joined_lines(entries@.subrange(0, i as int)));
    }
    assert(entries@.subrange(0, entries@.len() as int) =~= entries@);
    text_of(&v)
}

/// What a query hands back: the context text, how many memories it holds
/// and, on request, the memories themselves.
#[derive(Debug, Clone)]
pub struct QueryResult {
    pub formatted_context: String,
    pub count: usize,
    pub raw: Option<Vec<MemoryEntry>>,
}

/// The result of a query whose ranked memories are `entries`: no memories
/// give an empty context and a count of zero.
pub fn assemble_result(entries: Vec<MemoryEntry>, include_raw: Option<bool>) -> (r: QueryResult)
    ensures
        r.formatted_context@ == context_of(entries@),
        r.count == entries@.len(),
        entries@.len() == 0 ==> r.formatted_context@.len() == 0 && r.count == 0,
        match include_raw {
            Some(true) => r.raw.is_some() && r.raw.unwrap()@ == entries@,
            _ => r.raw.is_none(),
        },
{
    let formatted_context = format_memories(&entries);
    let count = entries.len();
    let raw = match include_raw {
        Some(true) => Some(entries),
        _ => None,
    };
    QueryResult { formatted_context, count, raw }
}

/// The number of seeds a query asks the vector search for: its own `top_k`
/// where it gives one, else the configured default.
pub fn seed_count(requested: Option<usize>, default: usize) -> (r: usize)
    ensures
        r == match requested {
            Some(k) => k,
            None => default,
        },
{
    match requested {
        Some(k) => k,
        None => default,
    }
}

/// The first node of each identifier in `s`, in order.
pub open spec fn first_of_each_id(s: Seq<MemoryNode>) -> Seq<MemoryNode>
    decreases s.len(),
{
    if s.len() == 0 {
        s
    } else {
        let d = first_of_each_id(s.drop_last());
        if ids_of(d).contains(s.last().id) {
            d
        } else {
            d.push(s.last())
        }
    }
}

/// The candidates of `first` and then of `second`, the first node of each
/// identifier kept.
pub fn merge_and_dedupe(first: Vec<MemoryNode>, second: Vec<MemoryNode>) -> (r: Vec<MemoryNode>)
    ensures
        r@ == first_of_each_id(first@ + second@),
{
    let mut all = first;
    let mut more = second;
    all.append(&mut more);
    let ghost whole = all@;
    let mut rest = all;
    let mut out: Vec<MemoryNode> = Vec::new();
    let mut i: usize = 0;
    let total = rest.len();
    assert(whole.subrange(0, 0) =~= Seq::<MemoryNode>::empty());
    while rest.len() > 0
        invariant
            whole.len() == total,
            i + rest@.len() == total,
            rest@ == whole.subrange(i as int, total as int),
            out@ == first_of_each_id(whole.subrange(0, i as int)),
        decreases rest@.len(),
    {
        let n = rest.remove(0);
        proof {
            assert(n == whole[i as int]);
            assert(whole.subrange(0, i + 1).drop_last() =~= whole.subrange(0, i as int));
        }
        let mut seen = false;
        let mut k: usize = 0;
        while k < out.len()
            invariant
                k <= out@.len(),
                seen == ids_of(out@.subrange(0, k as int)).contains(n.id),
            decreases out@.len() - k,
        {
            proof {
                assert(ids_of(out@.subrange(0, k + 1)) =~= ids_of(out@.subrange(0, k as int)).push(out@[k as int].id));
                vstd::seq_lib::lemma_seq_contains_after_push(ids_of(out@.subrange(0, k as int)), out@[k as int].id, n.id);
            }
            if out[k].id == n.id {
                seen = true;
            }
            k = k + 1;
        }
        assert(out@.subrange(0, out@.len() as int) =~= out@);
        if !seen {
            out.push(n);
        }
        i = i + 1;
        assert(rest@ =~= whole.subrange(i as int, total as int));
    }
    assert(whole.subrange(0, total as int) =~= whole);
    out
}

/// One round of the layer-by-layer expansion of a query's seeds. After
/// `hop` rounds, with `visited` the identifiers taken so far and `layer`
/// those added last, returns the identifiers to fetch next: the nodes next
/// to the last layer that are not taken yet, as many as fit under
/// `max_nodes`. Returns `None` when the expansion is done: the depth is
/// reached, the cap is reached, or no new node is next to the last layer.
pub fn expansion_step(
    graph: &KnowledgeGraph,
    hop: usize,
    hop_depth: usize,
    visited: &Vec<u128>,
    layer: &Vec<u128>,
    max_nodes: usize,
) -> (r: Option<Vec<u128>>)
    ensures
        hop >= hop_depth || visited@.len() >= max_nodes ==> r.is_none(),
        hop < hop_depth && visited@.len() < max_nodes ==> match r {
            None => forall|x: u128| !(next_to(graph.edge_list(), layer@, x) && !visited@.contains(x)),
            Some(n) => {
                &&& n@.len() > 0
                &&& n@.len() <= max_nodes - visited@.len()
                &&& n@.no_duplicates()
                &&& forall|x: u128| n@.contains(x) ==> next_to(graph.edge_list(), layer@, x) && !visited@.contains(x)
                &&& n@.len() < max_nodes - visited@.len() ==> forall|x: u128|
                    next_to(graph.edge_list(), layer@, x) && !visited@.contains(x) ==> n@.contains(x)
            },
        },
{
    if hop >= hop_depth || visited.len() >= max_nodes {
        return None;
    }
    let next = graph.expansion_layer(layer, visited, max_nodes - visited.len());
    if next.len() == 0 {
        None
    } else {
        Some(next)
    }
}

} // verus!
