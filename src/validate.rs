//! Checks on nodes and edges, and merging of duplicate nodes.

use vstd::prelude::*;
use crate::config::{EdgeValidationResult, NodeValidationResult};
use crate::dates::decimal;
use crate::graph::{holds, Edge};
use crate::node::{now_seconds, MemoryNode, NodeData};
use crate::segment::string_views;
use crate::text::{chars_of, text_of, trim, trim_chars};

verus! {

/// The problems of an edge: an empty relation, a weight above one, a
/// self-loop.
pub open spec fn edge_problems(e: Edge) -> Seq<Seq<char>> {
    (if trim(e.relation@).len() == 0 {
        seq!["关系类型不能为空"@]
    } else {
        Seq::empty()
    }) + (if e.weight > 100 {
        seq!["边权重必须在 0-1 之间，当前: "@ + hundredths_text(e.weight as nat)]
    } else {
        Seq::empty()
    }) + (if e.source == e.target {
        seq!["不允许自环边"@]
    } else {
        Seq::empty()
    })
}

/// Checks that an edge has a relation, a weight of at most one, and is no
/// self-loop.
pub fn validate_edge(edge: &Edge) -> (r: EdgeValidationResult)
    ensures
        string_views(r.errors@) == edge_problems(*edge),
        r.is_valid == (edge_problems(*edge).len() == 0),
{
    let mut errors: Vec<String> = Vec::new();
    if trim_chars(&chars_of(edge.relation.as_str())).len() == 0 {
        errors.push(String::from_str("关系类型不能为空"));
    }
    if edge.weight > 100 {
        errors.push(hundredths_message("边权重必须在 0-1 之间，当前: ", edge.weight));
    }
    if edge.source == edge.target {
        errors.push(String::from_str("不允许自环边"));
    }
    assert(string_views(errors@) =~= edge_problems(*edge));
    EdgeValidationResult { is_valid: errors.len() == 0, errors }
}

/// Hundredths written as a decimal fraction with two places ("1.50").
pub open spec fn hundredths_text(n: nat) -> Seq<char> {
    decimal(n / 100) + seq!['.', (((n % 100) / 10 + 48) as u8) as char, (((n % 10) + 48) as u8) as char]
}

/// The problems of a node: empty content, importance above one, an event
/// without a time.
pub open spec fn node_problems(n: MemoryNode) -> Seq<Seq<char>> {
    (if trim(n.content@).len() == 0 {
        seq!["节点内容不能为空"@]
    } else {
        Seq::empty()
    }) + (if n.importance > 100 {
        seq!["重要性值必须在 0-1 之间，当前: "@ + hundredths_text(n.importance as nat)]
    } else {
        Seq::empty()
    }) + (match n.data {
        NodeData::Event { event_time, .. } => if event_time@.len() == 0 {
            seq!["事件节点必须指定 event_time"@]
        } else {
            Seq::empty()
        },
        _ => Seq::empty(),
    })
}

fn hundredths_message(prefix: &str, n: u32) -> (r: String)
    ensures
        r@ == prefix@ + hundredths_text(n as nat),
{
    let mut v = chars_of(prefix);
    let ghost start = v@;
    let whole = crate::dates::decimal_chars((n / 100) as u64);
    let mut i: usize = 0;
    while i < whole.len()
        invariant
            i <= whole@.len(),
            v@ == start + whole@.subrange(0, i as int),
        decreases whole@.len() - i,
    {
        v.push(whole[i]);
        i = i + 1;
        assert(v@ =~= start + whole@.subrange(0, i as int));
    }
    assert(whole@.subrange(0, whole@.len() as int) =~= whole@);
    v.push('.');
    v.push((((n % 100) / 10 + 48) as u8) as char);
    v.push((((n % 10) + 48) as u8) as char);
    assert(v@ =~= start + hundredths_text(n as nat));
    text_of(&v)
}

/// Checks a node's content, importance and, for an event, its time.
pub fn validate_node(node: &MemoryNode) -> (r: NodeValidationResult)
    ensures
        string_views(r.errors@) == node_problems(*node),
        r.is_valid == (node_problems(*node).len() == 0),
{
    let mut errors: Vec<String> = Vec::new();
    if trim_chars(&chars_of(node.content.as_str())).len() == 0 {
        errors.push(String::from_str("节点内容不能为空"));
    }
    let ghost a = string_views(errors@);
    if node.importance > 100 {
        errors.push(hundredths_message("重要性值必须在 0-1 之间，当前: ", node.importance));
    }
    let ghost b = string_views(errors@);
    assert(b =~= a + (if node.importance > 100 {
        seq!["重要性值必须在 0-1 之间，当前: "@ + hundredths_text(node.importance as nat)]
    } else {
        Seq::empty()
    }));
    match &node.data {
        NodeData::Event { event_time, .. } => {
            if event_time.as_str().unicode_len() == 0 {
                errors.push(String::from_str("事件节点必须指定 event_time"));
            }
        },
        _ => {},
    }
    assert(string_views(errors@) =~= node_problems(*node));
    NodeValidationResult { is_valid: errors.len() == 0, errors }
}

/// `a` followed by those elements of `b` that are not yet present, in order.
pub open spec fn merged_participants(a: Seq<u128>, b: Seq<u128>) -> Seq<u128>
    decreases b.len(),
{
    if b.len() == 0 {
        a
    } else {
        let m = merged_participants(a, b.drop_last());
        if m.contains(b.last()) {
            m
        } else {
            m.push(b.last())
        }
    }
}

/// Folds a duplicate into an existing node: counts one more access, stamps
/// it as updated now, keeps the higher importance and, for two events,
/// appends the new participants that are missing.
pub fn merge_nodes(existing: &mut MemoryNode, new_node: &MemoryNode)
    requires
        old(existing).access_count < u32::MAX,
    ensures
        final(existing).id == old(existing).id,
        final(existing).content == old(existing).content,
        final(existing).access_count == old(existing).access_count + 1,
        final(existing).importance == if new_node.importance > old(existing).importance {
            new_node.importance
        } else {
            old(existing).importance
        },
        final(existing).created_at == old(existing).created_at,
        match (old(existing).data, new_node.data) {
            (
                NodeData::Event { participants: p, event_time: t, source_conversation_id: s },
                NodeData::Event { participants: q, .. },
            ) => match final(existing).data {
                NodeData::Event { participants, event_time, source_conversation_id } => participants@
                    == merged_participants(p@, q@) && event_time == t && source_conversation_id == s,
                _ => false,
            },
            _ => final(existing).data == old(existing).data,
        },
{
    existing.access_count = existing.access_count + 1;
    existing.updated_at = now_seconds();
    if new_node.importance > existing.importance {
        existing.importance = new_node.importance;
    }
    match (&mut existing.data, &new_node.data) {
        (NodeData::Event { participants: parts, .. }, NodeData::Event { participants: more, .. }) => {
            let ghost start = parts@;
            let mut i: usize = 0;
            while i < more.len()
                invariant
                    i <= more@.len(),
                    parts@ == merged_participants(start, more@.subrange(0, i as int)),
                decreases more@.len() - i,
            {
                let p = more[i];
                proof {
                    assert(more@.subrange(0, i + 1).drop_last() =~= more@.subrange(0, i as int));
                }
                if !holds(parts, p) {
                    parts.push(p);
                }
                i = i + 1;
            }
            assert(more@.subrange(0, more@.len() as int) =~= more@);
        },
        _ => {},
    }
}

} // verus!
