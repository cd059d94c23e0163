//! Rules of the concept pool: how an upsert changes an entry, which entries
//! a prune removes, and how a name is quoted in a table filter.

use vstd::prelude::*;
use crate::config::ConceptPoolEntry;
use crate::text::{chars_of, text_of};

verus! {

/// The entry an upsert of `name` at time `now` writes: the existing entry
/// counted once more (saturating at the largest count), or a new entry
/// counted once.
pub fn upserted_entry(existing: Option<&ConceptPoolEntry>, name: &str, now: i64) -> (r: ConceptPoolEntry)
    ensures
        r.last_used_at == now,
        match existing {
            Some(e) => r.name@ == e.name@ && r.instance_count == if e.instance_count == u32::MAX {
                u32::MAX
            } else {
                (e.instance_count + 1) as u32
            } && r.instance_count >= e.instance_count,
            None => r.name@ == name@ && r.instance_count == 1,
        },
{
    match existing {
        Some(e) => ConceptPoolEntry {
            name: e.name.clone(),
            instance_count: if e.instance_count == u32::MAX {
                u32::MAX
            } else {
                e.instance_count + 1
            },
            last_used_at: now,
        },
        None => ConceptPoolEntry { name: String::from_str(name), instance_count: 1, last_used_at: now },
    }
}

/// Whether a prune removes `e`: it is used fewer than `min_count` times
/// and was last used before `cutoff`.
pub fn is_inactive(e: &ConceptPoolEntry, min_count: u32, cutoff: i64) -> (r: bool)
    ensures
        r == (e.instance_count < min_count && e.last_used_at < cutoff),
{
    e.instance_count < min_count && e.last_used_at < cutoff
}

/// The entries that a prune keeps, in order, and how many it removes.
pub fn prune_entries(entries: Vec<ConceptPoolEntry>, min_count: u32, cutoff: i64) -> (r: (Vec<ConceptPoolEntry>, usize))
    ensures
        r.0@ == entries@.filter(|e: ConceptPoolEntry| !(e.instance_count < min_count && e.last_used_at < cutoff)),
        r.1 == entries@.len() - r.0@.len(),
{
    let ghost all = entries@;
    let back = entries;
    let mut kept: Vec<ConceptPoolEntry> = Vec::new();
    let mut removed: usize = 0;
    proof {
        reveal(Seq::filter);
        assert(all.subrange(0, 0) =~= Seq::<ConceptPoolEntry>::empty());
    }
    let mut i: usize = 0;
    while i < back.len()
        invariant
            back@ == all,
            i <= all.len(),
            kept@ == all.subrange(0, i as int).filter(|e: ConceptPoolEntry| !(e.instance_count < min_count && e.last_used_at < cutoff)),
            removed == i - kept@.len(),
            kept@.len() <= i,
        decreases all.len() - i,
    {
        proof {
            assert(all.subrange(0, i + 1) =~= all.subrange(0, i as int).push(all[i as int]));
            all.subrange(0, i as int).lemma_filter_push(
                all[i as int],
                |e: ConceptPoolEntry| !(e.instance_count < min_count && e.last_used_at < cutoff),
            );
        }
        if is_inactive(&back[i], min_count, cutoff) {
            removed = removed + 1;
        } else {
            let e = back[i].clone_entry();
            kept.push(e);
        }
        i = i + 1;
    }
    assert(all.subrange(0, all.len() as int) =~= all);
    (kept, removed)
}

impl ConceptPoolEntry {
    /// A field-by-field copy.
    pub fn clone_entry(&self) -> (r: ConceptPoolEntry)
        ensures
            r == *self,
    {
        ConceptPoolEntry { name: self.name.clone(), instance_count: self.instance_count, last_used_at: self.last_used_at }
    }
}

/// `s` with each single quote doubled, as a quoted filter literal needs.
pub open spec fn quote_doubled(s: Seq<char>) -> Seq<char>
    decreases s.len(),
{
    if s.len() == 0 {
        s
    } else if s.last() == '\'' {
        quote_doubled(s.drop_last()) + seq!['\'', '\'']
    } else {
        quote_doubled(s.drop_last()).push(s.last())
    }
}

/// Doubles the single quotes of a name for use inside a quoted filter.
pub fn escape_literal(name: &str) -> (r: String)
    ensures
        r@ == quote_doubled(name@),
{
    let c = chars_of(name);
    let mut v: Vec<char> = Vec::new();
    let mut i: usize = 0;
    while i < c.len()
        invariant
            c@ == name@,
            i <= c@.len(),
            v@ == quote_doubled(c@.subrange(0, i as int)),
        decreases c@.len() - i,
    {
        assert(c@.subrange(0, i + 1).drop_last() =~= c@.subrange(0, i as int));
        if c[i] == '\'' {
            v.push('\'');
            v.push('\'');
            assert(v@ =~= quote_doubled(c@.subrange(0, i + 1)));
        } else {
            v.push(c[i]);
        }
        i = i + 1;
    }
    assert(c@.subrange(0, c@.len() as int) =~= c@);
    text_of(&v)
}

} // verus!
