//! Splitting user text into candidate entity segments.

use vstd::prelude::*;
use crate::text::{text_of, trim, trim_chars};

verus! {

/// The punctuation and white space at which text is cut into segments.
pub open spec fn is_delimiter(c: char) -> bool {
    let u = c as u32;
    u == 0xff0c || u == 0x3002 || u == 0xff01 || u == 0xff1f || u == 0x3001 || u == 0xff1b
        || u == 0xff1a || u == 0xff08 || u == 0xff09 || u == 0x300a || u == 0x300b || c == '"'
        || c == '\n' || c == '\r' || c == '\t' || c == ' ' || c == ',' || c == '.' || c == '!'
        || c == '?' || c == ':' || c == ';' || c == '\'' || c == '(' || c == ')'
}

/// Tests `c` for being a delimiter.
pub fn is_delimiter_char(c: char) -> (r: bool)
    ensures
        r == is_delimiter(c),
{
    let u = c as u32;
    u == 0xff0c || u == 0x3002 || u == 0xff01 || u == 0xff1f || u == 0x3001 || u == 0xff1b
        || u == 0xff1a || u == 0xff08 || u == 0xff09 || u == 0x300a || u == 0x300b || c == '"'
        || c == '\n' || c == '\r' || c == '\t' || c == ' ' || c == ',' || c == '.' || c == '!'
        || c == '?' || c == ':' || c == ';' || c == '\'' || c == '(' || c == ')'
}

/// The runs of `s` between delimiters, empty runs included.
pub open spec fn pieces(s: Seq<char>) -> Seq<Seq<char>>
    decreases s.len(),
{
    if s.len() == 0 {
        seq![Seq::empty()]
    } else {
        let rest = pieces(s.drop_last());
        if is_delimiter(s.last()) {
            rest.push(Seq::empty())
        } else {
            rest.update(rest.len() - 1, rest.last().push(s.last()))
        }
    }
}

/// The trimmed forms of `ps` that are not empty, in order.
pub open spec fn trimmed_nonempty(ps: Seq<Seq<char>>) -> Seq<Seq<char>> {
    ps.map_values(|p: Seq<char>| trim(p)).filter(|t: Seq<char>| t.len() > 0)
}

/// The trimmed, non-empty segments of `s`, in order.
pub open spec fn segments(s: Seq<char>) -> Seq<Seq<char>> {
    trimmed_nonempty(pieces(s))
}

/// The character sequences that a list of strings holds.
pub open spec fn string_views(v: Seq<String>) -> Seq<Seq<char>> {
    v.map_values(|x: String| x@)
}

proof fn lemma_segments_push(done: Seq<Seq<char>>, x: Seq<char>)
    ensures
        trimmed_nonempty(done.push(x)) == if trim(x).len() > 0 {
            trimmed_nonempty(done).push(trim(x))
        } else {
            trimmed_nonempty(done)
        },
{
    assert(done.push(x).map_values(|p: Seq<char>| trim(p)) =~= done.map_values(|p: Seq<char>| trim(p)).push(trim(x)));
    done.map_values(|p: Seq<char>| trim(p)).lemma_filter_push(trim(x), |t: Seq<char>| t.len() > 0);
}

/// Cuts `text` at delimiters into trimmed, non-empty segments.
pub fn simple_segment(text: &Vec<char>) -> (r: Vec<String>)
    ensures
        string_views(r@) == segments(text@),
{
    let mut result: Vec<String> = Vec::new();
    let mut cur: Vec<char> = Vec::new();
    let mut i: usize = 0;
    assert(text@.subrange(0, 0) =~= Seq::<char>::empty());
    assert(pieces(text@.subrange(0, 0)).drop_last() =~= Seq::<Seq<char>>::empty());
    assert(string_views(result@) =~= trimmed_nonempty(Seq::<Seq<char>>::empty())) by {
        reveal(Seq::filter);
        assert(Seq::<Seq<char>>::empty().map_values(|p: Seq<char>| trim(p)) =~= Seq::<Seq<char>>::empty());
    }
    while i < text.len()
        invariant
            i <= text@.len(),
            pieces(text@.subrange(0, i as int)).len() >= 1,
            cur@ == pieces(text@.subrange(0, i as int)).last(),
            string_views(result@) == trimmed_nonempty(pieces(text@.subrange(0, i as int)).drop_last()),
        decreases text@.len() - i,
    {
        let c = text[i];
        let ghost pre = pieces(text@.subrange(0, i as int));
        assert(text@.subrange(0, i + 1).drop_last() =~= text@.subrange(0, i as int));
        if is_delimiter_char(c) {
            let t = trim_chars(&cur);
            proof {
                lemma_segments_push(pre.drop_last(), cur@);
                assert(pre.drop_last().push(cur@) =~= pre);
            }
            let ghost before = string_views(result@);
            if t.len() > 0 {
                result.push(text_of(&t));
                assert(string_views(result@) =~= before.push(t@));
            }
            cur = Vec::new();
            assert(pieces(text@.subrange(0, i + 1)).drop_last() =~= pre);
        } else {
            cur.push(c);
            assert(pieces(text@.subrange(0, i + 1)).drop_last() =~= pre.drop_last());
        }
        i = i + 1;
    }
    assert(text@.subrange(0, text@.len() as int) =~= text@);
    let ghost all = pieces(text@);
    let t = trim_chars(&cur);
    proof {
        lemma_segments_push(all.drop_last(), cur@);
        assert(all.drop_last().push(cur@) =~= all);
    }
    let ghost before = string_views(result@);
    if t.len() > 0 {
        result.push(text_of(&t));
        assert(string_views(result@) =~= before.push(t@));
    }
    result
}

} // verus!
