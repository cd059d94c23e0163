//! Normalization of relation names to the controlled vocabulary.

use vstd::prelude::*;
use crate::relation_types::{AFTER, AS_RESULT, AT_SAME_TIME, BECAUSE, BEFORE, BELONGS_TO, KNOWS, LOCATED_AT, OWNS};
use crate::text::{chars_of, is_one_of, is_one_of_words, text_of, trim, trim_chars};

verus! {

/// What `str::to_lowercase` makes of a text.
pub uninterp spec fn lowercase_of(s: Seq<char>) -> Seq<char>;

/// Relies on `str::to_lowercase`, whose result depends on the characters alone.
#[verifier::external_body]
fn lowercase(s: &str) -> (r: String)
    ensures
        r@ == lowercase_of(s@),
{
    s.to_lowercase()
}

/// The canonical relation for a lowered, trimmed name: known synonyms map to
/// their canonical word, every other name stays as it is.
pub open spec fn canonical_relation(s: Seq<char>) -> Seq<char> {
    if is_one_of(s, seq!["之前", "前", "早于"]) {
        BEFORE@
    } else if is_one_of(s, seq!["之后", "后", "晚于"]) {
        AFTER@
    } else if is_one_of(s, seq!["同时", "一起"]) {
        AT_SAME_TIME@
    } else if is_one_of(s, seq!["因为", "由于", "因"]) {
        BECAUSE@
    } else if is_one_of(s, seq!["导致", "结果", "所以"]) {
        AS_RESULT@
    } else if is_one_of(s, seq!["属于", "归属"]) {
        BELONGS_TO@
    } else if is_one_of(s, seq!["拥有", "有"]) {
        OWNS@
    } else if is_one_of(s, seq!["认识", "知道"]) {
        KNOWS@
    } else if is_one_of(s, seq!["位于", "在"]) {
        LOCATED_AT@
    } else {
        s
    }
}

/// Maps an already lowered relation name to the controlled vocabulary,
/// after trimming it.
pub fn normalize_lowered(lowered: &str) -> (r: String)
    ensures
        r@ == canonical_relation(trim(lowered@)),
{
    let s = trim_chars(&chars_of(lowered));
    let w: Vec<&'static str> = vec!["之前", "前", "早于"];
    assert(w@ =~= seq!["之前", "前", "早于"]);
    if is_one_of_words(&s, &w) {
        return String::from_str(BEFORE);
    }
    let w: Vec<&'static str> = vec!["之后", "后", "晚于"];
    assert(w@ =~= seq!["之后", "后", "晚于"]);
    if is_one_of_words(&s, &w) {
        return String::from_str(AFTER);
    }
    let w: Vec<&'static str> = vec!["同时", "一起"];
    assert(w@ =~= seq!["同时", "一起"]);
    if is_one_of_words(&s, &w) {
        return String::from_str(AT_SAME_TIME);
    }
    let w: Vec<&'static str> = vec!["因为", "由于", "因"];
    assert(w@ =~= seq!["因为", "由于", "因"]);
    if is_one_of_words(&s, &w) {
        return String::from_str(BECAUSE);
    }
    let w: Vec<&'static str> = vec!["导致", "结果", "所以"];
    assert(w@ =~= seq!["导致", "结果", "所以"]);
    if is_one_of_words(&s, &w) {
        return String::from_str(AS_RESULT);
    }
    let w: Vec<&'static str> = vec!["属于", "归属"];
    assert(w@ =~= seq!["属于", "归属"]);
    if is_one_of_words(&s, &w) {
        return String::from_str(BELONGS_TO);
    }
    let w: Vec<&'static str> = vec!["拥有", "有"];
    assert(w@ =~= seq!["拥有", "有"]);
    if is_one_of_words(&s, &w) {
        return String::from_str(OWNS);
    }
    let w: Vec<&'static str> = vec!["认识", "知道"];
    assert(w@ =~= seq!["认识", "知道"]);
    if is_one_of_words(&s, &w) {
        return String::from_str(KNOWS);
    }
    let w: Vec<&'static str> = vec!["位于", "在"];
    assert(w@ =~= seq!["位于", "在"]);
    if is_one_of_words(&s, &w) {
        return String::from_str(LOCATED_AT);
    }
    text_of(&s)
}

/// Maps a user-supplied relation name to the controlled vocabulary: the name
/// is lowered and trimmed, known synonyms become their canonical word, and
/// any other name is kept in its lowered, trimmed form.
pub fn normalize_relation(relation: &str) -> (r: String)
    ensures
        r@ == canonical_relation(trim(lowercase_of(relation@))),
{
    let lowered = lowercase(relation);
    normalize_lowered(lowered.as_str())
}

} // verus!
