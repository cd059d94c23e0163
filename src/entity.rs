//! Keyword-based inference of entity types.

use vstd::prelude::*;
use crate::text::{chars_of, contains, contains_chars};
use crate::types::EntityType;

verus! {

/// Words that mark a segment as naming a person.
pub open spec fn person_keywords() -> Seq<&'static str> {
    seq!["我", "你", "他", "她", "哥", "姐", "弟", "妹", "爸", "妈", "老师", "朋友", "同学"]
}

/// Words that mark a segment as naming a place.
pub open spec fn place_keywords() -> Seq<&'static str> {
    seq!["家", "学校", "公司", "商店", "餐厅", "公园", "医院", "车站", "机场"]
}

/// Words that mark a segment as naming a time.
pub open spec fn time_keywords() -> Seq<&'static str> {
    seq!["今天", "昨天", "明天", "上午", "下午", "晚上", "周一", "周末", "月", "年"]
}

/// Some word of `ks` occurs in `c`.
pub open spec fn mentions_any(c: Seq<char>, ks: Seq<&'static str>) -> bool {
    exists|j: int| 0 <= j < ks.len() && contains(c, (#[trigger] ks[j])@)
}

/// The entity type of a text: person words win over place words, place
/// words over time words; a text with none of them is `Other`.
pub open spec fn entity_type_of(c: Seq<char>) -> EntityType {
    if mentions_any(c, person_keywords()) {
        EntityType::Person
    } else if mentions_any(c, place_keywords()) {
        EntityType::Place
    } else if mentions_any(c, time_keywords()) {
        EntityType::Time
    } else {
        EntityType::Other
    }
}

/// Whether some word of `ks` occurs in `c`.
fn mentions_any_of(c: &Vec<char>, ks: &Vec<&'static str>) -> (r: bool)
    ensures
        r == mentions_any(c@, ks@),
{
    let mut j: usize = 0;
    while j < ks.len()
        invariant
            j <= ks@.len(),
            forall|t: int| 0 <= t < j ==> !contains(c@, (#[trigger] ks@[t])@),
        decreases ks@.len() - j,
    {
        let k = chars_of(ks[j]);
        if contains_chars(c, &k) {
            return true;
        }
        j = j + 1;
    }
    false
}

/// Infers the entity type of `content` from the keywords it contains.
pub fn infer_entity_type(content: &str) -> (r: EntityType)
    ensures
        r == entity_type_of(content@),
{
    let c = chars_of(content);
    let person: Vec<&'static str> = vec!["我", "你", "他", "她", "哥", "姐", "弟", "妹", "爸", "妈", "老师", "朋友", "同学"];
    assert(person@ =~= person_keywords());
    if mentions_any_of(&c, &person) {
        return EntityType::Person;
    }
    let place: Vec<&'static str> = vec!["家", "学校", "公司", "商店", "餐厅", "公园", "医院", "车站", "机场"];
    assert(place@ =~= place_keywords());
    if mentions_any_of(&c, &place) {
        return EntityType::Place;
    }
    let time: Vec<&'static str> = vec!["今天", "昨天", "明天", "上午", "下午", "晚上", "周一", "周末", "月", "年"];
    assert(time@ =~= time_keywords());
    if mentions_any_of(&c, &time) {
        return EntityType::Time;
    }
    EntityType::Other
}

} // verus!
