//! Ingestion: turning a batch of chat messages into event, entity and
//! concept nodes and the edges between them.

use vstd::prelude::*;
use crate::node::{claim_id, MemoryNode, NodeData};
use crate::subgraph::ids_of;
use crate::entity::{entity_type_of, infer_entity_type};
use crate::graph::Edge;
use crate::relation_types::{CONCEPTUALIZED_AS, PARTICIPATES_IN};
use crate::segment::{segments, simple_segment, string_views};
use crate::text::{chars_of, contains, occurs_at, same_chars, text_of, utf8_len, utf8_len_of};
use crate::types::EntityType;

verus! {

/// One chat message; `role` is "user", "assistant" or "system".
#[derive(Debug, Clone)]
pub struct Message {
    pub role: String,
    pub content: String,
    pub timestamp: Option<i64>,
}

/// What `chrono` renders of a Unix time as "YYYY-MM-DD-HH-MM" in UTC, or
/// `None` where the time is out of its range.
pub uninterp spec fn minute_stamp(ts: i64) -> Option<Seq<char>>;

/// Relies on `chrono::DateTime::from_timestamp` and `DateTime::format`: the
/// UTC minute stamp of a Unix time, `None` where chrono cannot represent it.
#[verifier::external_body]
fn stamp_of_timestamp(ts: i64) -> (r: Option<String>)
    ensures
        match r {
            Some(s) => minute_stamp(ts) == Some(s@),
            None => minute_stamp(ts).is_none(),
        },
{
    match chrono::DateTime::from_timestamp(ts, 0) {
        Some(dt) => Some(dt.format("%Y-%m-%d-%H-%M").to_string()),
        None => None,
    }
}

/// The message was written by the user.
pub open spec fn is_user(m: Message) -> bool {
    m.role@ == "user"@
}

/// The message is a reply of the assistant.
pub open spec fn is_assistant(m: Message) -> bool {
    m.role@ == "assistant"@
}

/// The conversational turns of `ms` from position `i` on: each user message,
/// paired with the assistant message right after it (`-1` where there is
/// none). Other messages that start no turn are skipped.
pub open spec fn turns_from(ms: Seq<Message>, i: int) -> Seq<(int, int)>
    decreases ms.len() - i,
{
    if i < 0 || i >= ms.len() {
        Seq::empty()
    } else if is_user(ms[i]) {
        if i + 1 < ms.len() && is_assistant(ms[i + 1]) {
            seq![(i, i + 1)] + turns_from(ms, i + 2)
        } else {
            seq![(i, -1)] + turns_from(ms, i + 1)
        }
    } else {
        turns_from(ms, i + 1)
    }
}

/// The conversational turns of `ms`.
pub open spec fn turns(ms: Seq<Message>) -> Seq<(int, int)> {
    turns_from(ms, 0)
}

/// The text of the event for a turn.
pub open spec fn event_text(ms: Seq<Message>, t: (int, int)) -> Seq<char> {
    if t.1 >= 0 {
        "用户说："@ + ms[t.0].content@ + "\n回复："@ + ms[t.1].content@
    } else {
        "用户说："@ + ms[t.0].content@
    }
}

/// Importance, in hundredths, of an event whose user message takes `len`
/// bytes.
pub open spec fn importance_for_len(len: nat) -> u32 {
    if len > 200 {
        80
    } else if len > 50 {
        60
    } else {
        40
    }
}

/// The time stamp of an event: from the user message's timestamp where it
/// has one that can be rendered, else `now`.
pub open spec fn stamp_for(ts: Option<i64>, now: Seq<char>) -> Seq<char> {
    match ts {
        Some(t) => match minute_stamp(t) {
            Some(s) => s,
            None => now,
        },
        None => now,
    }
}

/// `n` is the event node that turn `t` of `ms` gives.
pub open spec fn is_event_for(n: MemoryNode, ms: Seq<Message>, t: (int, int), now: Seq<char>) -> bool {
    &&& n.content@ == event_text(ms, t)
    &&& n.importance == importance_for_len(utf8_len(ms[t.0].content@))
    &&& match n.data {
        NodeData::Event { participants, event_time, source_conversation_id } => participants@.len() == 0
            && event_time@ == stamp_for(ms[t.0].timestamp, now) && source_conversation_id.is_none(),
        _ => false,
    }
}

/// Appends the characters of `s` to `v`.
fn append_str(v: &mut Vec<char>, s: &str)
    ensures
        final(v)@ == old(v)@ + s@,
{
    let c = chars_of(s);
    let mut i: usize = 0;
    while i < c.len()
        invariant
            c@ == s@,
            i <= c@.len(),
            v@ == old(v)@ + c@.subrange(0, i as int),
        decreases c@.len() - i,
    {
        v.push(c[i]);
        i = i + 1;
        assert(v@ =~= old(v)@ + c@.subrange(0, i as int));
    }
    assert(c@.subrange(0, c@.len() as int) =~= c@);
}

fn role_is(m: &Message, word: &str) -> (r: bool)
    ensures
        r == (m.role@ == word@),
{
    crate::text::same_chars(&chars_of(m.role.as_str()), &chars_of(word))
}

/// The event node of one turn.
fn event_of_turn(messages: &Vec<Message>, u: usize, reply: Option<usize>, now_time: &String) -> (r: MemoryNode)
    requires
        u < messages@.len(),
        reply.is_some() ==> reply.unwrap() < messages@.len(),
    ensures
        is_event_for(
            r,
            messages@,
            (u as int, match reply {
                Some(k) => k as int,
                None => -1,
            }),
            now_time@,
        ),
{
    let msg = &messages[u];
    let mut text: Vec<char> = Vec::new();
    append_str(&mut text, "用户说：");
    append_str(&mut text, msg.content.as_str());
    match reply {
        Some(k) => {
            append_str(&mut text, "\n回复：");
            append_str(&mut text, messages[k].content.as_str());
        },
        None => {},
    }
    let event_time = match msg.timestamp {
        Some(ts) => match stamp_of_timestamp(ts) {
            Some(s) => s,
            None => now_time.clone(),
        },
        None => now_time.clone(),
    };
    let mut event = MemoryNode::new_event(text_of(&text), event_time);
    let len = utf8_len_of(&chars_of(msg.content.as_str()));
    event.importance = if len > 200 {
        80
    } else if len > 50 {
        60
    } else {
        40
    };
    event
}

/// Pairs each user message with the assistant reply right after it, if
/// any, into one event node; messages that start no turn are skipped.
pub fn messages_to_events(messages: &Vec<Message>, now_time: &String) -> (r: Vec<MemoryNode>)
    ensures
        r@.len() == turns(messages@).len(),
        forall|k: int| 0 <= k < r@.len() ==> is_event_for(#[trigger] r@[k], messages@, turns(messages@)[k], now_time@),
        ids_of(r@).no_duplicates(),
{
    let ghost ms = messages@;
    let mut events: Vec<MemoryNode> = Vec::new();
    let mut taken: Vec<u128> = Vec::new();
    let mut i: usize = 0;
    assert(ids_of(events@) =~= taken@);
    while i < messages.len()
        invariant
            ms == messages@,
            i <= ms.len(),
            events@.len() + turns_from(ms, i as int).len() == turns(ms).len(),
            turns(ms) == turns(ms).subrange(0, events@.len() as int) + turns_from(ms, i as int),
            forall|k: int| 0 <= k < events@.len() ==> is_event_for(#[trigger] events@[k], ms, turns(ms)[k], now_time@),
            taken@ == ids_of(events@),
            taken@.no_duplicates(),
        decreases ms.len() - i,
    {
        let ghost done = turns(ms).subrange(0, events@.len() as int);
        if role_is(&messages[i], "user") {
            let has_reply = i + 1 < messages.len() && role_is(&messages[i + 1], "assistant");
            let reply = if has_reply {
                Some(i + 1)
            } else {
                None
            };
            let mut ev = event_of_turn(messages, i, reply, now_time);
            let ghost t = (i as int, if has_reply { (i + 1) as int } else { -1 });
            assert(turns_from(ms, i as int) == seq![t] + turns_from(ms, if has_reply { i + 2 } else { i + 1 }));
            let ghost e0 = events@;
            claim_id(&mut ev, &mut taken);
            events.push(ev);
            assert(ids_of(events@) =~= ids_of(e0).push(ev.id));
            proof {
                assert(turns(ms).subrange(0, events@.len() as int) =~= done.push(t)) by {
                    assert(turns(ms)[done.len() as int] == t);
                }
                assert forall|k: int| 0 <= k < events@.len() implies is_event_for(#[trigger] events@[k], ms, turns(ms)[k], now_time@) by {
                    if k == events@.len() - 1 {
                        assert(turns(ms)[k] == t);
                    }
                }
            }
            if has_reply {
                i = i + 2;
            } else {
                i = i + 1;
            }
            assert(turns(ms) =~= turns(ms).subrange(0, events@.len() as int) + turns_from(ms, i as int));
        } else {
            i = i + 1;
        }
    }
    assert(turns(ms).subrange(0, events@.len() as int) =~= turns(ms));
    events
}

/// A segment names an entity: it takes 2 to 20 bytes and has a recognised
/// type.
pub open spec fn qualifies(t: Seq<char>) -> bool {
    2 <= utf8_len(t) <= 20 && entity_type_of(t) != EntityType::Other
}

/// The entity mentions of the messages from position `i` on, each with the
/// number of its turn; `users` user messages come before `i`.
pub open spec fn mentions_from(ms: Seq<Message>, i: int, users: int) -> Seq<(Seq<char>, int)>
    decreases ms.len() - i,
{
    if i < 0 || i >= ms.len() {
        Seq::empty()
    } else if is_user(ms[i]) {
        segments(ms[i].content@).filter(|t: Seq<char>| qualifies(t)).map_values(
            |t: Seq<char>| (t, users),
        ) + mentions_from(ms, i + 1, users + 1)
    } else {
        mentions_from(ms, i + 1, users)
    }
}

/// The entity mentions of `ms`, in order.
pub open spec fn mentions(ms: Seq<Message>) -> Seq<(Seq<char>, int)> {
    mentions_from(ms, 0, 0)
}

/// The texts of `ms`, each once, in order of first occurrence.
pub open spec fn distinct(s: Seq<Seq<char>>) -> Seq<Seq<char>>
    decreases s.len(),
{
    if s.len() == 0 {
        s
    } else {
        let d = distinct(s.drop_last());
        if d.contains(s.last()) {
            d
        } else {
            d.push(s.last())
        }
    }
}

/// The texts of the mentions.
pub open spec fn mention_texts(m: Seq<(Seq<char>, int)>) -> Seq<Seq<char>> {
    m.map_values(|x: (Seq<char>, int)| x.0)
}

/// The contents of a list of nodes.
pub open spec fn contents(ns: Seq<MemoryNode>) -> Seq<Seq<char>> {
    ns.map_values(|n: MemoryNode| n.content@)
}

/// `p` is the participation pair of mention `m`: from the entity named by
/// the mention to the event of its turn.
pub open spec fn pairs_mention(p: (u128, u128), m: (Seq<char>, int), entities: Seq<MemoryNode>, events: Seq<MemoryNode>) -> bool {
    &&& 0 <= m.1 < events.len()
    &&& p.1 == events[m.1].id
    &&& exists|j: int| 0 <= j < entities.len() && (#[trigger] entities[j]).content@ == m.0 && p.0 == entities[j].id
}

proof fn lemma_distinct_unique(s: Seq<Seq<char>>)
    ensures
        distinct(s).no_duplicates(),
        forall|t: Seq<char>| distinct(s).contains(t) <==> s.contains(t),
    decreases s.len(),
{
    broadcast use vstd::seq_lib::lemma_seq_contains_after_push;
    if s.len() > 0 {
        lemma_distinct_unique(s.drop_last());
        assert(s =~= s.drop_last().push(s.last()));
    }
}

/// The position of the node whose content is `t`, if any.
fn find_by_content(ns: &Vec<MemoryNode>, t: &Vec<char>) -> (r: Option<usize>)
    ensures
        match r {
            Some(j) => j < ns@.len() && ns@[j as int].content@ == t@,
            None => !contents(ns@).contains(t@),
        },
{
    let mut j: usize = 0;
    while j < ns.len()
        invariant
            j <= ns@.len(),
            forall|k: int| 0 <= k < j ==> (#[trigger] ns@[k]).content@ != t@,
        decreases ns@.len() - j,
    {
        if same_chars(&chars_of(ns[j].content.as_str()), t) {
            return Some(j);
        }
        j = j + 1;
    }
    proof {
        if contents(ns@).contains(t@) {
            let k = choose|k: int| 0 <= k < contents(ns@).len() && contents(ns@)[k] == t@;
            assert(ns@[k].content@ == t@);
        }
    }
    None
}

/// Extracts entity nodes from the user messages: each qualifying segment is
/// an entity, one node per distinct text, with its inferred type. Returns
/// the nodes and, for each mention in order, the pair (entity id, event id)
/// of the turn it was made in.
pub fn extract_entities(messages: &Vec<Message>, events: &Vec<MemoryNode>) -> (r: (Vec<MemoryNode>, Vec<(u128, u128)>))
    ensures
        contents(r.0@) == distinct(mention_texts(mentions(messages@))),
        contents(r.0@).no_duplicates(),
        forall|j: int| 0 <= j < r.0@.len() ==> (#[trigger] r.0@[j]).data == (NodeData::Entity {
            entity_type: entity_type_of(r.0@[j].content@),
            attributes: None,
        }),
        ids_of(r.0@).no_duplicates(),
        forall|x: u128| ids_of(r.0@).contains(x) ==> !ids_of(events@).contains(x),
        r.1@.len() == mentions(messages@).filter(|m: (Seq<char>, int)| m.1 < events@.len()).len(),
        forall|k: int| 0 <= k < r.1@.len() ==> pairs_mention(
            #[trigger] r.1@[k],
            mentions(messages@).filter(|m: (Seq<char>, int)| m.1 < events@.len())[k],
            r.0@,
            events@,
        ),
{
    let ghost ms = messages@;
    let ghost n_ev = events@.len();
    let mut entities: Vec<MemoryNode> = Vec::new();
    let mut taken = crate::subgraph::ids_vec(events);
    assert(taken@ =~= ids_of(events@) + ids_of(entities@));
    let mut pairs: Vec<(u128, u128)> = Vec::new();
    let ghost mut done: Seq<(Seq<char>, int)> = Seq::empty();
    let mut users: usize = 0;
    let mut i: usize = 0;
    proof {
        reveal(Seq::filter);
        assert(mention_texts(done) =~= Seq::<Seq<char>>::empty());
        assert(contents(entities@) =~= Seq::<Seq<char>>::empty());
    }
    while i < messages.len()
        invariant
            ms == messages@,
            n_ev == events@.len(),
            taken@ == ids_of(events@) + ids_of(entities@),
            ids_of(entities@).no_duplicates(),
            forall|x: u128| ids_of(entities@).contains(x) ==> !ids_of(events@).contains(x),
            i <= ms.len(),
            users <= i,
            mentions(ms) == done + mentions_from(ms, i as int, users as int),
            forall|k: int| 0 <= k < done.len() ==> 0 <= (#[trigger] done[k]).1 < users,
            contents(entities@) == distinct(mention_texts(done)),
            forall|j: int| 0 <= j < entities@.len() ==> (#[trigger] entities@[j]).data == (NodeData::Entity {
                entity_type: entity_type_of(entities@[j].content@),
                attributes: None,
            }),
            pairs@.len() == done.filter(|m: (Seq<char>, int)| m.1 < n_ev).len(),
            forall|k: int| 0 <= k < pairs@.len() ==> pairs_mention(
                #[trigger] pairs@[k],
                done.filter(|m: (Seq<char>, int)| m.1 < n_ev)[k],
                entities@,
                events@,
            ),
        decreases ms.len() - i,
    {
        if role_is(&messages[i], "user") {
            let segs = simple_segment(&chars_of(messages[i].content.as_str()));
            let ghost sv = string_views(segs@);
            let ghost start = done;
            let mut j: usize = 0;
            assert(sv.subrange(0, 0).filter(|t: Seq<char>| qualifies(t)) =~= Seq::<Seq<char>>::empty()) by {
                reveal(Seq::filter);
            }
            while j < segs.len()
                invariant
                    ms == messages@,
                    n_ev == events@.len(),
                    taken@ == ids_of(events@) + ids_of(entities@),
                    ids_of(entities@).no_duplicates(),
                    forall|x: u128| ids_of(entities@).contains(x) ==> !ids_of(events@).contains(x),
                    i < ms.len(),
                    users <= i,
                    sv == string_views(segs@),
                    sv == segments(ms[i as int].content@),
                    j <= sv.len(),
                    done == start + sv.subrange(0, j as int).filter(|t: Seq<char>| qualifies(t)).map_values(
                        |t: Seq<char>| (t, users as int),
                    ),
                    forall|k: int| 0 <= k < done.len() ==> 0 <= (#[trigger] done[k]).1 <= users,
                    contents(entities@) == distinct(mention_texts(done)),
                    forall|j: int| 0 <= j < entities@.len() ==> (#[trigger] entities@[j]).data == (NodeData::Entity {
                        entity_type: entity_type_of(entities@[j].content@),
                        attributes: None,
                    }),
                    pairs@.len() == done.filter(|m: (Seq<char>, int)| m.1 < n_ev).len(),
                    forall|k: int| 0 <= k < pairs@.len() ==> pairs_mention(
                        #[trigger] pairs@[k],
                        done.filter(|m: (Seq<char>, int)| m.1 < n_ev)[k],
                        entities@,
                        events@,
                    ),
                decreases sv.len() - j,
            {
                let seg = chars_of(segs[j].as_str());
                assert(seg@ == sv[j as int]);
                let len = utf8_len_of(&seg);
                let ghost before = done;
                proof {
                    assert(sv.subrange(0, j + 1) =~= sv.subrange(0, j as int).push(sv[j as int]));
                    sv.subrange(0, j as int).lemma_filter_push(sv[j as int], |t: Seq<char>| qualifies(t));
                }
                if 2 <= len && len <= 20 {
                    let kind = infer_entity_type(segs[j].as_str());
                    if kind != EntityType::Other {
                        let ghost m = (seg@, users as int);
                        proof {
                            done = done.push(m);
                            assert(done =~= start + sv.subrange(0, j + 1).filter(|t: Seq<char>| qualifies(t)).map_values(
                                |t: Seq<char>| (t, users as int),
                            ));
                            assert(mention_texts(done) =~= mention_texts(before).push(seg@));
                            assert(mention_texts(done).drop_last() =~= mention_texts(before));
                            before.lemma_filter_push(m, |m: (Seq<char>, int)| m.1 < n_ev);
                        }
                        let found = find_by_content(&entities, &seg);
                        let ghost e0 = entities@;
                        let ghost pairs_before = pairs@;
                        proof {
                            assert(mention_texts(done).last() == seg@);
                        }
                        let idx = match found {
                            Some(k) => {
                                assert(contents(entities@)[k as int] == seg@);
                                k
                            },
                            None => {
                                let ghost c0 = contents(entities@);
                                let ghost en0 = entities@;
                                let ghost t0 = taken@;
                                let mut fresh = MemoryNode::new_entity(text_of(&seg), kind);
                                claim_id(&mut fresh, &mut taken);
                                entities.push(fresh);
                                assert(contents(entities@) =~= c0.push(seg@));
                                proof {
                                    assert(ids_of(entities@) =~= ids_of(en0).push(fresh.id));
                                    assert(taken@ =~= ids_of(events@) + ids_of(entities@));
                                    assert(!ids_of(en0).contains(fresh.id) && !ids_of(events@).contains(fresh.id)) by {
                                        if ids_of(en0).contains(fresh.id) {
                                            let w = choose|w: int| 0 <= w < ids_of(en0).len() && ids_of(en0)[w] == fresh.id;
                                            assert(t0[ids_of(events@).len() + w] == fresh.id);
                                        }
                                        if ids_of(events@).contains(fresh.id) {
                                            let w = choose|w: int| 0 <= w < ids_of(events@).len() && ids_of(events@)[w] == fresh.id;
                                            assert(t0[w] == fresh.id);
                                        }
                                    }
                                    assert forall|a: int, b: int| 0 <= a < b < ids_of(entities@).len() implies ids_of(entities@)[a] != ids_of(entities@)[b] by {
                                        if b == en0.len() {
                                            assert(ids_of(en0).contains(ids_of(entities@)[a]));
                                        } else {
                                            assert(ids_of(entities@)[a] == ids_of(en0)[a]);
                                            assert(ids_of(entities@)[b] == ids_of(en0)[b]);
                                        }
                                    }
                                    assert forall|x: u128| ids_of(entities@).contains(x) implies !ids_of(events@).contains(x) by {
                                        vstd::seq_lib::lemma_seq_contains_after_push(ids_of(en0), fresh.id, x);
                                    }
                                }
                                entities.len() - 1
                            },
                        };
                        assert(entities@[idx as int].content@ == seg@);
                        proof {
                            assert forall|k: int| 0 <= k < pairs_before.len() implies pairs_mention(
                                #[trigger] pairs_before[k],
                                before.filter(|m: (Seq<char>, int)| m.1 < n_ev)[k],
                                entities@,
                                events@,
                            ) by {
                                let mm = before.filter(|m: (Seq<char>, int)| m.1 < n_ev)[k];
                                let w = choose|w: int| 0 <= w < e0.len() && (#[trigger] e0[w]).content@ == mm.0 && pairs_before[k].0 == e0[w].id;
                                assert(entities@[w] == e0[w]);
                            }
                        }
                        if users < events.len() {
                            pairs.push((entities[idx].id, events[users].id));
                            assert(pairs_mention(pairs@[pairs@.len() - 1], m, entities@, events@));
                            assert forall|k: int| 0 <= k < pairs@.len() implies pairs_mention(
                                #[trigger] pairs@[k],
                                done.filter(|m: (Seq<char>, int)| m.1 < n_ev)[k],
                                entities@,
                                events@,
                            ) by {
                                if k < pairs_before.len() {
                                    assert(pairs@[k] == pairs_before[k]);
                                }
                            }
                        }
                    } else {
                        assert(sv.subrange(0, j + 1).filter(|t: Seq<char>| qualifies(t)) =~= sv.subrange(0, j as int).filter(|t: Seq<char>| qualifies(t)));
                    }
                } else {
                    assert(sv.subrange(0, j + 1).filter(|t: Seq<char>| qualifies(t)) =~= sv.subrange(0, j as int).filter(|t: Seq<char>| qualifies(t)));
                }
                j = j + 1;
            }
            proof {
                assert(sv.subrange(0, sv.len() as int) =~= sv);
                assert(mentions_from(ms, i as int, users as int) == sv.filter(|t: Seq<char>| qualifies(t)).map_values(
                    |t: Seq<char>| (t, users as int),
                ) + mentions_from(ms, i + 1, users + 1));
                assert(mentions(ms) =~= done + mentions_from(ms, i + 1, users + 1));
            }
            users = users + 1;
        }
        i = i + 1;
    }
    proof {
        assert(done =~= mentions(ms));
        lemma_distinct_unique(mention_texts(done));
    }
    (entities, pairs)
}

/// The concept label of an entity type; `Other` has none.
pub open spec fn label_of(t: EntityType) -> Option<Seq<char>> {
    match t {
        EntityType::Person => Some("人物"@),
        EntityType::Place => Some("地点"@),
        EntityType::Time => Some("时间"@),
        EntityType::Object => Some("物品"@),
        EntityType::Other => None,
    }
}

/// The concept label of a node: that of its entity type, for an entity.
pub open spec fn node_label(n: MemoryNode) -> Option<Seq<char>> {
    match n.data {
        NodeData::Entity { entity_type, .. } => label_of(entity_type),
        _ => None,
    }
}

/// The entities of `es` that have a concept label.
pub open spec fn labeled(es: Seq<MemoryNode>) -> Seq<MemoryNode> {
    es.filter(|n: MemoryNode| node_label(n).is_some())
}

/// The labels of `es`, in order.
pub open spec fn labels(es: Seq<MemoryNode>) -> Seq<Seq<char>> {
    labeled(es).map_values(|n: MemoryNode| node_label(n).unwrap())
}

/// `e` conceptualizes entity `n` as the concept of its label among `concepts`.
pub open spec fn conceptualizes(e: Edge, n: MemoryNode, concepts: Seq<MemoryNode>) -> bool {
    &&& e.source == n.id
    &&& e.relation@ == CONCEPTUALIZED_AS@
    &&& exists|j: int|
        0 <= j < concepts.len() && Some((#[trigger] concepts[j]).content@) == node_label(n) && e.target
            == concepts[j].id
}

/// The label of an entity node's type.
fn label_text(n: &MemoryNode) -> (r: Option<&'static str>)
    ensures
        match r {
            Some(s) => node_label(*n) == Some(s@),
            None => node_label(*n).is_none(),
        },
{
    match &n.data {
        NodeData::Entity { entity_type, .. } => match entity_type {
            EntityType::Person => Some("人物"),
            EntityType::Place => Some("地点"),
            EntityType::Time => Some("时间"),
            EntityType::Object => Some("物品"),
            EntityType::Other => None,
        },
        _ => None,
    }
}

/// One concept node per label that the entities carry, each once, in order
/// of first use, and one edge from each labelled entity to its concept.
pub fn conceptualize_entities(entities: &Vec<MemoryNode>) -> (r: (Vec<MemoryNode>, Vec<Edge>))
    ensures
        contents(r.0@) == distinct(labels(entities@)),
        contents(r.0@).no_duplicates(),
        forall|j: int| 0 <= j < r.0@.len() ==> match (#[trigger] r.0@[j]).data {
            NodeData::Concept { instance_count, .. } => instance_count == 1,
            _ => false,
        },
        r.1@.len() == labeled(entities@).len(),
        forall|k: int| 0 <= k < r.1@.len() ==> conceptualizes(#[trigger] r.1@[k], labeled(entities@)[k], r.0@),
        ids_of(r.0@).no_duplicates(),
        forall|x: u128| ids_of(r.0@).contains(x) ==> !ids_of(entities@).contains(x),
{
    conceptualize_avoiding(entities, crate::subgraph::ids_vec(entities))
}

/// As `conceptualize_entities`, with concept identifiers that `taken` does
/// not hold.
fn conceptualize_avoiding(entities: &Vec<MemoryNode>, taken: Vec<u128>) -> (r: (Vec<MemoryNode>, Vec<Edge>))
    ensures
        contents(r.0@) == distinct(labels(entities@)),
        contents(r.0@).no_duplicates(),
        forall|j: int| 0 <= j < r.0@.len() ==> match (#[trigger] r.0@[j]).data {
            NodeData::Concept { instance_count, .. } => instance_count == 1,
            _ => false,
        },
        r.1@.len() == labeled(entities@).len(),
        forall|k: int| 0 <= k < r.1@.len() ==> conceptualizes(#[trigger] r.1@[k], labeled(entities@)[k], r.0@),
        ids_of(r.0@).no_duplicates(),
        forall|x: u128| ids_of(r.0@).contains(x) ==> !taken@.contains(x),
{
    let ghost es = entities@;
    let ghost taken0 = taken@;
    let mut taken = taken;
    let mut concepts: Vec<MemoryNode> = Vec::new();
    let mut edges: Vec<Edge> = Vec::new();
    let mut i: usize = 0;
    assert(taken@ =~= taken0 + ids_of(concepts@));
    proof {
        reveal(Seq::filter);
        assert(es.subrange(0, 0).filter(|n: MemoryNode| node_label(n).is_some()) =~= Seq::<MemoryNode>::empty());
        assert(labels(es.subrange(0, 0)) =~= Seq::<Seq<char>>::empty());
        assert(contents(concepts@) =~= Seq::<Seq<char>>::empty());
    }
    while i < entities.len()
        invariant
            es == entities@,
            i <= es.len(),
            contents(concepts@) == distinct(labels(es.subrange(0, i as int))),
            forall|j: int| 0 <= j < concepts@.len() ==> match (#[trigger] concepts@[j]).data {
                NodeData::Concept { instance_count, .. } => instance_count == 1,
                _ => false,
            },
            edges@.len() == labeled(es.subrange(0, i as int)).len(),
            forall|k: int| 0 <= k < edges@.len() ==> conceptualizes(#[trigger] edges@[k], labeled(es.subrange(0, i as int))[k], concepts@),
            taken@ == taken0 + ids_of(concepts@),
            ids_of(concepts@).no_duplicates(),
            forall|x: u128| ids_of(concepts@).contains(x) ==> !taken0.contains(x),
        decreases es.len() - i,
    {
        let ghost pre = es.subrange(0, i as int);
        let ghost n = es[i as int];
        proof {
            assert(es.subrange(0, i + 1) =~= pre.push(n));
            pre.lemma_filter_push(n, |n: MemoryNode| node_label(n).is_some());
        }
        match label_text(&entities[i]) {
            Some(name) => {
                let target = chars_of(name);
                let ghost c0 = concepts@;
                let ghost e0 = edges@;
                let idx = match find_by_content(&concepts, &target) {
                    Some(k) => {
                        assert(contents(concepts@)[k as int] == target@);
                        k
                    },
                    None => {
                        let ghost t0 = taken@;
                        let mut fresh = MemoryNode::new_concept(String::from_str(name));
                        claim_id(&mut fresh, &mut taken);
                        concepts.push(fresh);
                        assert(contents(concepts@) =~= contents(c0).push(target@));
                        proof {
                            assert(ids_of(concepts@) =~= ids_of(c0).push(fresh.id));
                            assert(taken@ =~= taken0 + ids_of(concepts@));
                            assert(!ids_of(c0).contains(fresh.id) && !taken0.contains(fresh.id)) by {
                                if ids_of(c0).contains(fresh.id) {
                                    let w = choose|w: int| 0 <= w < ids_of(c0).len() && ids_of(c0)[w] == fresh.id;
                                    assert(t0[taken0.len() + w] == fresh.id);
                                }
                                if taken0.contains(fresh.id) {
                                    let w = choose|w: int| 0 <= w < taken0.len() && taken0[w] == fresh.id;
                                    assert(t0[w] == fresh.id);
                                }
                            }
                            assert forall|a: int, b: int| 0 <= a < b < ids_of(concepts@).len() implies ids_of(concepts@)[a] != ids_of(concepts@)[b] by {
                                if b == c0.len() {
                                    assert(ids_of(c0).contains(ids_of(concepts@)[a]));
                                } else {
                                    assert(ids_of(concepts@)[a] == ids_of(c0)[a]);
                                    assert(ids_of(concepts@)[b] == ids_of(c0)[b]);
                                }
                            }
                            assert forall|x: u128| ids_of(concepts@).contains(x) implies !taken0.contains(x) by {
                                vstd::seq_lib::lemma_seq_contains_after_push(ids_of(c0), fresh.id, x);
                            }
                        }
                        concepts.len() - 1
                    },
                };
                proof {
                    assert(labeled(pre.push(n)) == labeled(pre).push(n));
                    assert(labels(pre.push(n)) =~= labels(pre).push(target@));
                    assert(labels(pre.push(n)).drop_last() =~= labels(pre));
                    assert forall|k: int| 0 <= k < e0.len() implies conceptualizes(#[trigger] e0[k], labeled(pre)[k], concepts@) by {
                        let w = choose|w: int|
                            0 <= w < c0.len() && Some((#[trigger] c0[w]).content@) == node_label(labeled(pre)[k]) && e0[k].target
                                == c0[w].id;
                        assert(concepts@[w] == c0[w]);
                    }
                }
                let e = Edge::new(entities[i].id, concepts[idx].id, String::from_str(CONCEPTUALIZED_AS));
                edges.push(e);
                proof {
                    assert(conceptualizes(edges@[edges@.len() - 1], n, concepts@));
                    assert forall|k: int| 0 <= k < edges@.len() implies conceptualizes(#[trigger] edges@[k], labeled(pre.push(n))[k], concepts@) by {
                        if k < e0.len() {
                            assert(edges@[k] == e0[k]);
                        }
                    }
                }
            },
            None => {
                proof {
                    assert(labels(pre.push(n)) =~= labels(pre));
                }
            },
        }
        i = i + 1;
    }
    proof {
        assert(es.subrange(0, es.len() as int) =~= es);
        lemma_distinct_unique(labels(es));
    }
    (concepts, edges)
}

/// What one save writes: the new nodes (events, then entities, then
/// concepts), the new edges (participation, then conceptualization) and the
/// concept names whose pool entries are to be upserted.
pub struct SavePlan {
    pub nodes: Vec<MemoryNode>,
    pub edges: Vec<Edge>,
    pub concept_names: Vec<String>,
}

/// The mentions of `ms` whose turn has an event among `n_events`.
pub open spec fn paired_mentions(ms: Seq<Message>, n_events: int) -> Seq<(Seq<char>, int)> {
    mentions(ms).filter(|m: (Seq<char>, int)| m.1 < n_events)
}

/// `r` is what saving `ms` writes, with `now` stamping events whose message
/// has no usable timestamp.
pub open spec fn is_save_plan(ms: Seq<Message>, now: Seq<char>, r: SavePlan) -> bool {
    let t = turns(ms).len() as int;
    let e = distinct(mention_texts(mentions(ms))).len() as int;
    let ns = r.nodes@;
    let ents = ns.subrange(t, t + e);
    let cons = ns.subrange(t + e, ns.len() as int);
    let pm = paired_mentions(ms, t);
    &&& t + e <= ns.len()
    &&& forall|k: int| 0 <= k < t ==> is_event_for(#[trigger] ns[k], ms, turns(ms)[k], now)
    &&& contents(ents) == distinct(mention_texts(mentions(ms)))
    &&& forall|j: int| 0 <= j < e ==> (#[trigger] ents[j]).data == (NodeData::Entity {
        entity_type: entity_type_of(ents[j].content@),
        attributes: None,
    })
    &&& contents(cons) == distinct(labels(ents))
    &&& forall|j: int| 0 <= j < cons.len() ==> match (#[trigger] cons[j]).data {
        NodeData::Concept { instance_count, .. } => instance_count == 1,
        _ => false,
    }
    &&& r.edges@.len() == pm.len() + labeled(ents).len()
    &&& forall|k: int| 0 <= k < pm.len() ==> pairs_mention(
        ((#[trigger] r.edges@[k]).source, r.edges@[k].target),
        pm[k],
        ents,
        ns.subrange(0, t),
    ) && r.edges@[k].relation@ == PARTICIPATES_IN@
    &&& forall|k: int| 0 <= k < labeled(ents).len() ==> conceptualizes(
        #[trigger] r.edges@[pm.len() + k],
        labeled(ents)[k],
        cons,
    )
    &&& string_views(r.concept_names@) == contents(cons)
    &&& ids_of(ns).no_duplicates()
}

/// Distills a batch of messages into the nodes and edges to persist:
/// events from the turns, entities from the user messages' segments, one
/// concept per label of those entities, participation edges from entities
/// to the events that mention them and conceptualization edges from
/// entities to their concepts. `now_time` stamps events whose message has
/// no usable timestamp.
pub fn plan_save(messages: &Vec<Message>, now_time: &String) -> (r: SavePlan)
    ensures
        is_save_plan(messages@, now_time@, r),
{
    let ghost ms = messages@;
    let mut nodes = messages_to_events(messages, now_time);
    let (mut entities, pairs) = extract_entities(messages, &nodes);
    let mut used = crate::subgraph::ids_vec(&nodes);
    let mut entity_ids = crate::subgraph::ids_vec(&entities);
    used.append(&mut entity_ids);
    let ghost used_view = used@;
    let (mut concepts, mut concept_edges) = conceptualize_avoiding(&entities, used);
    let ghost ev = nodes@;
    let ghost en = entities@;
    let ghost co = concepts@;
    let mut edges: Vec<Edge> = Vec::new();
    let mut k: usize = 0;
    while k < pairs.len()
        invariant
            k <= pairs@.len(),
            edges@.len() == k,
            forall|q: int| 0 <= q < k ==> (#[trigger] edges@[q]).source == pairs@[q].0 && edges@[q].target
                == pairs@[q].1 && edges@[q].relation@ == PARTICIPATES_IN@,
        decreases pairs@.len() - k,
    {
        let (a, b) = pairs[k];
        edges.push(Edge::new(a, b, String::from_str(PARTICIPATES_IN)));
        k = k + 1;
    }
    let ghost pe = edges@;
    edges.append(&mut concept_edges);
    let mut names: Vec<String> = Vec::new();
    let mut j: usize = 0;
    while j < concepts.len()
        invariant
            j <= concepts@.len(),
            string_views(names@) == contents(concepts@.subrange(0, j as int)),
        decreases concepts@.len() - j,
    {
        let ghost before = names@;
        let name = concepts[j].content.clone();
        names.push(name);
        proof {
            assert(concepts@.subrange(0, j + 1) =~= concepts@.subrange(0, j as int).push(concepts@[j as int]));
            assert(names@ =~= before.push(name));
            assert(string_views(before.push(name)) =~= string_views(before).push(name@));
            assert(contents(concepts@.subrange(0, j as int).push(concepts@[j as int])) =~= contents(
                concepts@.subrange(0, j as int),
            ).push(concepts@[j as int].content@));
        }
        j = j + 1;
        assert(string_views(names@) =~= contents(concepts@.subrange(0, j as int)));
    }
    assert(concepts@.subrange(0, concepts@.len() as int) =~= concepts@);
    nodes.append(&mut entities);
    nodes.append(&mut concepts);
    proof {
        let t = ev.len() as int;
        let e = en.len() as int;
        assert(nodes@.subrange(t, t + e) =~= en);
        assert(nodes@.subrange(t + e, nodes@.len() as int) =~= co);
        assert(nodes@.subrange(0, t) =~= ev);
        let iv = ids_of(ev);
        let ie = ids_of(en);
        let ic = ids_of(co);
        assert(used_view =~= iv + ie);
        assert(ids_of(nodes@) =~= iv + ie + ic);
        assert forall|a: int, b: int| 0 <= a < b < ids_of(nodes@).len() implies ids_of(nodes@)[a] != ids_of(nodes@)[b] by {
            let all = ids_of(nodes@);
            if b < t {
                assert(all[a] == iv[a] && all[b] == iv[b]);
            } else if b < t + e {
                assert(all[b] == ie[b - t]);
                assert(ie.contains(all[b]));
                if a < t {
                    assert(all[a] == iv[a]);
                    assert(iv.contains(all[a]));
                } else {
                    assert(all[a] == ie[a - t]);
                }
            } else {
                assert(all[b] == ic[b - t - e]);
                assert(ic.contains(all[b]));
                assert(!used_view.contains(all[b]));
                if a < t + e {
                    assert(all[a] == used_view[a]);
                } else {
                    assert(all[a] == ic[a - t - e]);
                }
            }
        }
        assert forall|q: int| 0 <= q < t implies is_event_for(#[trigger] nodes@[q], ms, turns(ms)[q], now_time@) by {
            assert(nodes@[q] == ev[q]);
        }
        assert forall|q: int| 0 <= q < pe.len() implies pairs_mention(
            ((#[trigger] edges@[q]).source, edges@[q].target),
            paired_mentions(ms, t)[q],
            en,
            ev,
        ) by {
            assert(edges@[q] == pe[q]);
        }
    }
    SavePlan { nodes, edges, concept_names: names }
}

/// The event saved for a turn holds the user's message as a substring, so a
/// search for that message can find it in the event's text.
pub proof fn lemma_event_holds_user_text(ms: Seq<Message>, t: (int, int))
    requires
        0 <= t.0 < ms.len(),
        t.1 < ms.len(),
    ensures
        contains(event_text(ms, t), ms[t.0].content@),
{
    reveal_strlit("用户说：");
    let head = "用户说："@;
    let c = ms[t.0].content@;
    let full = event_text(ms, t);
    assert(full.subrange(head.len() as int, (head.len() + c.len()) as int) =~= c);
    assert(occurs_at(full, c, head.len() as int));
}

proof fn lemma_filter_ids_unique(s: Seq<MemoryNode>, p: spec_fn(MemoryNode) -> bool)
    requires
        ids_of(s).no_duplicates(),
    ensures
        ids_of(s.filter(p)).no_duplicates(),
    decreases s.len(),
{
    if s.len() > 0 {
        let t = s.drop_last();
        let x = s.last();
        assert(s =~= t.push(x));
        assert(ids_of(t) =~= ids_of(s).drop_last());
        assert(ids_of(t).no_duplicates()) by {
            assert forall|a: int, b: int| 0 <= a < b < ids_of(t).len() implies ids_of(t)[a] != ids_of(t)[b] by {
                assert(ids_of(t)[a] == ids_of(s)[a] && ids_of(t)[b] == ids_of(s)[b]);
            }
        }
        lemma_filter_ids_unique(t, p);
        t.lemma_filter_push(x, p);
        if p(x) {
            let f = t.filter(p);
            assert(ids_of(f.push(x)) =~= ids_of(f).push(x.id));
            if ids_of(f).contains(x.id) {
                let w = choose|w: int| 0 <= w < ids_of(f).len() && ids_of(f)[w] == x.id;
                let y = f[w];
                assert(f.contains(y));
                t.lemma_filter_contains_rev(p, y);
                let v = choose|v: int| 0 <= v < t.len() && t[v] == y;
                assert(ids_of(s)[v] == x.id);
                assert(ids_of(s)[s.len() - 1] == x.id);
            }
            assert forall|a: int, b: int| 0 <= a < b < ids_of(f.push(x)).len() implies ids_of(f.push(x))[a] != ids_of(
                f.push(x),
            )[b] by {
                if b == f.len() {
                    assert(ids_of(f).contains(ids_of(f.push(x))[a]));
                } else {
                    assert(ids_of(f.push(x))[a] == ids_of(f)[a]);
                    assert(ids_of(f.push(x))[b] == ids_of(f)[b]);
                }
            }
        }
    }
}

/// A save writes each entity text once, each concept once, and one
/// conceptualization edge per labelled entity: no two entity nodes share
/// their content, no two concept nodes do, and no two conceptualization
/// edges leave the same entity.
pub proof fn lemma_save_plan_dedup(ms: Seq<Message>, now: Seq<char>, r: SavePlan)
    requires
        is_save_plan(ms, now, r),
    ensures
        ({
            let t = turns(ms).len() as int;
            let e = distinct(mention_texts(mentions(ms))).len() as int;
            let ns = r.nodes@;
            let ents = ns.subrange(t, t + e);
            let cons = ns.subrange(t + e, ns.len() as int);
            let pm = paired_mentions(ms, t);
            &&& forall|i: int, j: int| 0 <= i < j < e ==> (#[trigger] ents[i]).content@ != (#[trigger] ents[j]).content@
            &&& forall|i: int, j: int|
                0 <= i < j < cons.len() ==> (#[trigger] cons[i]).content@ != (#[trigger] cons[j]).content@
            &&& forall|i: int, j: int|
                0 <= i < j < labeled(ents).len() ==> (#[trigger] r.edges@[pm.len() + i]).source != (#[trigger] r.edges@[pm.len()
                    + j]).source
            &&& forall|k: int| 0 <= k < labeled(ents).len() ==> (#[trigger] r.edges@[pm.len() + k]).relation@ == CONCEPTUALIZED_AS@
        }),
{
    let t = turns(ms).len() as int;
    let e = distinct(mention_texts(mentions(ms))).len() as int;
    let ns = r.nodes@;
    let ents = ns.subrange(t, t + e);
    let cons = ns.subrange(t + e, ns.len() as int);
    let pm = paired_mentions(ms, t);
    lemma_distinct_unique(mention_texts(mentions(ms)));
    lemma_distinct_unique(labels(ents));
    assert forall|i: int, j: int| 0 <= i < j < e implies (#[trigger] ents[i]).content@ != (#[trigger] ents[j]).content@ by {
        assert(contents(ents)[i] == ents[i].content@ && contents(ents)[j] == ents[j].content@);
    }
    assert forall|i: int, j: int| 0 <= i < j < cons.len() implies (#[trigger] cons[i]).content@ != (#[trigger] cons[j]).content@ by {
        assert(contents(cons)[i] == cons[i].content@ && contents(cons)[j] == cons[j].content@);
    }
    assert(ids_of(ents).no_duplicates()) by {
        assert forall|a: int, b: int| 0 <= a < b < ids_of(ents).len() implies ids_of(ents)[a] != ids_of(ents)[b] by {
            assert(ids_of(ents)[a] == ids_of(ns)[t + a] && ids_of(ents)[b] == ids_of(ns)[t + b]);
        }
    }
    lemma_filter_ids_unique(ents, |n: MemoryNode| node_label(n).is_some());
    assert forall|i: int, j: int|
        0 <= i < j < labeled(ents).len() implies (#[trigger] r.edges@[pm.len() + i]).source != (#[trigger] r.edges@[pm.len()
            + j]).source by {
        assert(conceptualizes(r.edges@[pm.len() + i], labeled(ents)[i], cons));
        assert(conceptualizes(r.edges@[pm.len() + j], labeled(ents)[j], cons));
        assert(ids_of(labeled(ents))[i] == labeled(ents)[i].id && ids_of(labeled(ents))[j] == labeled(ents)[j].id);
    }
    assert forall|k: int| 0 <= k < labeled(ents).len() implies (#[trigger] r.edges@[pm.len() + k]).relation@ == CONCEPTUALIZED_AS@ by {
        assert(conceptualizes(r.edges@[pm.len() + k], labeled(ents)[k], cons));
    }
}

} // verus!
