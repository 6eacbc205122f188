use vstd::prelude::*;
use crate::clock::{Timestamp, utc_now};
use crate::types::{Drawer, Triple, triple_views, opt_string_view};
use crate::text::{concat, i64_to_decimal, signed_decimal, opt_view, take_at_most};
use crate::vector::{VectorStorage, StoredDrawer, rows_without, recalled};
use crate::knowledge_graph::{KnowledgeGraph, latest_chronological, select_involving, entity_id, sort_oldest_first};

verus! {

/// What a request to add a drawer gives: where to file it and what it holds, with the
/// optional importance as the IEEE-754 bits of its score.
pub struct AddDrawerParams {
    pub wing: String,
    pub room: String,
    pub content: String,
    pub topic: Option<String>,
    pub importance: Option<u64>,
    pub agent: Option<String>,
    pub hall: Option<String>,
    pub drawer_type: Option<String>,
    pub date: Option<String>,
}

/// The IEEE-754 bits of the default importance, 3.0.
pub open spec fn default_importance() -> u64 {
    0x4008_0000_0000_0000u64
}

pub open spec fn opt_or(o: Option<String>, d: Seq<char>) -> Seq<char> {
    match o {
        Some(s) => s@,
        None => d,
    }
}

/// The id of a drawer added at `millis`: `drawer_{wing}_{room}_{millis}`.
pub open spec fn added_drawer_id(wing: Seq<char>, room: Seq<char>, millis: i64) -> Seq<char> {
    "drawer_"@ + wing + "_"@ + room + "_"@ + signed_decimal(millis as int)
}

/// What the drawer of an add request holds, filed at time `now`.
pub open spec fn added_drawer(p: AddDrawerParams, now: Timestamp, d: Drawer) -> bool {
    &&& d.id@ == added_drawer_id(p.wing@, p.room@, now.millis)
    &&& d.content@ == p.content@
    &&& d.wing@ == p.wing@
    &&& d.room@ == p.room@
    &&& d.source_file@ == "mcp"@
    &&& d.source_mtime == 0
    &&& d.chunk_index == 0
    &&& d.added_by@ == opt_or(p.agent, "mcp"@)
    &&& d.filed_at@ == now.rfc3339@
    &&& d.hall@ == opt_or(p.hall, Seq::empty())
    &&& d.topic@ == opt_or(p.topic, Seq::empty())
    &&& d.drawer_type@ == opt_or(p.drawer_type, Seq::empty())
    &&& d.agent@ == opt_or(p.agent, Seq::empty())
    &&& d.date@ == opt_or(p.date, Seq::empty())
    &&& d.importance == match p.importance {
        Some(b) => b,
        None => default_importance(),
    }
}

fn owned_or(o: Option<String>, d: &str) -> (r: String)
    ensures
        r@ == opt_or(o, d@),
{
    match o {
        Some(s) => s,
        None => d.to_owned(),
    }
}

fn stamped_id(prefix: &str, middle: &str, millis: i64) -> (r: String)
    ensures
        r@ == prefix@ + middle@ + "_"@ + signed_decimal(millis as int),
{
    let s = concat(prefix, middle);
    let s = concat(s.as_str(), "_");
    let n = i64_to_decimal(millis);
    concat(s.as_str(), n.as_str())
}

/// The drawer of an add request, filed at time `now`.
pub fn drawer_for_add(p: AddDrawerParams, now: &Timestamp) -> (r: Drawer)
    ensures
        added_drawer(p, *now, r),
{
    proof {
        reveal_strlit("");
        reveal_strlit("mcp");
        assert(""@ =~= Seq::<char>::empty());
    }
    let head = concat("drawer_", p.wing.as_str());
    let head = concat(head.as_str(), "_");
    let id = stamped_id(head.as_str(), p.room.as_str(), now.millis);
    let added_by = match &p.agent {
        Some(a) => a.clone(),
        None => "mcp".to_owned(),
    };
    Drawer {
        id,
        content: p.content,
        wing: p.wing,
        room: p.room,
        source_file: "mcp".to_owned(),
        source_mtime: 0,
        chunk_index: 0,
        added_by,
        filed_at: now.rfc3339.clone(),
        hall: owned_or(p.hall, ""),
        topic: owned_or(p.topic, ""),
        drawer_type: owned_or(p.drawer_type, ""),
        agent: owned_or(p.agent, ""),
        date: owned_or(p.date, ""),
        importance: match p.importance {
            Some(b) => b,
            None => 0x4008_0000_0000_0000u64,
        },
    }
}

/// Files the drawer of an add request now, with the JSON text of its vector, and
/// returns its id.
pub fn add_drawer(storage: &mut VectorStorage, p: AddDrawerParams, vector: String) -> (r: String)
    ensures
        exists|now: Timestamp, d: Drawer|
            {
                &&& added_drawer(p, now, d)
                &&& crate::clock::same_date(now)
                &&& r@ == d.id@
                &&& final(storage).table() == rows_without(old(storage).table(), d.id@).push(
                    StoredDrawer { drawer: d, vector },
                )
            },
        final(storage).path() == old(storage).path(),
{
    let now = utc_now();
    let ghost q = p;
    let d = drawer_for_add(p, &now);
    let id = d.id.clone();
    let ghost dv = d;
    storage.add_drawer(d, vector);
    assert(added_drawer(q, now, dv));
    id
}

/// The wing of an agent's diary: `diary_{agent}`.
pub open spec fn diary_wing_of(agent: Seq<char>) -> Seq<char> {
    "diary_"@ + agent
}

/// The wing of an agent's diary.
pub fn diary_wing(agent_name: &str) -> (r: String)
    ensures
        r@ == diary_wing_of(agent_name@),
{
    concat("diary_", agent_name)
}

/// What a diary entry of `agent` written at time `now` holds.
pub open spec fn diary_drawer_of(agent: Seq<char>, entry: Seq<char>, topic: Option<String>, now: Timestamp, d: Drawer) -> bool {
    &&& d.id@ == "diary_"@ + agent + "_"@ + signed_decimal(now.millis as int)
    &&& d.content@ == entry
    &&& d.wing@ == diary_wing_of(agent)
    &&& d.room@ == "entries"@
    &&& d.source_file@ == "mcp"@
    &&& d.source_mtime == 0
    &&& d.chunk_index == 0
    &&& d.added_by@ == agent
    &&& d.filed_at@ == now.rfc3339@
    &&& d.hall@ == Seq::<char>::empty()
    &&& d.topic@ == opt_or(topic, Seq::empty())
    &&& d.drawer_type@ == "diary"@
    &&& d.agent@ == agent
    &&& d.date@ == now.date@
    &&& d.importance == default_importance()
}

/// The drawer of a diary entry of `agent_name` written at time `now`.
pub fn diary_drawer(agent_name: &str, entry: &str, topic: Option<String>, now: &Timestamp) -> (r: Drawer)
    ensures
        diary_drawer_of(agent_name@, entry@, topic, *now, r),
{
    proof {
        reveal_strlit("");
        assert(""@ =~= Seq::<char>::empty());
    }
    let id = stamped_id("diary_", agent_name, now.millis);
    Drawer {
        id,
        content: entry.to_owned(),
        wing: diary_wing(agent_name),
        room: "entries".to_owned(),
        source_file: "mcp".to_owned(),
        source_mtime: 0,
        chunk_index: 0,
        added_by: agent_name.to_owned(),
        filed_at: now.rfc3339.clone(),
        hall: String::new(),
        topic: owned_or(topic, ""),
        drawer_type: "diary".to_owned(),
        agent: agent_name.to_owned(),
        date: now.date.clone(),
        importance: 0x4008_0000_0000_0000u64,
    }
}

/// Files a diary entry of `agent_name` now, with the JSON text of its vector, and
/// returns its id.
pub fn diary_write(storage: &mut VectorStorage, agent_name: &str, entry: &str, topic: Option<String>, vector: String) -> (r: String)
    ensures
        exists|now: Timestamp, d: Drawer|
            {
                &&& diary_drawer_of(agent_name@, entry@, topic, now, d)
                &&& crate::clock::same_date(now)
                &&& d.filed_at@.take(d.date@.len() as int) == d.date@
                &&& r@ == d.id@
                &&& final(storage).table() == rows_without(old(storage).table(), d.id@).push(
                    StoredDrawer { drawer: d, vector },
                )
            },
        final(storage).path() == old(storage).path(),
{
    let now = utc_now();
    let ghost t = topic;
    let d = diary_drawer(agent_name, entry, topic, &now);
    let id = d.id.clone();
    let ghost dv = d;
    storage.add_drawer(d, vector);
    assert(diary_drawer_of(agent_name@, entry@, t, now, dv));
    id
}

/// The `limit` most important entries of an agent's diary.
pub fn diary_read(storage: &VectorStorage, agent_name: &str, limit: usize) -> (r: Vec<Drawer>)
    ensures
        r@ == recalled(storage.table(), Some(diary_wing_of(agent_name@)), Some("entries"@), limit as nat),
{
    let wing = diary_wing(agent_name);
    storage.get_all(Some(wing.as_str()), Some("entries"), limit)
}

/// The timeline of an entity, or of the whole graph when no entity is named: the newest
/// `limit` triples, in chronological order.
pub fn kg_timeline(kg: &KnowledgeGraph, entity: Option<&str>, limit: usize) -> (r: Vec<Triple>)
    ensures
        triple_views(r@) == match entity {
            Some(e) => if e@.len() == 0 {
                latest_chronological(kg.triple_rows(), limit as nat)
            } else {
                latest_chronological(select_involving(kg.triple_rows(), entity_id(e@)), limit as nat)
            },
            None => latest_chronological(kg.triple_rows(), limit as nat),
        },
{
    match entity {
        Some(e) => if e.is_empty() {
            sort_oldest_first(kg.all_triples(limit))
        } else {
            kg.timeline(e, limit)
        },
        None => sort_oldest_first(kg.all_triples(limit)),
    }
}

} // verus!
