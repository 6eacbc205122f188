use vstd::prelude::*;
use crate::error::MemPalaceError;
use crate::text::{
    str_eq, concat, has_infix, replace_all, str_contains, replace_str, join_words, lemma_join_push,
    decimal, u64_to_decimal, str_views, distinct_seq, dedupe_strings,
};

verus! {

/// How the haystack of a question is cut into corpus items: one per session, or one per
/// user turn.
#[derive(Clone, Copy, PartialEq, Eq, Debug, Structural)]
pub enum LongMemEvalGranularity {
    Session,
    Turn,
}

impl LongMemEvalGranularity {
    /// The name of the granularity.
    pub open spec fn name(self) -> Seq<char> {
        match self {
            LongMemEvalGranularity::Session => "session"@,
            LongMemEvalGranularity::Turn => "turn"@,
        }
    }

    /// The name of the granularity: "session" or "turn".
    pub fn as_str(self) -> (r: &'static str)
        ensures
            r@ == self.name(),
    {
        match self {
            LongMemEvalGranularity::Session => "session",
            LongMemEvalGranularity::Turn => "turn",
        }
    }
}

/// The granularity named `value`: "session" or "turn".
pub fn parse_granularity(value: &str) -> (r: Result<LongMemEvalGranularity, MemPalaceError>)
    ensures
        match r {
            Ok(g) => value@ == g.name(),
            Err(e) => value@ != "session"@ && value@ != "turn"@ && e.0@ == "unsupported granularity: "@
                + value@,
        },
{
    proof {
        reveal_strlit("session");
        reveal_strlit("turn");
    }
    if str_eq(value, "session") {
        Ok(LongMemEvalGranularity::Session)
    } else if str_eq(value, "turn") {
        Ok(LongMemEvalGranularity::Turn)
    } else {
        Err(MemPalaceError(concat("unsupported granularity: ", value)))
    }
}

impl std::str::FromStr for LongMemEvalGranularity {
    type Err = MemPalaceError;

    fn from_str(value: &str) -> (r: Result<Self, MemPalaceError>)
        ensures
            match r {
                Ok(g) => value@ == g.name(),
                Err(e) => value@ != "session"@ && value@ != "turn"@ && e.0@ == "unsupported granularity: "@
                    + value@,
            },
    {
        parse_granularity(value)
    }
}

/// The settings of a benchmark run.
pub struct LongMemEvalBenchmarkOptions {
    pub granularity: LongMemEvalGranularity,
    pub max_questions: Option<usize>,
    pub output_path: Option<String>,
}

/// One turn of a conversation session.
pub struct LongMemEvalTurn {
    pub role: String,
    pub content: String,
    pub has_answer: Option<bool>,
}

/// One question of the dataset, with the sessions that make up its haystack.
pub struct LongMemEvalEntry {
    pub question_id: String,
    pub question_type: String,
    pub question: String,
    pub answer: String,
    pub question_date: String,
    pub haystack_session_ids: Vec<String>,
    pub haystack_dates: Vec<String>,
    pub haystack_sessions: Vec<Vec<LongMemEvalTurn>>,
    pub answer_session_ids: Vec<String>,
}

/// A document of the retrieval corpus.
pub struct CorpusItem {
    pub id: String,
    pub text: String,
    pub timestamp: String,
    pub chunk_index: i64,
}

/// What a corpus item holds, as mathematical values.
pub struct CorpusItemView {
    pub id: Seq<char>,
    pub text: Seq<char>,
    pub timestamp: Seq<char>,
    pub chunk_index: i64,
}

impl View for CorpusItem {
    type V = CorpusItemView;

    open spec fn view(&self) -> CorpusItemView {
        CorpusItemView { id: self.id@, text: self.text@, timestamp: self.timestamp@, chunk_index: self.chunk_index }
    }
}

pub open spec fn item_views(s: Seq<CorpusItem>) -> Seq<CorpusItemView> {
    s.map_values(|i: CorpusItem| i@)
}

pub open spec fn is_user(t: LongMemEvalTurn) -> bool {
    t.role@ == "user"@
}

/// Whether the turn holds the answer: `has_answer` is set and true.
pub open spec fn holds_answer(t: LongMemEvalTurn) -> bool {
    t.has_answer == Some(true)
}

/// The contents of the user turns of a session, in order.
pub open spec fn user_contents(session: Seq<LongMemEvalTurn>) -> Seq<Seq<char>>
    decreases session.len(),
{
    if session.len() == 0 {
        Seq::empty()
    } else if is_user(session.last()) {
        user_contents(session.drop_last()).push(session.last().content@)
    } else {
        user_contents(session.drop_last())
    }
}

/// Whether no user turn of the session holds the answer.
pub open spec fn no_user_answer(session: Seq<LongMemEvalTurn>) -> bool {
    forall|k: int| 0 <= k < session.len() && is_user(#[trigger] session[k]) ==> !holds_answer(session[k])
}

/// The id of a session item: the session id, with "answer" written "noans" when the
/// id names an answer session but no user turn of it holds the answer.
pub open spec fn session_item_id(sid: Seq<char>, session: Seq<LongMemEvalTurn>) -> Seq<char> {
    if has_infix(sid, "answer"@) && no_user_answer(session) {
        replace_all(sid, "answer"@, "noans"@)
    } else {
        sid
    }
}

/// The id of the item of turn `k` (counted from 0): `{sid}_{k+1}`, with "answer"
/// written "noans" when the session id names an answer session but the turn does not
/// hold the answer.
pub open spec fn turn_item_id(sid: Seq<char>, t: LongMemEvalTurn, k: nat) -> Seq<char> {
    let id = sid + "_"@ + decimal(k + 1);
    if has_infix(sid, "answer"@) && !holds_answer(t) {
        replace_all(id, "answer"@, "noans"@)
    } else {
        id
    }
}

/// The (id, text, timestamp) items of the user turns of a session.
pub open spec fn turn_items(sid: Seq<char>, session: Seq<LongMemEvalTurn>, ts: Seq<char>) -> Seq<(Seq<char>, Seq<char>, Seq<char>)>
    decreases session.len(),
{
    if session.len() == 0 {
        Seq::empty()
    } else if is_user(session.last()) {
        turn_items(sid, session.drop_last(), ts).push(
            (turn_item_id(sid, session.last(), (session.len() - 1) as nat), session.last().content@, ts),
        )
    } else {
        turn_items(sid, session.drop_last(), ts)
    }
}

/// The (id, text, timestamp) items of one session.
pub open spec fn session_items(
    sid: Seq<char>,
    session: Seq<LongMemEvalTurn>,
    ts: Seq<char>,
    granularity: LongMemEvalGranularity,
) -> Seq<(Seq<char>, Seq<char>, Seq<char>)> {
    match granularity {
        LongMemEvalGranularity::Session => seq![
            (session_item_id(sid, session), join_words(user_contents(session), ' '), ts),
        ],
        LongMemEvalGranularity::Turn => turn_items(sid, session, ts),
    }
}

/// How many sessions have an id, turns and a date.
pub open spec fn session_count(e: LongMemEvalEntry) -> nat {
    let a = e.haystack_session_ids@.len();
    let b = e.haystack_sessions@.len();
    let c = e.haystack_dates@.len();
    if a <= b && a <= c {
        a
    } else if b <= c {
        b
    } else {
        c
    }
}

/// The (id, text, timestamp) items of the first `n` sessions.
pub open spec fn raw_corpus(e: LongMemEvalEntry, granularity: LongMemEvalGranularity, n: nat) -> Seq<(Seq<char>, Seq<char>, Seq<char>)>
    decreases n,
{
    if n == 0 {
        Seq::empty()
    } else {
        let k = (n - 1) as int;
        raw_corpus(e, granularity, (n - 1) as nat) + session_items(
            e.haystack_session_ids@[k]@,
            e.haystack_sessions@[k]@,
            e.haystack_dates@[k]@,
            granularity,
        )
    }
}

/// The corpus of a question: its items numbered in order.
pub open spec fn corpus_of(e: LongMemEvalEntry, granularity: LongMemEvalGranularity) -> Seq<CorpusItemView> {
    let raw = raw_corpus(e, granularity, session_count(e));
    Seq::new(raw.len(), |k: int| CorpusItemView {
        id: raw[k].0,
        text: raw[k].1,
        timestamp: raw[k].2,
        chunk_index: k as i64,
    })
}

fn holds_answer_exec(t: &LongMemEvalTurn) -> (r: bool)
    ensures
        r == holds_answer(*t),
{
    match t.has_answer {
        Some(b) => b,
        None => false,
    }
}

fn is_user_exec(t: &LongMemEvalTurn) -> (r: bool)
    ensures
        r == is_user(*t),
{
    proof {
        reveal_strlit("user");
    }
    str_eq(t.role.as_str(), "user")
}

/// The session item of `session`.
#[verifier::loop_isolation(false)]
fn session_item(sid: &String, session: &Vec<LongMemEvalTurn>, ts: &String) -> (r: (String, String))
    ensures
        (r.0@, r.1@, ts@) == session_items(sid@, session@, ts@, LongMemEvalGranularity::Session)[0],
{
    let mut text = String::new();
    let mut any_user = false;
    let mut no_answer = true;
    let mut j: usize = 0;
    assert(session@.take(0) =~= Seq::<LongMemEvalTurn>::empty());
    while j < session.len()
        invariant
            j <= session@.len(),
            text@ == join_words(user_contents(session@.take(j as int)), ' '),
            any_user == (user_contents(session@.take(j as int)).len() > 0),
            no_answer == no_user_answer(session@.take(j as int)),
        decreases session@.len() - j,
    {
        let ghost p = session@.take(j as int);
        let ghost n = session@.take(j + 1);
        assert(n.drop_last() =~= p);
        assert(n.last() == session@[j as int]);
        let t = &session[j];
        if is_user_exec(t) {
            proof {
                lemma_join_push(user_contents(p), t.content@, ' ');
            }
            if any_user {
                crate::text::push_char(&mut text, ' ');
            }
            text.append(t.content.as_str());
            any_user = true;
            if holds_answer_exec(t) {
                no_answer = false;
                assert(n[j as int] == *t);
            }
        }
        proof {
            if no_answer {
                assert forall|k: int| 0 <= k < n.len() && is_user(#[trigger] n[k]) implies !holds_answer(n[k]) by {
                    if k < j {
                        assert(n[k] == p[k]);
                    }
                }
            } else if !no_user_answer(p) {
                let k = choose|k: int| 0 <= k < p.len() && is_user(#[trigger] p[k]) && holds_answer(p[k]);
                assert(n[k] == p[k]);
            }
        }
        j = j + 1;
    }
    assert(session@.take(session@.len() as int) =~= session@);
    proof {
        reveal_strlit("answer");
        reveal_strlit("noans");
    }
    let id = if str_contains(sid.as_str(), "answer") && no_answer {
        replace_str(sid.as_str(), "answer", "noans")
    } else {
        sid.clone()
    };
    (id, text)
}

/// The items of the user turns of `session`, numbered from `first`.
#[verifier::loop_isolation(false)]
fn push_turn_items(
    items: &mut Vec<CorpusItem>,
    sid: &String,
    session: &Vec<LongMemEvalTurn>,
    ts: &String,
)
    ensures
        final(items)@.len() >= old(items)@.len(),
        final(items)@.take(old(items)@.len() as int) == old(items)@,
        forall|k: int|
            old(items)@.len() <= k < final(items)@.len() ==> (#[trigger] final(items)@[k]).chunk_index == k as i64,
        final(items)@.skip(old(items)@.len() as int).map_values(|i: CorpusItem| (i.id@, i.text@, i.timestamp@))
            == turn_items(sid@, session@, ts@),
{
    let ghost start = items@;
    let ghost proj = |i: CorpusItem| (i.id@, i.text@, i.timestamp@);
    proof {
        reveal_strlit("answer");
        reveal_strlit("noans");
        reveal_strlit("_");
    }
    let names_answer = str_contains(sid.as_str(), "answer");
    let mut j: usize = 0;
    assert(session@.take(0) =~= Seq::<LongMemEvalTurn>::empty());
    assert(items@.skip(start.len() as int) =~= Seq::<CorpusItem>::empty());
    while j < session.len()
        invariant
            j <= session@.len(),
            names_answer == has_infix(sid@, "answer"@),
            items@.len() >= start.len(),
            items@.take(start.len() as int) == start,
            forall|k: int| start.len() <= k < items@.len() ==> (#[trigger] items@[k]).chunk_index == k as i64,
            items@.skip(start.len() as int).map_values(proj) == turn_items(sid@, session@.take(j as int), ts@),
        decreases session@.len() - j,
    {
        let ghost p = session@.take(j as int);
        let ghost n = session@.take(j + 1);
        assert(n.drop_last() =~= p);
        assert(n.last() == session@[j as int]);
        let t = &session[j];
        if is_user_exec(t) {
            let base = concat(sid.as_str(), "_");
            let num = u64_to_decimal((j + 1) as u64);
            let id0 = concat(base.as_str(), num.as_str());
            let id = if names_answer && !holds_answer_exec(t) {
                replace_str(id0.as_str(), "answer", "noans")
            } else {
                id0
            };
            assert(id@ == turn_item_id(sid@, *t, j as nat));
            let idx = items.len() as i64;
            let ghost before = items@;
            items.push(CorpusItem { id, text: t.content.clone(), timestamp: ts.clone(), chunk_index: idx });
            assert(items@.take(start.len() as int) =~= before.take(start.len() as int));
            assert(items@.skip(start.len() as int).map_values(proj) =~= before.skip(start.len() as int).map_values(proj).push(
                (id@, t.content@, ts@),
            ));
        }
        j = j + 1;
    }
    assert(session@.take(session@.len() as int) =~= session@);
}

/// The retrieval corpus of a question: one item per session, made of its user turns
/// joined by spaces, or one item per user turn; items of an answer session that do not
/// hold the answer are renamed from "answer" to "noans".
#[verifier::loop_isolation(false)]
pub fn build_corpus_items(entry: &LongMemEvalEntry, granularity: LongMemEvalGranularity) -> (r: Vec<CorpusItem>)
    ensures
        item_views(r@) == corpus_of(*entry, granularity),
{
    let n = zip_count(entry);
    let ghost proj = |i: CorpusItem| (i.id@, i.text@, i.timestamp@);
    let mut items: Vec<CorpusItem> = Vec::new();
    let mut k: usize = 0;
    while k < n
        invariant
            n == session_count(*entry),
            k <= n,
            forall|j: int| 0 <= j < items@.len() ==> (#[trigger] items@[j]).chunk_index == j as i64,
            items@.map_values(proj) == raw_corpus(*entry, granularity, k as nat),
        decreases n - k,
    {
        let sid = &entry.haystack_session_ids[k];
        let session = &entry.haystack_sessions[k];
        let ts = &entry.haystack_dates[k];
        let ghost before = items@;
        match granularity {
            LongMemEvalGranularity::Session => {
                let (id, text) = session_item(sid, session, ts);
                let idx = items.len() as i64;
                items.push(CorpusItem { id, text, timestamp: ts.clone(), chunk_index: idx });
                assert(items@.map_values(proj) =~= before.map_values(proj) + session_items(
                    sid@, session@, ts@, granularity,
                ));
            },
            LongMemEvalGranularity::Turn => {
                push_turn_items(&mut items, sid, session, ts);
                assert(items@ =~= before + items@.skip(before.len() as int));
                assert(items@.map_values(proj) =~= before.map_values(proj) + items@.skip(before.len() as int).map_values(proj));
            },
        }
        k = k + 1;
    }
    let ghost raw = raw_corpus(*entry, granularity, n as nat);
    assert(item_views(items@) =~= corpus_of(*entry, granularity)) by {
        assert forall|j: int| 0 <= j < items@.len() implies item_views(items@)[j] == corpus_of(*entry, granularity)[j] by {
            assert(items@.map_values(proj)[j] == raw[j]);
        }
    }
    items
}

/// How many sessions have an id, turns and a date: the length of their zip.
pub fn zip_count(entry: &LongMemEvalEntry) -> (r: usize)
    ensures
        r == session_count(*entry),
{
    let a = entry.haystack_session_ids.len();
    let b = entry.haystack_sessions.len();
    let c = entry.haystack_dates.len();
    if a <= b && a <= c {
        a
    } else if b <= c {
        b
    } else {
        c
    }
}

} // verus!

verus! {

/// Whether some user turn of some session of the question holds the answer.
pub open spec fn has_target(e: LongMemEvalEntry) -> bool {
    exists|s: int, t: int|
        0 <= s < e.haystack_sessions@.len() && 0 <= t < e.haystack_sessions@[s]@.len()
            && is_user(#[trigger] e.haystack_sessions@[s]@[t]) && holds_answer(e.haystack_sessions@[s]@[t])
}

/// Whether some user turn of the question's haystack holds the answer.
pub fn has_target_user_turn(entry: &LongMemEvalEntry) -> (r: bool)
    ensures
        r == has_target(*entry),
{
    let mut s: usize = 0;
    while s < entry.haystack_sessions.len()
        invariant
            s <= entry.haystack_sessions@.len(),
            forall|a: int, t: int|
                0 <= a < s && 0 <= t < entry.haystack_sessions@[a]@.len() ==> !(is_user(
                    #[trigger] entry.haystack_sessions@[a]@[t],
                ) && holds_answer(entry.haystack_sessions@[a]@[t])),
        decreases entry.haystack_sessions@.len() - s,
    {
        let session = &entry.haystack_sessions[s];
        let mut t: usize = 0;
        while t < session.len()
            invariant
                s < entry.haystack_sessions@.len(),
                *session == entry.haystack_sessions@[s as int],
                t <= session@.len(),
                forall|a: int, u: int|
                    0 <= a < s && 0 <= u < entry.haystack_sessions@[a]@.len() ==> !(is_user(
                        #[trigger] entry.haystack_sessions@[a]@[u],
                    ) && holds_answer(entry.haystack_sessions@[a]@[u])),
                forall|u: int| 0 <= u < t ==> !(is_user(#[trigger] session@[u]) && holds_answer(session@[u])),
            decreases session@.len() - t,
        {
            if is_user_exec(&session[t]) && holds_answer_exec(&session[t]) {
                assert(is_user(entry.haystack_sessions@[s as int]@[t as int]));
                return true;
            }
            t = t + 1;
        }
        s = s + 1;
    }
    false
}

/// Whether the question is an abstention question: its id holds "_abs".
pub fn is_abstention(question_id: &str) -> (r: bool)
    ensures
        r == has_infix(question_id@, "_abs"@),
{
    str_contains(question_id, "_abs")
}

/// The position of the last underscore of `s`.
pub open spec fn last_underscore(s: Seq<char>) -> Option<int>
    decreases s.len(),
{
    if s.len() == 0 {
        None
    } else if s.last() == '_' {
        Some(s.len() - 1)
    } else {
        last_underscore(s.drop_last())
    }
}

pub open spec fn all_ascii_digits(s: Seq<char>) -> bool {
    forall|k: int| 0 <= k < s.len() ==> '0' <= #[trigger] s[k] && s[k] <= '9'
}

/// The session of a document id: without its `_<digits>` turn suffix when it has one
/// after a non-empty prefix, else the id itself.
pub open spec fn session_of(doc: Seq<char>) -> Seq<char> {
    match last_underscore(doc) {
        Some(k) => {
            let prefix = doc.take(k);
            let suffix = doc.skip(k + 1);
            if suffix.len() > 0 && all_ascii_digits(suffix) && prefix.len() > 0 {
                prefix
            } else {
                doc
            }
        },
        None => doc,
    }
}

proof fn lemma_last_underscore(s: Seq<char>)
    ensures
        match last_underscore(s) {
            Some(k) => 0 <= k < s.len() && s[k] == '_' && forall|j: int| k < j < s.len() ==> s[j] != '_',
            None => forall|j: int| 0 <= j < s.len() ==> s[j] != '_',
        },
    decreases s.len(),
{
    if s.len() > 0 && s.last() != '_' {
        lemma_last_underscore(s.drop_last());
        assert(forall|j: int| 0 <= j < s.len() - 1 ==> s.drop_last()[j] == s[j]);
    }
}

/// The session id of a document id: `sess_3_7` gives `sess_3`; an id without a
/// numeric turn suffix stays as it is.
pub fn strip_turn_id(document_id: &str) -> (r: String)
    ensures
        r@ == session_of(document_id@),
{
    let cs = crate::text::chars_of(document_id);
    let ghost s = document_id@;
    proof {
        lemma_last_underscore(s);
    }
    let mut k: usize = cs.len();
    while k > 0
        invariant
            cs@ == s,
            k <= s.len(),
            forall|j: int| k <= j < s.len() ==> s[j] != '_',
        ensures
            k <= s.len(),
            forall|j: int| k <= j < s.len() ==> s[j] != '_',
            k > 0 ==> s[k - 1] == '_',
        decreases k,
    {
        if cs[k - 1] == '_' {
            break;
        }
        k = k - 1;
    }
    if k == 0 {
        assert(last_underscore(s) is None) by {
            match last_underscore(s) {
                Some(u) => {},
                None => {},
            }
        }
        return document_id.to_owned();
    }
    let u = k - 1;
    assert(last_underscore(s) == Some(u as int)) by {
        match last_underscore(s) {
            Some(x) => {
                if x < u {
                } else if x > u {
                }
            },
            None => {},
        }
    }
    let mut digits = u + 1 < cs.len();
    let mut j = u + 1;
    while j < cs.len()
        invariant
            cs@ == s,
            u + 1 <= j <= s.len(),
            digits == (u + 1 < s.len() && forall|m: int| u + 1 <= m < j ==> '0' <= #[trigger] s[m] && s[m] <= '9'),
        decreases s.len() - j,
    {
        if !('0' <= cs[j] && cs[j] <= '9') {
            digits = false;
        }
        j = j + 1;
    }
    proof {
        let suffix = s.skip(u + 1);
        if digits {
            assert forall|m: int| 0 <= m < suffix.len() implies '0' <= #[trigger] suffix[m] && suffix[m] <= '9' by {
                assert(suffix[m] == s[u + 1 + m]);
            }
        } else if suffix.len() > 0 {
            let m = choose|m: int| u + 1 <= m < s.len() && !('0' <= #[trigger] s[m] && s[m] <= '9');
            assert(suffix[m - u - 1] == s[m]);
        }
    }
    if digits && u > 0 {
        let prefix = document_id.substring_char(0, u);
        prefix.to_owned()
    } else {
        document_id.to_owned()
    }
}

/// The strings of `values` without repeats, each where it first occurs.
pub fn dedupe_preserving_order(values: Vec<String>) -> (r: Vec<String>)
    ensures
        str_views(r@) == distinct_seq(str_views(values@)),
{
    dedupe_strings(values)
}

} // verus!

verus! {

/// The retrieval facts from which the benchmark's metrics are computed at cutoff `k`.
pub struct RetrievalHits {
    /// Some correct document is among the first `k` ranked.
    pub recall_any: bool,
    /// There are correct documents and all of them are among the first `k` ranked.
    pub recall_all: bool,
    /// For each of the first `k` ranked documents, whether it is correct.
    pub relevances: Vec<bool>,
    /// The number of distinct correct documents, at most `k`.
    pub ideal_hits: usize,
}

/// What `hits` states of `ranked` and `correct` at cutoff `k`.
pub open spec fn hits_of(hits: RetrievalHits, ranked: Seq<Seq<char>>, correct: Seq<Seq<char>>, k: nat) -> bool {
    let top = crate::text::take_at_most(ranked, k);
    &&& hits.recall_any == (exists|d: int| 0 <= d < correct.len() && top.contains(#[trigger] correct[d]))
    &&& hits.recall_all == (correct.len() > 0 && forall|d: int| 0 <= d < correct.len() ==> top.contains(#[trigger] correct[d]))
    &&& hits.relevances@ == top.map_values(|doc: Seq<char>| correct.contains(doc))
    &&& hits.ideal_hits == if correct.to_set().len() < k {
        correct.to_set().len()
    } else {
        k
    }
}

/// Which of the correct documents are among the first `k` ranked, and which of the
/// first `k` ranked documents are correct.
pub fn evaluate_retrieval(ranked_ids: &Vec<String>, correct_docs: &Vec<String>, k: usize) -> (r: RetrievalHits)
    ensures
        hits_of(r, str_views(ranked_ids@), str_views(correct_docs@), k as nat),
{
    let ghost ranked = str_views(ranked_ids@);
    let ghost correct = str_views(correct_docs@);
    let n = if k < ranked_ids.len() { k } else { ranked_ids.len() };
    let mut top: Vec<String> = Vec::new();
    let mut i: usize = 0;
    while i < n
        invariant
            n <= ranked_ids@.len(),
            i <= n,
            str_views(top@) == ranked.take(i as int),
            ranked == str_views(ranked_ids@),
        decreases n - i,
    {
        let ghost before = top@;
        top.push(ranked_ids[i].clone());
        assert(str_views(top@) =~= ranked.take(i + 1)) by {
            assert(str_views(top@) =~= str_views(before).push(ranked_ids@[i as int]@));
        }
        i = i + 1;
    }
    let ghost tops = crate::text::take_at_most(ranked, k as nat);
    assert(str_views(top@) =~= tops);
    let mut any = false;
    let mut all = true;
    let mut d: usize = 0;
    while d < correct_docs.len()
        invariant
            d <= correct_docs@.len(),
            correct == str_views(correct_docs@),
            str_views(top@) == tops,
            any == (exists|j: int| 0 <= j < d && tops.contains(#[trigger] correct[j])),
            all == (forall|j: int| 0 <= j < d ==> tops.contains(#[trigger] correct[j])),
        decreases correct_docs@.len() - d,
    {
        let found = crate::text::strings_contain(&top, correct_docs[d].as_str());
        assert(correct[d as int] == correct_docs@[d as int]@);
        if found {
            any = true;
        } else {
            all = false;
        }
        d = d + 1;
    }
    let mut relevances: Vec<bool> = Vec::new();
    let mut t: usize = 0;
    while t < top.len()
        invariant
            t <= top@.len(),
            correct == str_views(correct_docs@),
            str_views(top@) == tops,
            relevances@ == tops.take(t as int).map_values(|doc: Seq<char>| correct.contains(doc)),
        decreases top@.len() - t,
    {
        let hit = crate::text::strings_contain(correct_docs, top[t].as_str());
        relevances.push(hit);
        assert(relevances@ =~= tops.take(t + 1).map_values(|doc: Seq<char>| correct.contains(doc))) by {
            assert(tops[t as int] == top@[t as int]@);
        }
        t = t + 1;
    }
    assert(tops.take(top@.len() as int) =~= tops);
    let distinct = dedupe_strings(crate::text::clone_strings(correct_docs));
    proof {
        crate::text::lemma_distinct_seq(correct);
    }
    let ideal_hits = if distinct.len() < k { distinct.len() } else { k };
    RetrievalHits { recall_any: any, recall_all: correct_docs.len() > 0 && all, relevances, ideal_hits }
}

/// The sessions of document ids, without repeats, each where it first occurs.
pub open spec fn sessions_of(docs: Seq<Seq<char>>) -> Seq<Seq<char>> {
    distinct_seq(docs.map_values(|d: Seq<char>| session_of(d)))
}

fn strip_all(docs: &Vec<String>) -> (r: Vec<String>)
    ensures
        str_views(r@) == str_views(docs@).map_values(|d: Seq<char>| session_of(d)),
{
    let mut out: Vec<String> = Vec::new();
    let mut i: usize = 0;
    while i < docs.len()
        invariant
            i <= docs@.len(),
            str_views(out@) == str_views(docs@).map_values(|d: Seq<char>| session_of(d)).take(i as int),
        decreases docs@.len() - i,
    {
        let ghost before = out@;
        out.push(strip_turn_id(docs[i].as_str()));
        assert(str_views(out@) =~= str_views(docs@).map_values(|d: Seq<char>| session_of(d)).take(i + 1)) by {
            assert(str_views(out@) =~= str_views(before).push(session_of(docs@[i as int]@)));
        }
        i = i + 1;
    }
    assert(str_views(docs@).map_values(|d: Seq<char>| session_of(d)).take(docs@.len() as int)
        =~= str_views(docs@).map_values(|d: Seq<char>| session_of(d)));
    out
}

/// Turn-level retrieval judged at session level: ranked and correct turn ids are
/// mapped to their sessions, without repeats, before they are compared.
pub fn evaluate_retrieval_turn_to_session(ranked_ids: &Vec<String>, correct_docs: &Vec<String>, k: usize) -> (r: RetrievalHits)
    ensures
        hits_of(r, sessions_of(str_views(ranked_ids@)), sessions_of(str_views(correct_docs@)), k as nat),
{
    let correct_sessions = dedupe_preserving_order(strip_all(correct_docs));
    let ranked_sessions = dedupe_preserving_order(strip_all(ranked_ids));
    evaluate_retrieval(&ranked_sessions, &correct_sessions, k)
}

/// The ids of the corpus items that hold the answer: those whose id holds "answer".
pub open spec fn correct_ids(items: Seq<CorpusItem>) -> Seq<Seq<char>>
    decreases items.len(),
{
    if items.len() == 0 {
        Seq::empty()
    } else if has_infix(items.last().id@, "answer"@) {
        correct_ids(items.drop_last()).push(items.last().id@)
    } else {
        correct_ids(items.drop_last())
    }
}

/// The ids of the corpus items that hold the answer, in corpus order.
pub fn correct_doc_ids(items: &Vec<CorpusItem>) -> (r: Vec<String>)
    ensures
        str_views(r@) == correct_ids(items@),
{
    let mut out: Vec<String> = Vec::new();
    let mut i: usize = 0;
    assert(items@.take(0) =~= Seq::<CorpusItem>::empty());
    while i < items.len()
        invariant
            i <= items@.len(),
            str_views(out@) == correct_ids(items@.take(i as int)),
        decreases items@.len() - i,
    {
        assert(items@.take(i + 1).drop_last() =~= items@.take(i as int));
        assert(items@.take(i + 1).last() == items@[i as int]);
        if str_contains(items[i].id.as_str(), "answer") {
            let ghost before = out@;
            out.push(items[i].id.clone());
            assert(str_views(out@) =~= str_views(before).push(items@[i as int].id@));
        }
        i = i + 1;
    }
    assert(items@.take(items@.len() as int) =~= items@);
    out
}

} // verus!

verus! {

/// The drawer under which a corpus item is stored for retrieval.
pub fn corpus_drawer(entry: &LongMemEvalEntry, granularity: LongMemEvalGranularity, item: &CorpusItem) -> (r: crate::types::Drawer)
    ensures
        r.id@ == item.id@,
        r.content@ == item.text@,
        r.wing@ == entry.question_type@,
        r.room@ == item.id@,
        r.source_file@ == "longmemeval"@,
        r.source_mtime == 0,
        r.chunk_index == item.chunk_index,
        r.added_by@ == "benchmark"@,
        r.filed_at@ == item.timestamp@,
        r.hall@ == Seq::<char>::empty(),
        r.topic@ == entry.question_id@,
        r.drawer_type@ == granularity.name(),
        r.agent@ == "longmemeval"@,
        r.date@ == entry.question_date@,
        r.importance == 0x3FF0_0000_0000_0000u64,
{
    crate::types::Drawer {
        id: item.id.clone(),
        content: item.text.clone(),
        wing: entry.question_type.clone(),
        room: item.id.clone(),
        source_file: "longmemeval".to_owned(),
        source_mtime: 0,
        chunk_index: item.chunk_index,
        added_by: "benchmark".to_owned(),
        filed_at: item.timestamp.clone(),
        hall: String::new(),
        topic: entry.question_id.clone(),
        drawer_type: granularity.as_str().to_owned(),
        agent: "longmemeval".to_owned(),
        date: entry.question_date.clone(),
        importance: 0x3FF0_0000_0000_0000u64,
    }
}

/// Whether a question counts in the averaged metrics: it is no abstention question and
/// some user turn holds its answer.
pub open spec fn counts_for_metrics(is_abstention: bool, has_target_user_turn: bool) -> bool {
    !is_abstention && has_target_user_turn
}

/// Whether a question counts in the averaged metrics.
pub fn is_evaluated(is_abstention: bool, has_target_user_turn: bool) -> (r: bool)
    ensures
        r == counts_for_metrics(is_abstention, has_target_user_turn),
{
    !is_abstention && has_target_user_turn
}

/// How many questions were run, evaluated, and skipped for each reason.
pub struct QuestionTally {
    pub total: usize,
    pub evaluated: usize,
    pub skipped_abstention: usize,
    pub skipped_no_target: usize,
}

/// How many of the flags (is abstention, has a target user turn) mark an abstention.
pub open spec fn abstention_count(flags: Seq<(bool, bool)>) -> nat
    decreases flags.len(),
{
    if flags.len() == 0 {
        0
    } else {
        abstention_count(flags.drop_last()) + if flags.last().0 {
            1nat
        } else {
            0nat
        }
    }
}

/// How many of the flags mark a question that is no abstention but has no target turn.
pub open spec fn no_target_count(flags: Seq<(bool, bool)>) -> nat
    decreases flags.len(),
{
    if flags.len() == 0 {
        0
    } else {
        no_target_count(flags.drop_last()) + if !flags.last().0 && !flags.last().1 {
            1nat
        } else {
            0nat
        }
    }
}

/// How many of the flags mark a question that counts in the metrics.
pub open spec fn evaluated_count(flags: Seq<(bool, bool)>) -> nat
    decreases flags.len(),
{
    if flags.len() == 0 {
        0
    } else {
        evaluated_count(flags.drop_last()) + if counts_for_metrics(flags.last().0, flags.last().1) {
            1nat
        } else {
            0nat
        }
    }
}

proof fn lemma_tally(flags: Seq<(bool, bool)>)
    ensures
        abstention_count(flags) + no_target_count(flags) + evaluated_count(flags) == flags.len(),
    decreases flags.len(),
{
    if flags.len() > 0 {
        lemma_tally(flags.drop_last());
    }
}

/// The tally of a run from the (is abstention, has a target user turn) flags of its
/// questions: abstention questions are skipped first, then those without a target.
pub fn tally_questions(flags: &Vec<(bool, bool)>) -> (r: QuestionTally)
    ensures
        r.total == flags@.len(),
        r.skipped_abstention == abstention_count(flags@),
        r.skipped_no_target == no_target_count(flags@),
        r.evaluated == flags@.len() - abstention_count(flags@) - no_target_count(flags@),
        r.evaluated == evaluated_count(flags@),
{
    let mut abst: usize = 0;
    let mut none: usize = 0;
    let mut i: usize = 0;
    assert(flags@.take(0) =~= Seq::<(bool, bool)>::empty());
    while i < flags.len()
        invariant
            i <= flags@.len(),
            abst == abstention_count(flags@.take(i as int)),
            none == no_target_count(flags@.take(i as int)),
            abst + none <= i,
        decreases flags@.len() - i,
    {
        assert(flags@.take(i + 1).drop_last() =~= flags@.take(i as int));
        assert(flags@.take(i + 1).last() == flags@[i as int]);
        let (is_abs, has_target) = flags[i];
        if is_abs {
            abst = abst + 1;
        } else if !has_target {
            none = none + 1;
        }
        i = i + 1;
    }
    assert(flags@.take(flags@.len() as int) =~= flags@);
    proof {
        lemma_tally(flags@);
    }
    QuestionTally {
        total: flags.len(),
        evaluated: flags.len() - (abst + none),
        skipped_abstention: abst,
        skipped_no_target: none,
    }
}

/// The cutoffs at which retrieval is measured.
pub open spec fn cutoffs() -> Seq<u64> {
    seq![1u64, 3u64, 5u64, 10u64, 30u64, 50u64]
}

/// The three metric names of cutoff `c`.
pub open spec fn cutoff_metric_names(c: u64) -> Seq<Seq<char>> {
    seq![
        "recall_any@"@ + decimal(c as nat),
        "recall_all@"@ + decimal(c as nat),
        "ndcg_any@"@ + decimal(c as nat),
    ]
}

/// The metric names of the first `n` cutoffs, in order.
pub open spec fn metric_names_upto(n: nat) -> Seq<Seq<char>>
    decreases n,
{
    if n == 0 {
        Seq::empty()
    } else {
        metric_names_upto((n - 1) as nat) + cutoff_metric_names(cutoffs()[n - 1])
    }
}

/// The cutoffs at which retrieval is measured: 1, 3, 5, 10, 30 and 50.
pub fn metric_cutoffs() -> (r: Vec<u64>)
    ensures
        r@ == cutoffs(),
{
    let r = vec![1u64, 3u64, 5u64, 10u64, 30u64, 50u64];
    assert(r@ =~= cutoffs());
    r
}

/// The names of the metrics of each bucket: recall_any, recall_all and ndcg_any at
/// each cutoff.
pub fn metric_names() -> (r: Vec<String>)
    ensures
        str_views(r@) == metric_names_upto(6),
{
    let cs = metric_cutoffs();
    let mut out: Vec<String> = Vec::new();
    let mut i: usize = 0;
    while i < cs.len()
        invariant
            cs@ == cutoffs(),
            i <= 6,
            str_views(out@) == metric_names_upto(i as nat),
        decreases 6 - i,
    {
        let num = u64_to_decimal(cs[i]);
        let a = concat("recall_any@", num.as_str());
        let b = concat("recall_all@", num.as_str());
        let c = concat("ndcg_any@", num.as_str());
        let ghost before = out@;
        out.push(a);
        out.push(b);
        out.push(c);
        assert(str_views(out@) =~= str_views(before) + cutoff_metric_names(cs@[i as int]));
        i = i + 1;
    }
    out
}

/// The metric buckets of a run: the granularity's own, and "session" as well for turns.
pub fn metric_groups(granularity: LongMemEvalGranularity) -> (r: Vec<String>)
    ensures
        str_views(r@) == match granularity {
            LongMemEvalGranularity::Session => seq!["session"@],
            LongMemEvalGranularity::Turn => seq!["turn"@, "session"@],
        },
{
    let mut out: Vec<String> = Vec::new();
    out.push(granularity.as_str().to_owned());
    if granularity == LongMemEvalGranularity::Turn {
        out.push(LongMemEvalGranularity::Session.as_str().to_owned());
    }
    assert(str_views(out@) =~= match granularity {
        LongMemEvalGranularity::Session => seq!["session"@],
        LongMemEvalGranularity::Turn => seq!["turn"@, "session"@],
    });
    out
}

} // verus!

verus! {

/// Why a string is no unsigned integer, as `usize::from_str` reports it.
#[derive(Clone, Copy, PartialEq, Eq, Debug, Structural)]
pub enum NumberError {
    Empty,
    InvalidDigit,
    PosOverflow,
}

pub open spec fn is_digit(c: char) -> bool {
    '0' <= c && c <= '9'
}

pub open spec fn digit_value(c: char) -> nat {
    (c as u32 - '0' as u32) as nat
}

/// The digits `d[i..]` read into the value `v` so far, left to right: a character that
/// is no digit stops the reading first, and a value past `usize::MAX` next.
pub open spec fn read_digits(d: Seq<char>, i: nat, v: nat) -> Result<nat, NumberError>
    decreases d.len() - i,
{
    if i >= d.len() {
        Ok(v)
    } else if !is_digit(d[i as int]) {
        Err(NumberError::InvalidDigit)
    } else if v * 10 + digit_value(d[i as int]) > usize::MAX {
        Err(NumberError::PosOverflow)
    } else {
        read_digits(d, i + 1, v * 10 + digit_value(d[i as int]))
    }
}

/// `usize::from_str` on `s`: an optional `+`, then decimal digits.
pub open spec fn parse_usize_spec(s: Seq<char>) -> Result<nat, NumberError> {
    if s.len() == 0 {
        Err(NumberError::Empty)
    } else if (s[0] == '+' || s[0] == '-') && s.len() == 1 {
        Err(NumberError::InvalidDigit)
    } else if s[0] == '+' {
        read_digits(s.drop_first(), 0, 0)
    } else {
        read_digits(s, 0, 0)
    }
}

/// The message of a number error, as std's `ParseIntError` displays it.
pub open spec fn number_error_message(e: NumberError) -> Seq<char> {
    match e {
        NumberError::Empty => "cannot parse integer from empty string"@,
        NumberError::InvalidDigit => "invalid digit found in string"@,
        NumberError::PosOverflow => "number too large to fit in target type"@,
    }
}

/// The message of a number error.
pub fn number_error_text(e: NumberError) -> (r: &'static str)
    ensures
        r@ == number_error_message(e),
{
    match e {
        NumberError::Empty => "cannot parse integer from empty string",
        NumberError::InvalidDigit => "invalid digit found in string",
        NumberError::PosOverflow => "number too large to fit in target type",
    }
}

/// The unsigned integer written in `s`: an optional `+`, then decimal digits.
pub fn parse_usize(s: &str) -> (r: Result<usize, NumberError>)
    ensures
        match r {
            Ok(n) => parse_usize_spec(s@) == Ok::<nat, NumberError>(n as nat),
            Err(e) => parse_usize_spec(s@) == Err::<nat, NumberError>(e),
        },
{
    let cs = crate::text::chars_of(s);
    if cs.len() == 0 {
        return Err(NumberError::Empty);
    }
    if (cs[0] == '+' || cs[0] == '-') && cs.len() == 1 {
        return Err(NumberError::InvalidDigit);
    }
    let start: usize = if cs[0] == '+' { 1 } else { 0 };
    let ghost d = if cs@[0] == '+' { s@.drop_first() } else { s@ };
    let mut v: usize = 0;
    let mut i: usize = start;
    assert(parse_usize_spec(s@) == read_digits(d, 0, 0));
    while i < cs.len()
        invariant
            cs@ == s@,
            start <= i <= cs@.len(),
            d == s@.skip(start as int),
            parse_usize_spec(s@) == read_digits(d, (i - start) as nat, v as nat),
        decreases cs@.len() - i,
    {
        let c = cs[i];
        assert(d[i - start] == c);
        if !('0' <= c && c <= '9') {
            return Err(NumberError::InvalidDigit);
        }
        let dv = (c as u32 - '0' as u32) as usize;
        assert(dv == digit_value(c));
        if v > (usize::MAX - dv) / 10 {
            assert(v * 10 + dv > usize::MAX) by (nonlinear_arith)
                requires
                    v > (usize::MAX - dv) / 10,
                    dv <= 9,
            ;
            return Err(NumberError::PosOverflow);
        }
        assert(v * 10 + dv <= usize::MAX) by (nonlinear_arith)
            requires
                v <= (usize::MAX - dv) / 10,
                dv <= 9,
        ;
        v = v * 10 + dv;
        i = i + 1;
    }
    Ok(v)
}

/// The parsed options of a benchmark command line.
pub struct CliOptions {
    pub data_path: String,
    pub benchmark_options: LongMemEvalBenchmarkOptions,
}

/// The options read so far from a command line, as mathematical values.
pub struct CliState {
    pub data: Option<Seq<char>>,
    pub granularity: LongMemEvalGranularity,
    pub max_questions: Option<nat>,
    pub output: Option<Seq<char>>,
}

/// Whether the command line asks for the usage text: it is empty or holds `--help`
/// or `-h`.
pub open spec fn wants_help(args: Seq<Seq<char>>) -> bool {
    args.len() == 0 || exists|i: int| 0 <= i < args.len() && (#[trigger] args[i] == "--help"@ || args[i] == "-h"@)
}

/// The options that `args[i..]` set on top of `st`, or the message of the first error.
pub open spec fn read_args(args: Seq<Seq<char>>, i: nat, st: CliState) -> Result<CliState, Seq<char>>
    decreases args.len() - i,
{
    if i >= args.len() {
        Ok(st)
    } else {
        let a = args[i as int];
        if a == "--data"@ || a == "--granularity"@ || a == "--max-questions"@ || a == "--output"@ {
            if i + 1 >= args.len() {
                Err("missing value for "@ + a)
            } else {
                let v = args[(i + 1) as int];
                if a == "--data"@ {
                    read_args(args, i + 2, CliState { data: Some(v), ..st })
                } else if a == "--granularity"@ {
                    if v == "session"@ {
                        read_args(args, i + 2, CliState { granularity: LongMemEvalGranularity::Session, ..st })
                    } else if v == "turn"@ {
                        read_args(args, i + 2, CliState { granularity: LongMemEvalGranularity::Turn, ..st })
                    } else {
                        Err("unsupported granularity: "@ + v)
                    }
                } else if a == "--max-questions"@ {
                    match parse_usize_spec(v) {
                        Ok(n) => read_args(args, i + 2, CliState { max_questions: Some(n), ..st }),
                        Err(e) => Err(number_error_message(e)),
                    }
                } else {
                    read_args(args, i + 2, CliState { output: Some(v), ..st })
                }
            }
        } else if a == "--bench"@ {
            read_args(args, i + 1, st)
        } else {
            Err("unknown argument: "@ + a)
        }
    }
}

pub open spec fn initial_cli_state() -> CliState {
    CliState { data: None, granularity: LongMemEvalGranularity::Session, max_questions: None, output: None }
}

/// The outcome of reading a command line: `Ok(None)` when it asks for the usage text,
/// the options when they are complete, or an error message.
pub open spec fn cli_outcome(args: Seq<Seq<char>>) -> Result<Option<CliState>, Seq<char>> {
    if wants_help(args) {
        Ok(None)
    } else {
        match read_args(args, 0, initial_cli_state()) {
            Ok(st) => if st.data is Some {
                Ok(Some(st))
            } else {
                Err("--data is required"@)
            },
            Err(m) => Err(m),
        }
    }
}

pub open spec fn options_state(o: CliOptions) -> CliState {
    CliState {
        data: Some(o.data_path@),
        granularity: o.benchmark_options.granularity,
        max_questions: match o.benchmark_options.max_questions {
            Some(n) => Some(n as nat),
            None => None,
        },
        output: crate::types::opt_string_view(o.benchmark_options.output_path),
    }
}

/// The value after the flag at `args[i]`.
pub fn next_value(args: &Vec<String>, i: usize, flag: &str) -> (r: Result<String, MemPalaceError>)
    ensures
        match r {
            Ok(v) => i + 1 < args@.len() && v@ == args@[i + 1]@,
            Err(e) => i + 1 >= args@.len() && e.0@ == "missing value for "@ + flag@,
        },
{
    if i < args.len() && i + 1 < args.len() {
        Ok(args[i + 1].clone())
    } else {
        Err(MemPalaceError(concat("missing value for ", flag)))
    }
}

/// Reads a benchmark command line: `Ok(None)` when it is empty or asks for help (the
/// caller prints the usage), the options otherwise, or the error of the first bad
/// argument.
#[verifier::loop_isolation(false)]
pub fn parse_cli_args(args: Vec<String>) -> (r: Result<Option<CliOptions>, MemPalaceError>)
    ensures
        match (r, cli_outcome(str_views(args@))) {
            (Ok(None), Ok(None)) => true,
            (Ok(Some(o)), Ok(Some(st))) => options_state(o) == st,
            (Err(e), Err(m)) => e.0@ == m,
            _ => false,
        },
{
    let ghost a = str_views(args@);
    let mut h: usize = 0;
    while h < args.len()
        invariant
            h <= args@.len(),
            forall|j: int| 0 <= j < h ==> !(#[trigger] a[j] == "--help"@ || a[j] == "-h"@),
        decreases args@.len() - h,
    {
        if str_eq(args[h].as_str(), "--help") || str_eq(args[h].as_str(), "-h") {
            assert(a[h as int] == args@[h as int]@);
            return Ok(None);
        }
        h = h + 1;
    }
    if args.len() == 0 {
        return Ok(None);
    }
    assert(!wants_help(a));
    let mut data: Option<String> = None;
    let mut granularity = LongMemEvalGranularity::Session;
    let mut max_questions: Option<usize> = None;
    let mut output_path: Option<String> = None;
    let mut i: usize = 0;
    while i < args.len()
        invariant
            i <= args@.len() + 1,
            read_args(a, 0, initial_cli_state()) == read_args(
                a,
                i as nat,
                CliState {
                    data: crate::types::opt_string_view(data),
                    granularity,
                    max_questions: match max_questions {
                        Some(n) => Some(n as nat),
                        None => None,
                    },
                    output: crate::types::opt_string_view(output_path),
                },
            ),
        decreases args@.len() + 1 - i,
    {
        let ghost st0 = CliState {
            data: crate::types::opt_string_view(data),
            granularity,
            max_questions: match max_questions {
                Some(n) => Some(n as nat),
                None => None,
            },
            output: crate::types::opt_string_view(output_path),
        };
        proof {
            reveal_strlit("session");
            reveal_strlit("turn");
        }
        let arg = &args[i];
        assert(a[i as int] == arg@);
        let is_data = str_eq(arg.as_str(), "--data");
        let is_gran = str_eq(arg.as_str(), "--granularity");
        let is_max = str_eq(arg.as_str(), "--max-questions");
        let is_out = str_eq(arg.as_str(), "--output");
        if is_data || is_gran || is_max || is_out {
            let value = match next_value(&args, i, arg.as_str()) {
                Ok(v) => v,
                Err(e) => return Err(e),
            };
            assert(value@ == a[i + 1]);
            if is_data {
                data = Some(value);
                assert(read_args(a, i as nat, st0) == read_args(a, (i + 2) as nat, CliState { data: Some(a[i + 1]), ..st0 }));
            } else if is_gran {
                match parse_granularity(value.as_str()) {
                    Ok(g) => {
                        granularity = g;
                        assert(read_args(a, i as nat, st0) == read_args(a, (i + 2) as nat, CliState { granularity: g, ..st0 }));
                    },
                    Err(e) => return Err(e),
                }
            } else if is_max {
                match parse_usize(value.as_str()) {
                    Ok(n) => {
                        max_questions = Some(n);
                        assert(read_args(a, i as nat, st0) == read_args(a, (i + 2) as nat, CliState { max_questions: Some(n as nat), ..st0 }));
                    },
                    Err(e) => return Err(MemPalaceError(number_error_text(e).to_owned())),
                }
            } else {
                output_path = Some(value);
                assert(read_args(a, i as nat, st0) == read_args(a, (i + 2) as nat, CliState { output: Some(a[i + 1]), ..st0 }));
            }
            i = i + 2;
        } else if str_eq(arg.as_str(), "--bench") {
            assert(read_args(a, i as nat, st0) == read_args(a, (i + 1) as nat, st0));
            i = i + 1;
        } else {
            return Err(MemPalaceError(concat("unknown argument: ", arg.as_str())));
        }
    }
    match data {
        Some(data_path) => Ok(Some(CliOptions {
            data_path,
            benchmark_options: LongMemEvalBenchmarkOptions { granularity, max_questions, output_path },
        })),
        None => Err(MemPalaceError("--data is required".to_owned())),
    }
}

} // verus!

verus! {

/// Whenever all correct documents are retrieved, some are: full recall implies recall
/// of any, and at most `k` ranked documents are judged.
pub proof fn lemma_recall_all_implies_any(hits: RetrievalHits, ranked: Seq<Seq<char>>, correct: Seq<Seq<char>>, k: nat)
    requires
        hits_of(hits, ranked, correct, k),
    ensures
        hits.recall_all ==> hits.recall_any,
        hits.relevances@.len() <= k,
        hits.ideal_hits <= k,
{
    if hits.recall_all {
        let top = crate::text::take_at_most(ranked, k);
        assert(top.contains(correct[0]));
    }
}

} // verus!

verus! {

proof fn lemma_user_contents_remove(session: Seq<LongMemEvalTurn>, k: int)
    requires
        0 <= k < session.len(),
        session[k].role@ != "user"@,
    ensures
        user_contents(session.remove(k)) == user_contents(session),
    decreases session.len(),
{
    let s2 = session.remove(k);
    if k == session.len() - 1 {
        assert(s2 =~= session.drop_last());
        assert(session.last() == session[k]);
    } else {
        assert(s2.drop_last() =~= session.drop_last().remove(k));
        assert(s2.last() == session.last());
        assert(session.drop_last()[k] == session[k]);
        lemma_user_contents_remove(session.drop_last(), k);
    }
}

/// Turns other than user turns play no part in a session's corpus item: removing one
/// leaves the item (its id, text and timestamp) unchanged.
pub proof fn lemma_session_item_ignores_other_turns(sid: Seq<char>, session: Seq<LongMemEvalTurn>, ts: Seq<char>, k: int)
    requires
        0 <= k < session.len(),
        session[k].role@ != "user"@,
    ensures
        session_items(sid, session.remove(k), ts, LongMemEvalGranularity::Session)
            == session_items(sid, session, ts, LongMemEvalGranularity::Session),
{
    lemma_user_contents_remove(session, k);
    let s2 = session.remove(k);
    assert(no_user_answer(s2) == no_user_answer(session)) by {
        if no_user_answer(session) {
            assert forall|j: int| 0 <= j < s2.len() && is_user(#[trigger] s2[j]) implies !holds_answer(s2[j]) by {
                if j < k {
                    assert(s2[j] == session[j]);
                } else {
                    assert(s2[j] == session[j + 1]);
                }
            }
        }
        if no_user_answer(s2) {
            assert forall|j: int| 0 <= j < session.len() && is_user(#[trigger] session[j]) implies !holds_answer(session[j]) by {
                if j < k {
                    assert(s2[j] == session[j]);
                } else if j > k {
                    assert(s2[j - 1] == session[j]);
                }
            }
        }
    }
}

/// A session item's text is made of user turns alone: a session without user turns
/// gives an empty text, and one whose only turns are user turns gives their contents
/// joined by spaces.
pub proof fn lemma_session_text_of_user_turns(sid: Seq<char>, session: Seq<LongMemEvalTurn>, ts: Seq<char>)
    ensures
        (forall|k: int| 0 <= k < session.len() ==> (#[trigger] session[k]).role@ != "user"@) ==> session_items(
            sid,
            session,
            ts,
            LongMemEvalGranularity::Session,
        )[0].1 == Seq::<char>::empty(),
        (forall|k: int| 0 <= k < session.len() ==> (#[trigger] session[k]).role@ == "user"@) ==> session_items(
            sid,
            session,
            ts,
            LongMemEvalGranularity::Session,
        )[0].1 == join_words(session.map_values(|t: LongMemEvalTurn| t.content@), ' '),
{
    lemma_user_contents_extremes(session);
}

proof fn lemma_user_contents_extremes(session: Seq<LongMemEvalTurn>)
    ensures
        (forall|k: int| 0 <= k < session.len() ==> (#[trigger] session[k]).role@ != "user"@) ==> user_contents(session)
            == Seq::<Seq<char>>::empty(),
        (forall|k: int| 0 <= k < session.len() ==> (#[trigger] session[k]).role@ == "user"@) ==> user_contents(session)
            == session.map_values(|t: LongMemEvalTurn| t.content@),
    decreases session.len(),
{
    if session.len() > 0 {
        let init = session.drop_last();
        lemma_user_contents_extremes(init);
        assert(forall|k: int| 0 <= k < init.len() ==> init[k] == session[k]);
        assert(session[session.len() - 1] == session.last());
        assert(session.map_values(|t: LongMemEvalTurn| t.content@) =~= init.map_values(
            |t: LongMemEvalTurn| t.content@,
        ).push(session.last().content@));
    } else {
        assert(session.map_values(|t: LongMemEvalTurn| t.content@) =~= Seq::<Seq<char>>::empty());
    }
}

} // verus!
