use vstd::prelude::*;
use crate::text::{
    is_ascii_alnum, ascii_alnum, is_ascii_upper, ascii_lower, all_ascii, chars_of, push_char, lowercase, to_lowercase, str_eq, str_lt,
    seq_lt, concat, signed_decimal, i64_to_decimal, opt_view, opt_to_owned, take_at_most,
    join_words, lemma_join_extend, lemma_join_push,
};
use crate::types::{Entity, EntityView, Triple, TripleView, entity_views, triple_views, opt_string_view};
use crate::clock::{Timestamp, utc_now};
use crate::sorting::{sort_by, stable_sort, lemma_sort_by_map, lemma_sort_by_len};

verus! {

/// The maximal runs of ASCII letters and digits in `s`, in order.
pub open spec fn id_words(s: Seq<char>) -> Seq<Seq<char>>
    decreases s.len(),
{
    if s.len() == 0 {
        Seq::empty()
    } else {
        let w = id_words(s.drop_last());
        let c = s.last();
        if !is_ascii_alnum(c) {
            w
        } else if s.len() >= 2 && is_ascii_alnum(s[s.len() - 2]) {
            w.update(w.len() - 1, w.last().push(c))
        } else {
            w.push(seq![c])
        }
    }
}

/// The id of an already lowercased name: its runs of ASCII letters and digits joined
/// by single underscores.
pub open spec fn normalized(lower: Seq<char>) -> Seq<char> {
    join_words(id_words(lower), '_')
}

/// The id of a name: `normalized` applied to its lowercase form.
pub open spec fn entity_id(name: Seq<char>) -> Seq<char> {
    normalized(lowercase(name))
}

/// The id of an already lowercased name: every run of characters other than ASCII
/// letters and digits becomes one underscore, and none stands at either end.
pub fn normalize_lowered(lower: &str) -> (r: String)
    ensures
        r@ == normalized(lower@),
{
    let cs = chars_of(lower);
    let ghost s = lower@;
    let mut result = String::new();
    let mut pending = false;
    let mut i: usize = 0;
    assert(s.take(0) =~= Seq::<char>::empty());
    while i < cs.len()
        invariant
            cs@ == s,
            i <= s.len(),
            result@ == join_words(id_words(s.take(i as int)), '_'),
            pending == (i > 0 && !is_ascii_alnum(s[i - 1])),
            (result@.len() == 0) == (id_words(s.take(i as int)).len() == 0),
            (i > 0 && is_ascii_alnum(s[i - 1])) ==> id_words(s.take(i as int)).len() > 0,
        decreases s.len() - i,
    {
        let c = cs[i];
        let ghost p = s.take(i as int);
        let ghost n = s.take(i + 1);
        assert(n.drop_last() =~= p);
        assert(n.last() == c);
        if ascii_alnum(c) {
            if i > 0 && !pending {
                assert(n[n.len() - 2] == s[i - 1]);
                proof {
                    lemma_join_extend(id_words(p), c, '_');
                }
                push_char(&mut result, c);
            } else {
                proof {
                    lemma_join_push(id_words(p), seq![c], '_');
                    if i > 0 {
                        assert(n[n.len() - 2] == s[i - 1]);
                    }
                }
                if pending && !result.as_str().is_empty() {
                    push_char(&mut result, '_');
                }
                let ghost before = result@;
                push_char(&mut result, c);
                assert(result@ =~= before + seq![c]);
            }
            pending = false;
        } else {
            pending = true;
        }
        i = i + 1;
    }
    assert(s.take(s.len() as int) =~= s);
    result
}

/// Whether `c` may stand in an id: a small ASCII letter, a digit, or an underscore.
pub open spec fn is_id_char(c: char) -> bool {
    ||| ('a' as u32 <= c as u32 && c as u32 <= 'z' as u32)
    ||| ('0' as u32 <= c as u32 && c as u32 <= '9' as u32)
    ||| c == '_'
}

/// Whether `r` has the shape of an id: small ASCII letters, digits and underscores,
/// with no underscore at either end and no two underscores in a row.
pub open spec fn is_clean_id(r: Seq<char>) -> bool {
    &&& forall|i: int| 0 <= i < r.len() ==> is_id_char(#[trigger] r[i])
    &&& r.len() > 0 ==> r[0] != '_' && r[r.len() - 1] != '_'
    &&& forall|i: int| 0 <= i < r.len() - 1 ==> !(#[trigger] r[i] == '_' && r[i + 1] == '_')
}

/// The id of a name: lowercased, then every run of characters other than ASCII
/// letters and digits becomes one underscore, and none stands at either end. The id
/// has the shape of an id; on ASCII names the lowercasing is ASCII lowercasing; and the
/// id, so lowercased and normalized again, is unchanged, so that normalizing an id
/// gives the id back.
pub fn normalize_id(name: &str) -> (r: String)
    ensures
        r@ == entity_id(name@),
        is_clean_id(r@),
        all_ascii(r@),
        all_ascii(name@) ==> r@ == normalized(ascii_lower(name@)),
        normalized(ascii_lower(r@)) == r@,
{
    let lower = to_lowercase(name);
    let r = normalize_lowered(lower.as_str());
    proof {
        lemma_id_words_shape(lower@);
        lemma_id_words_no_caps(lower@);
        lemma_join_clean(id_words(lower@));
        assert(ascii_lower(r@) =~= r@) by {
            assert forall|i: int| 0 <= i < r@.len() implies ascii_lower(r@)[i] == r@[i] by {
                assert(is_id_char(r@[i]));
            }
        }
        lemma_normalized_idempotent(lower@);
        assert forall|i: int| 0 <= i < r@.len() implies (#[trigger] r@[i] as u32) < 128 by {
            assert(is_id_char(r@[i]));
        }
    }
    r
}

proof fn lemma_id_words_no_caps(s: Seq<char>)
    requires
        forall|i: int| 0 <= i < s.len() ==> !is_ascii_upper(#[trigger] s[i]),
    ensures
        forall|k: int, j: int|
            0 <= k < id_words(s).len() && 0 <= j < id_words(s)[k].len() ==> !is_ascii_upper(#[trigger] id_words(s)[k][j]),
    decreases s.len(),
{
    if s.len() > 0 {
        let init = s.drop_last();
        assert forall|i: int| 0 <= i < init.len() implies !is_ascii_upper(#[trigger] init[i]) by {
            assert(init[i] == s[i]);
        }
        lemma_id_words_no_caps(init);
        lemma_id_words_shape(init);
        let w = id_words(init);
        let c = s.last();
        assert(!is_ascii_upper(s[s.len() - 1]));
        if is_ascii_alnum(c) && s.len() >= 2 && is_ascii_alnum(s[s.len() - 2]) {
            assert(init.last() == s[s.len() - 2]);
            let w2 = w.update(w.len() - 1, w.last().push(c));
            assert forall|k: int, j: int| 0 <= k < w2.len() && 0 <= j < w2[k].len() implies !is_ascii_upper(#[trigger] w2[k][j]) by {
                if k == w.len() - 1 {
                    if j < w.last().len() {
                        assert(w2[k][j] == w[k][j]);
                    }
                } else {
                    assert(w2[k] == w[k]);
                }
            }
        } else if is_ascii_alnum(c) {
            let w2 = w.push(seq![c]);
            assert forall|k: int, j: int| 0 <= k < w2.len() && 0 <= j < w2[k].len() implies !is_ascii_upper(#[trigger] w2[k][j]) by {
                if k < w.len() {
                    assert(w2[k] == w[k]);
                }
            }
        }
    }
}

/// Words of small ASCII letters and digits, none empty, joined by underscores, make an
/// id of clean shape.
proof fn lemma_join_clean(ws: Seq<Seq<char>>)
    requires
        id_word_list(ws),
        forall|k: int, j: int| 0 <= k < ws.len() && 0 <= j < ws[k].len() ==> !is_ascii_upper(#[trigger] ws[k][j]),
    ensures
        is_clean_id(join_words(ws, '_')),
        ws.len() > 0 ==> join_words(ws, '_').len() > 0,
    decreases ws.len(),
{
    let r = join_words(ws, '_');
    if ws.len() == 1 {
        let w = ws[0];
        assert(w.len() > 0);
        assert forall|i: int| 0 <= i < w.len() implies is_id_char(#[trigger] w[i]) by {
            assert(is_ascii_alnum(ws[0][i]));
            assert(!is_ascii_upper(ws[0][i]));
        }
        assert(is_ascii_alnum(ws[0][0]) && is_ascii_alnum(ws[0][w.len() - 1]));
        assert forall|i: int| 0 <= i < w.len() - 1 implies !(#[trigger] w[i] == '_' && w[i + 1] == '_') by {
            assert(is_ascii_alnum(ws[0][i]));
        }
    } else if ws.len() > 1 {
        let init = ws.drop_last();
        assert forall|k: int| 0 <= k < init.len() implies {
            &&& #[trigger] init[k].len() > 0
            &&& forall|j: int| 0 <= j < init[k].len() ==> is_ascii_alnum(#[trigger] init[k][j])
        } by {
            assert(init[k] == ws[k]);
        }
        assert forall|k: int, j: int| 0 <= k < init.len() && 0 <= j < init[k].len() implies !is_ascii_upper(#[trigger] init[k][j]) by {
            assert(init[k] == ws[k]);
        }
        lemma_join_clean(init);
        let a = join_words(init, '_');
        let w = ws.last();
        let k = ws.len() - 1;
        assert(w == ws[k]);
        assert(w.len() > 0);
        assert(r == a.push('_') + w);
        let n = a.len();
        assert(r.len() == n + 1 + w.len());
        assert forall|i: int| 0 <= i < r.len() implies is_id_char(#[trigger] r[i]) by {
            if i < n {
                assert(r[i] == a[i]);
            } else if i == n {
                assert(r[i] == '_');
            } else {
                assert(r[i] == w[i - n - 1]);
                assert(is_ascii_alnum(ws[k][i - n - 1]));
                assert(!is_ascii_upper(ws[k][i - n - 1]));
            }
        }
        assert(r[0] == a[0]);
        assert(r[r.len() - 1] == w[w.len() - 1]);
        assert(is_ascii_alnum(ws[k][w.len() - 1]));
        assert forall|i: int| 0 <= i < r.len() - 1 implies !(#[trigger] r[i] == '_' && r[i + 1] == '_') by {
            if i < n - 1 {
                assert(r[i] == a[i] && r[i + 1] == a[i + 1]);
            } else if i == n - 1 {
                assert(r[i] == a[n - 1]);
            } else if i == n {
                assert(r[i + 1] == w[0]);
                assert(is_ascii_alnum(ws[k][0]));
            } else {
                assert(r[i] == w[i - n - 1]);
                assert(is_ascii_alnum(ws[k][i - n - 1]));
            }
        }
    }
}

/// Whether every word is non-empty and made of ASCII letters and digits only.
pub open spec fn id_word_list(ws: Seq<Seq<char>>) -> bool {
    forall|k: int| 0 <= k < ws.len() ==> {
        &&& #[trigger] ws[k].len() > 0
        &&& forall|j: int| 0 <= j < ws[k].len() ==> is_ascii_alnum(#[trigger] ws[k][j])
    }
}

proof fn lemma_id_words_shape(s: Seq<char>)
    ensures
        id_word_list(id_words(s)),
        s.len() > 0 && is_ascii_alnum(s.last()) ==> id_words(s).len() > 0,
    decreases s.len(),
{
    if s.len() > 0 {
        lemma_id_words_shape(s.drop_last());
        let w = id_words(s.drop_last());
        let c = s.last();
        if is_ascii_alnum(c) && s.len() >= 2 && is_ascii_alnum(s[s.len() - 2]) {
            assert(s.drop_last().last() == s[s.len() - 2]);
            let w2 = w.update(w.len() - 1, w.last().push(c));
            assert forall|k: int| 0 <= k < w2.len() implies {
                &&& #[trigger] w2[k].len() > 0
                &&& forall|j: int| 0 <= j < w2[k].len() ==> is_ascii_alnum(#[trigger] w2[k][j])
            } by {
                if k == w.len() - 1 {
                    assert forall|j: int| 0 <= j < w2[k].len() implies is_ascii_alnum(#[trigger] w2[k][j]) by {
                        if j < w.last().len() {
                            assert(w2[k][j] == w[k][j]);
                        }
                    }
                }
            }
        }
    }
}

proof fn lemma_id_words_append(p: Seq<char>, w: Seq<char>)
    requires
        w.len() > 0,
        forall|j: int| 0 <= j < w.len() ==> is_ascii_alnum(#[trigger] w[j]),
        p.len() == 0 || !is_ascii_alnum(p.last()),
    ensures
        id_words(p + w) == id_words(p).push(w),
    decreases w.len(),
{
    let s = p + w;
    assert(s.last() == w.last());
    if w.len() == 1 {
        assert(s.drop_last() =~= p);
        if p.len() > 0 {
            assert(s[s.len() - 2] == p.last());
        }
        assert(seq![w.last()] =~= w);
    } else {
        assert(s.drop_last() =~= p + w.drop_last());
        lemma_id_words_append(p, w.drop_last());
        assert(s[s.len() - 2] == w[w.len() - 2]);
        let v = id_words(p).push(w.drop_last());
        assert(w.drop_last().push(w.last()) =~= w);
        assert(v.update(v.len() - 1, v.last().push(w.last())) =~= id_words(p).push(w));
    }
}

proof fn lemma_id_words_join(ws: Seq<Seq<char>>)
    requires
        id_word_list(ws),
    ensures
        id_words(join_words(ws, '_')) == ws,
    decreases ws.len(),
{
    if ws.len() == 0 {
        assert(id_words(Seq::<char>::empty()) =~= ws);
    } else if ws.len() == 1 {
        assert(ws[0].len() > 0);
        lemma_id_words_append(Seq::<char>::empty(), ws[0]);
        assert(Seq::<char>::empty() + ws[0] =~= ws[0]);
        assert(Seq::<Seq<char>>::empty().push(ws[0]) =~= ws);
    } else {
        let init = ws.drop_last();
        assert forall|k: int| 0 <= k < init.len() implies {
            &&& #[trigger] init[k].len() > 0
            &&& forall|j: int| 0 <= j < init[k].len() ==> is_ascii_alnum(#[trigger] init[k][j])
        } by {
            assert(init[k] == ws[k]);
        }
        lemma_id_words_join(init);
        let a = join_words(init, '_');
        let pre = a.push('_');
        assert(pre.drop_last() =~= a);
        assert(id_words(pre) == id_words(a));
        assert(ws[ws.len() - 1].len() > 0);
        lemma_id_words_append(pre, ws.last());
        assert(init.push(ws.last()) =~= ws);
    }
}

/// Normalizing an id again leaves it unchanged: the id of an already lowercased name
/// is its own id.
pub proof fn lemma_normalized_idempotent(lower: Seq<char>)
    ensures
        normalized(normalized(lower)) == normalized(lower),
{
    lemma_id_words_shape(lower);
    lemma_id_words_join(id_words(lower));
}

} // verus!

verus! {

/// Whether an entity with id `id` is among `es`.
pub open spec fn has_entity(es: Seq<EntityView>, id: Seq<char>) -> bool {
    exists|k: int| 0 <= k < es.len() && #[trigger] es[k].id == id
}

/// The entities after an insert that keeps an entity already there: a new entity of
/// unknown type and no properties is added only when `id` is new.
pub open spec fn upserted(es: Seq<EntityView>, id: Seq<char>, name: Seq<char>, created_at: Seq<char>) -> Seq<EntityView> {
    if has_entity(es, id) {
        es
    } else {
        es.push(EntityView { id, name, entity_type: "unknown"@, properties: "{}"@, created_at })
    }
}

/// The triples other than those with id `id`, in order.
pub open spec fn without_id(ts: Seq<TripleView>, id: Seq<char>) -> Seq<TripleView>
    decreases ts.len(),
{
    if ts.len() == 0 {
        Seq::empty()
    } else if ts.last().id == id {
        without_id(ts.drop_last(), id)
    } else {
        without_id(ts.drop_last(), id).push(ts.last())
    }
}

/// The id of a triple: `triple_{subject}_{predicate}_{object}_{millis}`.
pub open spec fn triple_id(subject: Seq<char>, predicate: Seq<char>, object: Seq<char>, millis: i64) -> Seq<char> {
    "triple_"@ + subject + "_"@ + predicate + "_"@ + object + "_"@ + signed_decimal(millis as int)
}

/// Whether triple `t` links `subject` to `object` by `predicate` and still holds.
pub open spec fn is_live_match(t: TripleView, subject: Seq<char>, predicate: Seq<char>, object: Seq<char>) -> bool {
    t.subject == subject && t.predicate == predicate && t.object == object && t.valid_to is None
}

/// The triples after those that link `subject` to `object` by `predicate` and still hold
/// are closed at `now`.
pub open spec fn invalidated(ts: Seq<TripleView>, subject: Seq<char>, predicate: Seq<char>, object: Seq<char>, now: Seq<char>) -> Seq<TripleView> {
    ts.map_values(|t: TripleView| if is_live_match(t, subject, predicate, object) {
        TripleView { valid_to: Some(now), ..t }
    } else {
        t
    })
}

/// How many triples link `subject` to `object` by `predicate` and still hold.
pub open spec fn live_match_count(ts: Seq<TripleView>, subject: Seq<char>, predicate: Seq<char>, object: Seq<char>) -> nat
    decreases ts.len(),
{
    if ts.len() == 0 {
        0
    } else {
        live_match_count(ts.drop_last(), subject, predicate, object) + if is_live_match(ts.last(), subject, predicate, object) {
            1nat
        } else {
            0nat
        }
    }
}

/// Whether `t` still holds and touches entity `id` in `direction`: as subject for
/// "outgoing", as object for "incoming", and either way for any other direction.
pub open spec fn live_in_direction(t: TripleView, id: Seq<char>, direction: Seq<char>) -> bool {
    &&& t.valid_to is None
    &&& if direction == "outgoing"@ {
        t.subject == id
    } else if direction == "incoming"@ {
        t.object == id
    } else {
        t.subject == id || t.object == id
    }
}

pub open spec fn select_live(ts: Seq<TripleView>, id: Seq<char>, direction: Seq<char>) -> Seq<TripleView>
    decreases ts.len(),
{
    if ts.len() == 0 {
        Seq::empty()
    } else if live_in_direction(ts.last(), id, direction) {
        select_live(ts.drop_last(), id, direction).push(ts.last())
    } else {
        select_live(ts.drop_last(), id, direction)
    }
}

/// The triples in which entity `id` is subject or object, valid or not.
pub open spec fn select_involving(ts: Seq<TripleView>, id: Seq<char>) -> Seq<TripleView>
    decreases ts.len(),
{
    if ts.len() == 0 {
        Seq::empty()
    } else if ts.last().subject == id || ts.last().object == id {
        select_involving(ts.drop_last(), id).push(ts.last())
    } else {
        select_involving(ts.drop_last(), id)
    }
}

/// Newest first: `a` goes before `b` when it was extracted later.
pub open spec fn extracted_later(a: TripleView, b: TripleView) -> bool {
    seq_lt(b.extracted_at, a.extracted_at)
}

/// The triples ordered newest first; those extracted at the same time keep their order.
pub open spec fn newest_first(ts: Seq<TripleView>) -> Seq<TripleView> {
    sort_by(ts, |a: TripleView, b: TripleView| extracted_later(a, b))
}

pub open spec fn extracted_earlier(a: TripleView, b: TripleView) -> bool {
    seq_lt(a.extracted_at, b.extracted_at)
}

/// The triples in chronological order, oldest first; those extracted at the same time
/// keep their order.
pub open spec fn oldest_first(ts: Seq<TripleView>) -> Seq<TripleView> {
    sort_by(ts, |a: TripleView, b: TripleView| extracted_earlier(a, b))
}

/// The newest `limit` triples of `ts`, in chronological order.
pub open spec fn latest_chronological(ts: Seq<TripleView>, limit: nat) -> Seq<TripleView> {
    oldest_first(take_at_most(newest_first(ts), limit))
}

pub open spec fn created_later(a: EntityView, b: EntityView) -> bool {
    seq_lt(b.created_at, a.created_at)
}

/// The entities ordered newest first; those created at the same time keep their order.
pub open spec fn entities_newest_first(es: Seq<EntityView>) -> Seq<EntityView> {
    sort_by(es, |a: EntityView, b: EntityView| created_later(a, b))
}

/// How many triples still hold.
pub open spec fn live_count(ts: Seq<TripleView>) -> nat
    decreases ts.len(),
{
    if ts.len() == 0 {
        0
    } else {
        live_count(ts.drop_last()) + if ts.last().valid_to is None {
            1nat
        } else {
            0nat
        }
    }
}

/// Counts of a knowledge graph.
pub struct KgStats {
    pub entities: usize,
    pub triples: usize,
    pub valid_triples: usize,
}

/// A knowledge graph of entities and of the dated triples that link them, kept at the
/// path of its database file.
pub struct KnowledgeGraph {
    db_path: String,
    entities: Vec<Entity>,
    triples: Vec<Triple>,
}

fn triple_later(a: &Triple, b: &Triple) -> (r: bool)
    ensures
        r == extracted_later(a@, b@),
{
    str_lt(b.extracted_at.as_str(), a.extracted_at.as_str())
}

fn entity_later(a: &Entity, b: &Entity) -> (r: bool)
    ensures
        r == created_later(a@, b@),
{
    str_lt(b.created_at.as_str(), a.created_at.as_str())
}

/// The triples sorted newest first.
fn sort_newest_first(v: Vec<Triple>) -> (r: Vec<Triple>)
    ensures
        triple_views(r@) == newest_first(triple_views(v@)),
{
    let ghost b = |a: Triple, b: Triple| extracted_later(a@, b@);
    let r = stable_sort(v, triple_later, Ghost(b));
    proof {
        lemma_sort_by_map(v@, |t: Triple| t@, |a: TripleView, b: TripleView| extracted_later(a, b), b);
    }
    r
}

fn triple_earlier(a: &Triple, b: &Triple) -> (r: bool)
    ensures
        r == extracted_earlier(a@, b@),
{
    str_lt(a.extracted_at.as_str(), b.extracted_at.as_str())
}

/// The triples sorted oldest first.
pub(crate) fn sort_oldest_first(v: Vec<Triple>) -> (r: Vec<Triple>)
    ensures
        triple_views(r@) == oldest_first(triple_views(v@)),
{
    let ghost b = |a: Triple, b: Triple| extracted_earlier(a@, b@);
    let r = stable_sort(v, triple_earlier, Ghost(b));
    proof {
        lemma_sort_by_map(v@, |t: Triple| t@, |a: TripleView, b: TripleView| extracted_earlier(a, b), b);
    }
    r
}

fn keep_first(v: &mut Vec<Triple>, limit: usize)
    ensures
        triple_views(final(v)@) == take_at_most(triple_views(old(v)@), limit as nat),
{
    let ghost before = v@;
    v.truncate(limit);
    assert(triple_views(v@) =~= take_at_most(triple_views(before), limit as nat));
}

impl KnowledgeGraph {
    pub closed spec fn entity_rows(&self) -> Seq<EntityView> {
        entity_views(self.entities@)
    }

    pub closed spec fn triple_rows(&self) -> Seq<TripleView> {
        triple_views(self.triples@)
    }

    pub closed spec fn path(&self) -> Seq<char> {
        self.db_path@
    }

    /// An empty knowledge graph kept at `db_path`.
    pub fn new(db_path: &str) -> (r: KnowledgeGraph)
        ensures
            r.entity_rows() == Seq::<EntityView>::empty(),
            r.triple_rows() == Seq::<TripleView>::empty(),
            r.path() == db_path@,
    {
        let r = KnowledgeGraph { db_path: db_path.to_owned(), entities: Vec::new(), triples: Vec::new() };
        assert(r.entity_rows() =~= Seq::<EntityView>::empty());
        assert(r.triple_rows() =~= Seq::<TripleView>::empty());
        r
    }

    /// The knowledge graph at `db_path` holding the rows read from its database.
    pub fn from_rows(db_path: &str, entities: Vec<Entity>, triples: Vec<Triple>) -> (r: KnowledgeGraph)
        ensures
            r.entity_rows() == entity_views(entities@),
            r.triple_rows() == triple_views(triples@),
            r.path() == db_path@,
    {
        KnowledgeGraph { db_path: db_path.to_owned(), entities, triples }
    }

    /// The entities, in storage order.
    pub fn entities(&self) -> (r: &Vec<Entity>)
        ensures
            entity_views(r@) == self.entity_rows(),
    {
        &self.entities
    }

    /// The triples, in storage order.
    pub fn triples(&self) -> (r: &Vec<Triple>)
        ensures
            triple_views(r@) == self.triple_rows(),
    {
        &self.triples
    }

    /// The path of the database file.
    pub fn db_path(&self) -> (r: &String)
        ensures
            r@ == self.path(),
    {
        &self.db_path
    }

    /// Adds the entity `id` named `name` unless an entity with that id is there.
    pub fn upsert_entity(&mut self, id: &str, name: &str, created_at: &str)
        ensures
            final(self).entity_rows() == upserted(old(self).entity_rows(), id@, name@, created_at@),
            final(self).triple_rows() == old(self).triple_rows(),
            final(self).path() == old(self).path(),
    {
        let ghost es = entity_views(self.entities@);
        let mut k: usize = 0;
        while k < self.entities.len()
            invariant
                k <= self.entities@.len(),
                es == entity_views(self.entities@),
                forall|j: int| 0 <= j < k ==> es[j].id != id@,
            decreases self.entities@.len() - k,
        {
            if str_eq(self.entities[k].id.as_str(), id) {
                assert(es[k as int].id == id@);
                assert(has_entity(es, id@));
                return;
            }
            k = k + 1;
        }
        proof {
            reveal_strlit("unknown");
            reveal_strlit("{}");
        }
        assert(!has_entity(es, id@));
        let e = Entity {
            id: id.to_owned(),
            name: name.to_owned(),
            entity_type: "unknown".to_owned(),
            properties: "{}".to_owned(),
            created_at: created_at.to_owned(),
        };
        self.entities.push(e);
        assert(entity_views(self.entities@) =~= es.push(e@));
    }

    /// Adds the triple `subject --predicate--> object` at time `now`, first adding the
    /// entities of its subject and object, and returns its id. A triple with the same
    /// id is replaced.
    pub fn add_triple_at(
        &mut self,
        subject: &str,
        predicate: &str,
        object: &str,
        confidence: u64,
        source_closet: Option<&str>,
        source_file: Option<&str>,
        now: &Timestamp,
    ) -> (r: String)
        ensures
            r@ == triple_id(entity_id(subject@), entity_id(predicate@), entity_id(object@), now.millis),
            final(self).entity_rows() == upserted(
                upserted(old(self).entity_rows(), entity_id(subject@), subject@, now.sql@),
                entity_id(object@),
                object@,
                now.sql@,
            ),
            final(self).triple_rows() == without_id(old(self).triple_rows(), r@).push(
                TripleView {
                    id: r@,
                    subject: entity_id(subject@),
                    predicate: predicate@,
                    object: entity_id(object@),
                    valid_from: Some(now.rfc3339@),
                    valid_to: None,
                    confidence,
                    source_closet: opt_view(source_closet),
                    source_file: opt_view(source_file),
                    extracted_at: now.rfc3339@,
                },
            ),
            final(self).path() == old(self).path(),
    {
        let subj_id = normalize_id(subject);
        let obj_id = normalize_id(object);
        self.upsert_entity(subj_id.as_str(), subject, now.sql.as_str());
        self.upsert_entity(obj_id.as_str(), object, now.sql.as_str());
        let pred_norm = normalize_id(predicate);
        proof {
            reveal_strlit("triple_");
            reveal_strlit("_");
        }
        let mut id = concat("triple_", subj_id.as_str());
        id = concat(id.as_str(), "_");
        id = concat(id.as_str(), pred_norm.as_str());
        id = concat(id.as_str(), "_");
        id = concat(id.as_str(), obj_id.as_str());
        id = concat(id.as_str(), "_");
        let ts = i64_to_decimal(now.millis);
        id = concat(id.as_str(), ts.as_str());
        let triple = Triple {
            id: id.clone(),
            subject: subj_id,
            predicate: predicate.to_owned(),
            object: obj_id,
            valid_from: Some(now.rfc3339.clone()),
            valid_to: None,
            confidence,
            source_closet: opt_to_owned(source_closet),
            source_file: opt_to_owned(source_file),
            extracted_at: now.rfc3339.clone(),
        };
        self.remove_triple_id(id.as_str());
        let ghost before = self.triples@;
        self.triples.push(triple);
        assert(triple_views(self.triples@) =~= triple_views(before).push(triple@));
        id
    }

    /// Removes the triples with id `id`.
    fn remove_triple_id(&mut self, id: &str)
        ensures
            final(self).triple_rows() == without_id(old(self).triple_rows(), id@),
            final(self).entity_rows() == old(self).entity_rows(),
            final(self).path() == old(self).path(),
    {
        let ghost ts = triple_views(self.triples@);
        let mut kept: Vec<Triple> = Vec::new();
        let mut i: usize = 0;
        assert(ts.take(0) =~= Seq::<TripleView>::empty());
        while i < self.triples.len()
            invariant
                i <= self.triples@.len(),
                ts == triple_views(self.triples@),
                triple_views(kept@) == without_id(ts.take(i as int), id@),
            decreases self.triples@.len() - i,
        {
            assert(ts.take(i + 1).drop_last() =~= ts.take(i as int));
            assert(ts.take(i + 1).last() == self.triples@[i as int]@);
            if !str_eq(self.triples[i].id.as_str(), id) {
                let ghost before = kept@;
                kept.push(self.triples[i].clone());
                assert(triple_views(kept@) =~= triple_views(before).push(self.triples@[i as int]@));
            }
            i = i + 1;
        }
        assert(ts.take(ts.len() as int) =~= ts);
        self.triples = kept;
    }

    /// Adds the triple `subject --predicate--> object`, valid from now, with its subject
    /// and object as entities, and returns its id.
    pub fn add_triple(
        &mut self,
        subject: &str,
        predicate: &str,
        object: &str,
        confidence: u64,
        source_closet: Option<&str>,
        source_file: Option<&str>,
    ) -> (r: String)
        ensures
            exists|now: Timestamp|
                {
                    &&& crate::clock::same_date(now)
                    &&& r@ == triple_id(entity_id(subject@), entity_id(predicate@), entity_id(object@), now.millis)
                    &&& final(self).entity_rows() == upserted(
                        upserted(old(self).entity_rows(), entity_id(subject@), subject@, now.sql@),
                        entity_id(object@),
                        object@,
                        now.sql@,
                    )
                    &&& final(self).triple_rows() == without_id(old(self).triple_rows(), r@).push(
                        TripleView {
                            id: r@,
                            subject: entity_id(subject@),
                            predicate: predicate@,
                            object: entity_id(object@),
                            valid_from: Some(now.rfc3339@),
                            valid_to: None,
                            confidence,
                            source_closet: opt_view(source_closet),
                            source_file: opt_view(source_file),
                            extracted_at: now.rfc3339@,
                        },
                    )
                },
            final(self).path() == old(self).path(),
    {
        let now = utc_now();
        self.add_triple_at(subject, predicate, object, confidence, source_closet, source_file, &now)
    }

    /// Closes at time `now` every triple `subject --predicate--> object` that still holds,
    /// and returns how many it closed.
    pub fn invalidate_triple_at(&mut self, subject: &str, predicate: &str, object: &str, now: &Timestamp) -> (r: usize)
        ensures
            r == live_match_count(old(self).triple_rows(), entity_id(subject@), predicate@, entity_id(object@)),
            r == old(self).triple_rows().filter(
                |t: TripleView| links(t, entity_id(subject@), predicate@, entity_id(object@)),
            ).len(),
            final(self).triple_rows() == invalidated(
                old(self).triple_rows(),
                entity_id(subject@),
                predicate@,
                entity_id(object@),
                now.rfc3339@,
            ),
            final(self).entity_rows() == old(self).entity_rows(),
            final(self).path() == old(self).path(),
    {
        let subj_id = normalize_id(subject);
        let obj_id = normalize_id(object);
        let ghost s = subj_id@;
        let ghost o = obj_id@;
        let ghost p = predicate@;
        let ghost ts = triple_views(self.triples@);
        let ghost target = invalidated(ts, s, p, o, now.rfc3339@);
        proof {
            lemma_invalidate_exact(ts, s, p, o, now.rfc3339@);
        }
        let mut count: usize = 0;
        let mut i: usize = 0;
        assert(ts.take(0) =~= Seq::<TripleView>::empty());
        while i < self.triples.len()
            invariant
                i <= self.triples@.len(),
                ts.len() == self.triples@.len(),
                target == invalidated(ts, s, p, o, now.rfc3339@),
                forall|j: int| 0 <= j < i ==> #[trigger] self.triples@[j]@ == target[j],
                forall|j: int| i <= j < ts.len() ==> #[trigger] self.triples@[j]@ == ts[j],
                count == live_match_count(ts.take(i as int), s, p, o),
                count <= i,
                s == subj_id@,
                o == obj_id@,
                p == predicate@,
                self.entities@ == old(self).entities@,
                self.db_path@ == old(self).db_path@,
            decreases self.triples@.len() - i,
        {
            assert(ts.take(i + 1).drop_last() =~= ts.take(i as int));
            assert(ts.take(i + 1).last() == ts[i as int]);
            let t = &self.triples[i];
            assert(t@ == ts[i as int]);
            let hit = t.valid_to.is_none() && str_eq(t.subject.as_str(), subj_id.as_str())
                && str_eq(t.predicate.as_str(), predicate) && str_eq(t.object.as_str(), obj_id.as_str());
            assert(t.valid_to.is_none() == (opt_string_view(t.valid_to) is None));
            assert(hit == is_live_match(ts[i as int], s, p, o));
            if hit {
                let mut updated = t.clone();
                updated.valid_to = Some(now.rfc3339.clone());
                self.triples.set(i, updated);
                count = count + 1;
            }
            i = i + 1;
        }
        assert(ts.take(ts.len() as int) =~= ts);
        assert(triple_views(self.triples@) =~= target);
        count
    }

    /// Closes now every triple `subject --predicate--> object` that still holds, and
    /// returns how many it closed.
    pub fn invalidate_triple(&mut self, subject: &str, predicate: &str, object: &str) -> (r: usize)
        ensures
            r == live_match_count(old(self).triple_rows(), entity_id(subject@), predicate@, entity_id(object@)),
            exists|now: Timestamp|
                {
                    &&& crate::clock::same_date(now)
                    &&& final(self).triple_rows() == invalidated(
                        old(self).triple_rows(),
                        entity_id(subject@),
                        predicate@,
                        entity_id(object@),
                        now.rfc3339@,
                    )
                },
            final(self).entity_rows() == old(self).entity_rows(),
            final(self).path() == old(self).path(),
    {
        let now = utc_now();
        self.invalidate_triple_at(subject, predicate, object, &now)
    }
}

} // verus!

verus! {

fn direction_matches(t: &Triple, id: &str, outgoing: bool, incoming: bool) -> (r: bool)
    ensures
        r == (t@.valid_to is None && if outgoing {
            t@.subject == id@
        } else if incoming {
            t@.object == id@
        } else {
            t@.subject == id@ || t@.object == id@
        }),
{
    assert(t.valid_to.is_none() == (opt_string_view(t.valid_to) is None));
    if !t.valid_to.is_none() {
        false
    } else if outgoing {
        str_eq(t.subject.as_str(), id)
    } else if incoming {
        str_eq(t.object.as_str(), id)
    } else {
        str_eq(t.subject.as_str(), id) || str_eq(t.object.as_str(), id)
    }
}

impl KnowledgeGraph {
    /// The triples that still hold and touch `entity` in `direction` ("outgoing": as
    /// subject, "incoming": as object, anything else: either), newest first.
    pub fn query_entity(&self, entity: &str, direction: &str) -> (r: Vec<Triple>)
        ensures
            triple_views(r@) == newest_first(select_live(self.triple_rows(), entity_id(entity@), direction@)),
            forall|k: int| 0 <= k < r@.len() ==> (#[trigger] r@[k]).valid_to is None,
    {
        let entity_id = normalize_id(entity);
        proof {
            reveal_strlit("outgoing");
            reveal_strlit("incoming");
        }
        let outgoing = str_eq(direction, "outgoing");
        let incoming = str_eq(direction, "incoming");
        let ghost ts = triple_views(self.triples@);
        let mut out: Vec<Triple> = Vec::new();
        let mut i: usize = 0;
        assert(ts.take(0) =~= Seq::<TripleView>::empty());
        while i < self.triples.len()
            invariant
                i <= self.triples@.len(),
                ts == triple_views(self.triples@),
                outgoing == (direction@ == "outgoing"@),
                incoming == (direction@ == "incoming"@),
                triple_views(out@) == select_live(ts.take(i as int), entity_id@, direction@),
            decreases self.triples@.len() - i,
        {
            assert(ts.take(i + 1).drop_last() =~= ts.take(i as int));
            assert(ts.take(i + 1).last() == self.triples@[i as int]@);
            if direction_matches(&self.triples[i], entity_id.as_str(), outgoing, incoming) {
                let ghost before = out@;
                out.push(self.triples[i].clone());
                assert(triple_views(out@) =~= triple_views(before).push(self.triples@[i as int]@));
            }
            i = i + 1;
        }
        assert(ts.take(ts.len() as int) =~= ts);
        let r = sort_newest_first(out);
        proof {
            lemma_query_reports_live(ts, entity_id@, direction@);
            assert forall|k: int| 0 <= k < r@.len() implies (#[trigger] r@[k]).valid_to is None by {
                assert(triple_views(r@)[k] == r@[k]@);
            }
        }
        r
    }

    /// The timeline of `entity`: the newest `limit` triples in which it is subject or
    /// object, whether they still hold or not, in chronological order.
    pub fn timeline(&self, entity: &str, limit: usize) -> (r: Vec<Triple>)
        ensures
            triple_views(r@) == latest_chronological(
                select_involving(self.triple_rows(), entity_id(entity@)),
                limit as nat,
            ),
    {
        let entity_id = normalize_id(entity);
        let ghost ts = triple_views(self.triples@);
        let mut out: Vec<Triple> = Vec::new();
        let mut i: usize = 0;
        assert(ts.take(0) =~= Seq::<TripleView>::empty());
        while i < self.triples.len()
            invariant
                i <= self.triples@.len(),
                ts == triple_views(self.triples@),
                triple_views(out@) == select_involving(ts.take(i as int), entity_id@),
            decreases self.triples@.len() - i,
        {
            assert(ts.take(i + 1).drop_last() =~= ts.take(i as int));
            assert(ts.take(i + 1).last() == self.triples@[i as int]@);
            let t = &self.triples[i];
            if str_eq(t.subject.as_str(), entity_id.as_str()) || str_eq(t.object.as_str(), entity_id.as_str()) {
                let ghost before = out@;
                out.push(t.clone());
                assert(triple_views(out@) =~= triple_views(before).push(self.triples@[i as int]@));
            }
            i = i + 1;
        }
        assert(ts.take(ts.len() as int) =~= ts);
        let mut newest = sort_newest_first(out);
        keep_first(&mut newest, limit);
        sort_oldest_first(newest)
    }

    /// The newest `limit` triples of the graph.
    pub fn all_triples(&self, limit: usize) -> (r: Vec<Triple>)
        ensures
            triple_views(r@) == take_at_most(newest_first(self.triple_rows()), limit as nat),
    {
        let mut copy: Vec<Triple> = Vec::new();
        let mut i: usize = 0;
        while i < self.triples.len()
            invariant
                i <= self.triples@.len(),
                copy@ == self.triples@.take(i as int),
            decreases self.triples@.len() - i,
        {
            copy.push(self.triples[i].clone());
            assert(copy@ =~= self.triples@.take(i + 1));
            i = i + 1;
        }
        assert(copy@ =~= self.triples@);
        let mut sorted = sort_newest_first(copy);
        keep_first(&mut sorted, limit);
        sorted
    }

    /// The numbers of entities, of triples, and of triples that still hold.
    pub fn stats(&self) -> (r: KgStats)
        ensures
            r.entities == self.entity_rows().len(),
            r.triples == self.triple_rows().len(),
            r.valid_triples == live_count(self.triple_rows()),
            r.valid_triples == self.triple_rows().filter(|t: TripleView| holds(t)).len(),
    {
        proof {
            lemma_live_count_holds(self.triple_rows());
        }
        let ghost ts = triple_views(self.triples@);
        let mut valid: usize = 0;
        let mut i: usize = 0;
        assert(ts.take(0) =~= Seq::<TripleView>::empty());
        while i < self.triples.len()
            invariant
                i <= self.triples@.len(),
                ts == triple_views(self.triples@),
                valid == live_count(ts.take(i as int)),
                valid <= i,
            decreases self.triples@.len() - i,
        {
            assert(ts.take(i + 1).drop_last() =~= ts.take(i as int));
            assert(ts.take(i + 1).last() == self.triples@[i as int]@);
            let t = &self.triples[i];
            assert(t.valid_to.is_none() == (opt_string_view(t.valid_to) is None));
            if t.valid_to.is_none() {
                valid = valid + 1;
            }
            i = i + 1;
        }
        assert(ts.take(ts.len() as int) =~= ts);
        KgStats { entities: self.entities.len(), triples: self.triples.len(), valid_triples: valid }
    }

    /// The newest `limit` entities.
    pub fn list_entities(&self, limit: usize) -> (r: Vec<Entity>)
        ensures
            entity_views(r@) == take_at_most(entities_newest_first(self.entity_rows()), limit as nat),
    {
        let mut copy: Vec<Entity> = Vec::new();
        let mut i: usize = 0;
        while i < self.entities.len()
            invariant
                i <= self.entities@.len(),
                copy@ == self.entities@.take(i as int),
            decreases self.entities@.len() - i,
        {
            copy.push(self.entities[i].clone());
            assert(copy@ =~= self.entities@.take(i + 1));
            i = i + 1;
        }
        assert(copy@ =~= self.entities@);
        let ghost b = |a: Entity, b: Entity| created_later(a@, b@);
        let mut sorted = stable_sort(copy, entity_later, Ghost(b));
        proof {
            lemma_sort_by_map(copy@, |e: Entity| e@, |a: EntityView, b: EntityView| created_later(a, b), b);
        }
        let ghost before = sorted@;
        sorted.truncate(limit);
        assert(entity_views(sorted@) =~= take_at_most(entity_views(before), limit as nat));
        sorted
    }
}

} // verus!

verus! {

/// Invalidation is a soft delete: every triple stays, in place, with its id, subject,
/// predicate and object; those that linked `subject` to `object` by `predicate` and still
/// held are closed at `now`; no triple so linking them still holds afterwards.
pub proof fn lemma_invalidate_closes(ts: Seq<TripleView>, subject: Seq<char>, predicate: Seq<char>, object: Seq<char>, now: Seq<char>)
    ensures
        invalidated(ts, subject, predicate, object, now).len() == ts.len(),
        forall|k: int| 0 <= k < ts.len() ==> {
            let t = #[trigger] invalidated(ts, subject, predicate, object, now)[k];
            &&& t.id == ts[k].id
            &&& t.subject == ts[k].subject
            &&& t.predicate == ts[k].predicate
            &&& t.object == ts[k].object
            &&& !is_live_match(t, subject, predicate, object)
            &&& if is_live_match(ts[k], subject, predicate, object) {
                t.valid_to == Some(now)
            } else {
                t == ts[k]
            }
        },
        live_match_count(invalidated(ts, subject, predicate, object, now), subject, predicate, object) == 0,
{
    lemma_no_live_match(invalidated(ts, subject, predicate, object, now), subject, predicate, object);
}

proof fn lemma_no_live_match(ts: Seq<TripleView>, subject: Seq<char>, predicate: Seq<char>, object: Seq<char>)
    requires
        forall|k: int| 0 <= k < ts.len() ==> !is_live_match(#[trigger] ts[k], subject, predicate, object),
    ensures
        live_match_count(ts, subject, predicate, object) == 0,
    decreases ts.len(),
{
    if ts.len() > 0 {
        assert forall|k: int| 0 <= k < ts.drop_last().len() implies !is_live_match(#[trigger] ts.drop_last()[k], subject, predicate, object) by {
            assert(ts.drop_last()[k] == ts[k]);
        }
        lemma_no_live_match(ts.drop_last(), subject, predicate, object);
        assert(!is_live_match(ts[ts.len() - 1], subject, predicate, object));
    }
}

proof fn lemma_select_live_contains(ts: Seq<TripleView>, id: Seq<char>, direction: Seq<char>, t: TripleView)
    requires
        ts.len() > 0,
        ts.last() == t,
        live_in_direction(t, id, direction),
    ensures
        select_live(ts, id, direction).contains(t),
{
    let s = select_live(ts.drop_last(), id, direction).push(t);
    assert(s[s.len() - 1] == t);
}

/// A triple just added is found when its subject is queried for outgoing triples, and
/// when its object is queried for incoming ones.
pub proof fn lemma_added_triple_found(ts: Seq<TripleView>, t: TripleView)
    requires
        t.valid_to is None,
    ensures
        newest_first(select_live(without_id(ts, t.id).push(t), t.subject, "outgoing"@)).contains(t),
        newest_first(select_live(without_id(ts, t.id).push(t), t.object, "incoming"@)).contains(t),
{
    reveal_strlit("outgoing");
    reveal_strlit("incoming");
    let rows = without_id(ts, t.id).push(t);
    let b = |a: TripleView, b: TripleView| extracted_later(a, b);
    lemma_select_live_contains(rows, t.subject, "outgoing"@, t);
    crate::sorting::lemma_sort_by_contains(select_live(rows, t.subject, "outgoing"@), b, t);
    if t.object != "outgoing"@ {
    }
    assert("outgoing"@ != "incoming"@) by {
        assert("outgoing"@[0] != "incoming"@[0]);
    }
    lemma_select_live_contains(rows, t.object, "incoming"@, t);
    crate::sorting::lemma_sort_by_contains(select_live(rows, t.object, "incoming"@), b, t);
}

/// Adding an entity keeps one that is there, and adding it again changes nothing.
pub proof fn lemma_upsert_idempotent(es: Seq<EntityView>, id: Seq<char>, name: Seq<char>, created_at: Seq<char>, name2: Seq<char>, created_at2: Seq<char>)
    ensures
        has_entity(upserted(es, id, name, created_at), id),
        upserted(upserted(es, id, name, created_at), id, name2, created_at2) == upserted(es, id, name, created_at),
        has_entity(es, id) ==> upserted(es, id, name, created_at) == es,
{
    if !has_entity(es, id) {
        let u = upserted(es, id, name, created_at);
        assert(u[u.len() - 1].id == id);
    }
}

} // verus!

verus! {

/// Triples come newest first: no triple is extracted later than one listed before it.
pub proof fn lemma_newest_first_ordered(ts: Seq<TripleView>)
    ensures
        forall|i: int, j: int|
            0 <= i < j < newest_first(ts).len() ==> !seq_lt(
                (#[trigger] newest_first(ts)[i]).extracted_at,
                (#[trigger] newest_first(ts)[j]).extracted_at,
            ),
{
    let later = |a: TripleView, b: TripleView| extracted_later(a, b);
    assert forall|x: TripleView| !#[trigger] later(x, x) by {
        crate::text::lemma_seq_lt_irreflexive(x.extracted_at);
    }
    assert forall|x: TripleView, y: TripleView, z: TripleView| #[trigger] later(x, y) && #[trigger] later(y, z) implies later(x, z) by {
        crate::text::lemma_seq_lt_transitive(z.extracted_at, y.extracted_at, x.extracted_at);
    }
    crate::sorting::lemma_sort_by_sorted(ts, later);
    let r = newest_first(ts);
    assert forall|i: int, j: int| 0 <= i < j < r.len() implies !seq_lt((#[trigger] r[i]).extracted_at, (#[trigger] r[j]).extracted_at) by {
        assert(!later(r[j], r[i]));
    }
}

/// Entities come newest first: no entity is created later than one listed before it.
pub proof fn lemma_entities_newest_first_ordered(es: Seq<EntityView>)
    ensures
        forall|i: int, j: int|
            0 <= i < j < entities_newest_first(es).len() ==> !seq_lt(
                (#[trigger] entities_newest_first(es)[i]).created_at,
                (#[trigger] entities_newest_first(es)[j]).created_at,
            ),
{
    let later = |a: EntityView, b: EntityView| created_later(a, b);
    assert forall|x: EntityView| !#[trigger] later(x, x) by {
        crate::text::lemma_seq_lt_irreflexive(x.created_at);
    }
    assert forall|x: EntityView, y: EntityView, z: EntityView| #[trigger] later(x, y) && #[trigger] later(y, z) implies later(x, z) by {
        crate::text::lemma_seq_lt_transitive(z.created_at, y.created_at, x.created_at);
    }
    crate::sorting::lemma_sort_by_sorted(es, later);
    let r = entities_newest_first(es);
    assert forall|i: int, j: int| 0 <= i < j < r.len() implies !seq_lt((#[trigger] r[i]).created_at, (#[trigger] r[j]).created_at) by {
        assert(!later(r[j], r[i]));
    }
}

} // verus!

verus! {

/// A timeline holds the newest `limit` triples (all of them when there are fewer), in
/// chronological order: no triple is extracted earlier than one listed before it.
pub proof fn lemma_timeline_chronological(ts: Seq<TripleView>, limit: nat)
    ensures
        latest_chronological(ts, limit).len() == if limit < ts.len() { limit } else { ts.len() },
        forall|i: int, j: int|
            0 <= i < j < latest_chronological(ts, limit).len() ==> !seq_lt(
                (#[trigger] latest_chronological(ts, limit)[j]).extracted_at,
                (#[trigger] latest_chronological(ts, limit)[i]).extracted_at,
            ),
{
    let earlier = |a: TripleView, b: TripleView| extracted_earlier(a, b);
    let later = |a: TripleView, b: TripleView| extracted_later(a, b);
    assert forall|x: TripleView| !#[trigger] earlier(x, x) by {
        crate::text::lemma_seq_lt_irreflexive(x.extracted_at);
    }
    assert forall|x: TripleView, y: TripleView, z: TripleView| #[trigger] earlier(x, y) && #[trigger] earlier(y, z) implies earlier(x, z) by {
        crate::text::lemma_seq_lt_transitive(x.extracted_at, y.extracted_at, z.extracted_at);
    }
    lemma_sort_by_len(ts, later);
    let top = take_at_most(newest_first(ts), limit);
    lemma_sort_by_len(top, earlier);
    crate::sorting::lemma_sort_by_sorted(top, earlier);
    let r = latest_chronological(ts, limit);
    assert forall|i: int, j: int| 0 <= i < j < r.len() implies !seq_lt((#[trigger] r[j]).extracted_at, (#[trigger] r[i]).extracted_at) by {
        assert(!earlier(r[j], r[i]));
    }
}

} // verus!

verus! {

/// Whether `t` still holds: it has no end of validity.
pub open spec fn holds(t: TripleView) -> bool {
    t.valid_to is None
}

/// Whether `t` links `subject` to `object` by `predicate` and still holds.
pub open spec fn links(t: TripleView, subject: Seq<char>, predicate: Seq<char>, object: Seq<char>) -> bool {
    t.subject == subject && t.predicate == predicate && t.object == object && t.valid_to is None
}

proof fn lemma_select_live_members(ts: Seq<TripleView>, id: Seq<char>, direction: Seq<char>)
    ensures
        forall|k: int| 0 <= k < select_live(ts, id, direction).len() ==> {
            let t = #[trigger] select_live(ts, id, direction)[k];
            &&& t.valid_to is None
            &&& (t.subject == id || t.object == id)
            &&& (direction == "outgoing"@ ==> t.subject == id)
            &&& (direction == "incoming"@ ==> t.object == id)
            &&& ts.contains(t)
        },
        forall|k: int| 0 <= k < ts.len() && live_in_direction(#[trigger] ts[k], id, direction) ==> select_live(ts, id, direction).contains(ts[k]),
    decreases ts.len(),
{
    reveal_strlit("outgoing");
    reveal_strlit("incoming");
    assert("outgoing"@[0] != "incoming"@[0]);
    if ts.len() > 0 {
        let init = ts.drop_last();
        lemma_select_live_members(init, id, direction);
        let p = select_live(init, id, direction);
        let s = select_live(ts, id, direction);
        assert forall|k: int| 0 <= k < s.len() implies {
            let t = #[trigger] s[k];
            &&& t.valid_to is None
            &&& (t.subject == id || t.object == id)
            &&& (direction == "outgoing"@ ==> t.subject == id)
            &&& (direction == "incoming"@ ==> t.object == id)
            &&& ts.contains(t)
        } by {
            if k < p.len() {
                assert(s[k] == p[k]);
                let m = choose|m: int| 0 <= m < init.len() && init[m] == p[k];
                assert(ts[m] == init[m]);
            } else {
                assert(live_in_direction(ts.last(), id, direction));
                assert(s == p.push(ts.last()));
                assert(s[k] == ts.last());
                assert(ts[ts.len() - 1] == s[k]);
            }
        }
        assert forall|k: int| 0 <= k < ts.len() && live_in_direction(#[trigger] ts[k], id, direction) implies s.contains(ts[k]) by {
            if k < ts.len() - 1 {
                assert(init[k] == ts[k]);
                let m = choose|m: int| 0 <= m < p.len() && p[m] == init[k];
                assert(s[m] == p[m]);
            } else {
                assert(s[s.len() - 1] == ts[k]);
            }
        }
    }
}

/// A query reports only triples that still hold and that touch the entity in the
/// direction asked (as subject for "outgoing", as object for "incoming", either way for
/// any other direction), each one a stored triple; and it reports every stored triple
/// that does so.
pub proof fn lemma_query_reports_live(ts: Seq<TripleView>, id: Seq<char>, direction: Seq<char>)
    ensures
        forall|k: int| 0 <= k < newest_first(select_live(ts, id, direction)).len() ==> {
            let t = #[trigger] newest_first(select_live(ts, id, direction))[k];
            &&& t.valid_to is None
            &&& (t.subject == id || t.object == id)
            &&& (direction == "outgoing"@ ==> t.subject == id)
            &&& (direction == "incoming"@ ==> t.object == id)
            &&& ts.contains(t)
        },
        forall|k: int|
            0 <= k < ts.len() && (#[trigger] ts[k]).valid_to is None && (if direction == "outgoing"@ {
                ts[k].subject == id
            } else if direction == "incoming"@ {
                ts[k].object == id
            } else {
                ts[k].subject == id || ts[k].object == id
            }) ==> newest_first(select_live(ts, id, direction)).contains(ts[k]),
{
    reveal_strlit("outgoing");
    reveal_strlit("incoming");
    assert("outgoing"@[0] != "incoming"@[0]);
    lemma_select_live_members(ts, id, direction);
    let s = select_live(ts, id, direction);
    let later = |a: TripleView, b: TripleView| extracted_later(a, b);
    let r = newest_first(s);
    assert forall|k: int| 0 <= k < r.len() implies {
        let t = #[trigger] r[k];
        &&& t.valid_to is None
        &&& (t.subject == id || t.object == id)
        &&& (direction == "outgoing"@ ==> t.subject == id)
        &&& (direction == "incoming"@ ==> t.object == id)
        &&& ts.contains(t)
    } by {
        crate::sorting::lemma_sort_by_contains(s, later, r[k]);
        assert(r.contains(r[k]));
        let m = choose|m: int| 0 <= m < s.len() && s[m] == r[k];
    }
    assert forall|k: int|
        0 <= k < ts.len() && (#[trigger] ts[k]).valid_to is None && (if direction == "outgoing"@ {
            ts[k].subject == id
        } else if direction == "incoming"@ {
            ts[k].object == id
        } else {
            ts[k].subject == id || ts[k].object == id
        }) implies r.contains(ts[k]) by {
        assert(live_in_direction(ts[k], id, direction));
        crate::sorting::lemma_sort_by_contains(s, later, ts[k]);
    }
}

/// Invalidation closes, at `now`, exactly the triples that link `subject` to `object`
/// by `predicate` and still hold; every other triple (another predicate, subject or
/// object, or one already closed) is left as it was. The count it reports is the
/// number of triples so linked that still held.
pub proof fn lemma_invalidate_exact(ts: Seq<TripleView>, subject: Seq<char>, predicate: Seq<char>, object: Seq<char>, now: Seq<char>)
    ensures
        invalidated(ts, subject, predicate, object, now).len() == ts.len(),
        forall|k: int| 0 <= k < ts.len() ==> #[trigger] invalidated(ts, subject, predicate, object, now)[k] == if (
        ts[k].subject == subject && ts[k].predicate == predicate && ts[k].object == object && ts[k].valid_to is None) {
            TripleView { valid_to: Some(now), ..ts[k] }
        } else {
            ts[k]
        },
        live_match_count(ts, subject, predicate, object) == ts.filter(|t: TripleView| links(t, subject, predicate, object)).len(),
    decreases ts.len(),
{
    reveal(Seq::filter);
    if ts.len() > 0 {
        lemma_invalidate_exact(ts.drop_last(), subject, predicate, object, now);
        assert(ts.filter(|t: TripleView| links(t, subject, predicate, object)) == {
            let sub = ts.drop_last().filter(|t: TripleView| links(t, subject, predicate, object));
            if links(ts.last(), subject, predicate, object) {
                sub.push(ts.last())
            } else {
                sub
            }
        });
    }
}

/// The statistics count as valid exactly the triples that still hold.
pub proof fn lemma_live_count_holds(ts: Seq<TripleView>)
    ensures
        live_count(ts) == ts.filter(|t: TripleView| holds(t)).len(),
        live_count(ts) <= ts.len(),
        (forall|k: int| 0 <= k < ts.len() ==> (#[trigger] ts[k]).valid_to is None) ==> live_count(ts) == ts.len(),
        (forall|k: int| 0 <= k < ts.len() ==> (#[trigger] ts[k]).valid_to is Some) ==> live_count(ts) == 0,
    decreases ts.len(),
{
    reveal(Seq::filter);
    if ts.len() > 0 {
        let init = ts.drop_last();
        lemma_live_count_holds(init);
        assert(forall|k: int| 0 <= k < init.len() ==> init[k] == ts[k]);
        assert(ts[ts.len() - 1] == ts.last());
        assert(ts.filter(|t: TripleView| holds(t)) == {
            let sub = init.filter(|t: TripleView| holds(t));
            if holds(ts.last()) {
                sub.push(ts.last())
            } else {
                sub
            }
        });
    }
}

} // verus!
