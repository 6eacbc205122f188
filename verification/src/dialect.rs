use vstd::prelude::*;
use crate::types::Drawer;
use crate::text::{
    lowercase, to_lowercase, has_infix, str_contains, str_eq, concat, push_char, chars_of,
    str_views, join_words, lemma_join_push, take_at_most, keep_chars, ws_words, split_whitespace,
    char_alphabetic, char_alphanumeric, char_whitespace, is_alphabetic, is_alphanumeric,
    is_whitespace, utf8_len, char_len_utf8,
};

verus! {

/// The views of a list of string slices.
pub open spec fn slice_views(s: Seq<&str>) -> Seq<Seq<char>> {
    s.map_values(|x: &str| x@)
}

/// A signal: keywords and the code they call for.
pub open spec fn signal_views(s: Seq<(Vec<&str>, &str)>) -> Seq<(Seq<Seq<char>>, Seq<char>)> {
    s.map_values(|p: (Vec<&str>, &str)| (slice_views(p.0@), p.1@))
}

/// Whether `text` holds one of the keywords.
pub open spec fn holds_keyword(text: Seq<char>, keywords: Seq<Seq<char>>) -> bool {
    exists|i: int| 0 <= i < keywords.len() && has_infix(text, #[trigger] keywords[i])
}

/// The codes of the signals whose keywords `text` holds, in the order of the signals.
pub open spec fn signaled(text: Seq<char>, signals: Seq<(Seq<Seq<char>>, Seq<char>)>) -> Seq<Seq<char>>
    decreases signals.len(),
{
    if signals.len() == 0 {
        Seq::empty()
    } else if holds_keyword(text, signals.last().0) {
        signaled(text, signals.drop_last()).push(signals.last().1)
    } else {
        signaled(text, signals.drop_last())
    }
}

/// The emotion signals: keywords and their codes.
pub open spec fn emotion_signals() -> Seq<(Seq<Seq<char>>, Seq<char>)> {
    seq![
        (seq!["happy"@, "joy"@, "excited"@, "great"@], "joy"@),
        (seq!["sad"@, "unfortunate"@, "failed"@, "broke"@], "sad"@),
        (seq!["angry"@, "frustrated"@, "annoying"@], "frus"@),
        (seq!["worried"@, "concerned"@, "issue"@], "conc"@),
        (seq!["surprised"@, "unexpected"@], "surp"@),
        (seq!["decided"@, "chose"@, "switched"@], "resolve"@),
    ]
}

/// The flag signals: keywords and their codes.
pub open spec fn flag_signals() -> Seq<(Seq<Seq<char>>, Seq<char>)> {
    seq![
        (seq!["important"@, "critical"@, "urgent"@], "CRIT"@),
        (seq!["todo"@, "task"@, "action"@, "implement"@], "TODO"@),
        (seq!["bug"@, "error"@, "fix"@], "BUG"@),
        (seq!["milestone"@, "complete"@, "done"@], "MIL"@),
        (seq!["decision"@, "decided"@, "chose"@], "DEC"@),
    ]
}

fn holds_any(text: &str, keywords: &Vec<&str>) -> (r: bool)
    ensures
        r == holds_keyword(text@, slice_views(keywords@)),
{
    let mut i: usize = 0;
    while i < keywords.len()
        invariant
            i <= keywords@.len(),
            forall|j: int| 0 <= j < i ==> !has_infix(text@, #[trigger] slice_views(keywords@)[j]),
        decreases keywords@.len() - i,
    {
        if str_contains(text, keywords[i]) {
            assert(has_infix(text@, slice_views(keywords@)[i as int]));
            return true;
        }
        i = i + 1;
    }
    false
}

fn scan_signals(text: &str, signals: &Vec<(Vec<&'static str>, &'static str)>) -> (r: Vec<&'static str>)
    ensures
        slice_views(r@) == signaled(text@, signal_views(signals@)),
{
    let ghost sv = signal_views(signals@);
    let mut out: Vec<&'static str> = Vec::new();
    let mut i: usize = 0;
    assert(sv.take(0) =~= Seq::<(Seq<Seq<char>>, Seq<char>)>::empty());
    while i < signals.len()
        invariant
            i <= signals@.len(),
            sv == signal_views(signals@),
            slice_views(out@) == signaled(text@, sv.take(i as int)),
        decreases signals@.len() - i,
    {
        assert(sv.take(i + 1).drop_last() =~= sv.take(i as int));
        assert(sv.take(i + 1).last() == sv[i as int]);
        if holds_any(text, &signals[i].0) {
            let ghost before = out@;
            out.push(signals[i].1);
            assert(slice_views(out@) =~= slice_views(before).push(signals@[i as int].1@));
        }
        i = i + 1;
    }
    assert(sv.take(signals@.len() as int) =~= sv);
    out
}

/// The emotion codes that the content calls for: joy, sad, frus, conc, surp, resolve,
/// each when one of its keywords occurs in the lowercased content.
pub fn detect_emotions(content: &str) -> (r: Vec<&'static str>)
    ensures
        slice_views(r@) == signaled(lowercase(content@), emotion_signals()),
{
    let lower = to_lowercase(content);
    emotions_in(lower.as_str())
}

/// The emotion codes that an already lowercased text calls for: joy, sad, frus, conc,
/// surp, resolve, each when one of its keywords occurs in the text.
pub fn emotions_in(lower: &str) -> (r: Vec<&'static str>)
    ensures
        slice_views(r@) == signaled(lower@, emotion_signals()),
{
    let signals: Vec<(Vec<&'static str>, &'static str)> = vec![
        (vec!["happy", "joy", "excited", "great"], "joy"),
        (vec!["sad", "unfortunate", "failed", "broke"], "sad"),
        (vec!["angry", "frustrated", "annoying"], "frus"),
        (vec!["worried", "concerned", "issue"], "conc"),
        (vec!["surprised", "unexpected"], "surp"),
        (vec!["decided", "chose", "switched"], "resolve"),
    ];
    assert(signal_views(signals@) =~= emotion_signals()) by {
        assert(slice_views(signals@[0].0@) =~= emotion_signals()[0].0);
        assert(slice_views(signals@[1].0@) =~= emotion_signals()[1].0);
        assert(slice_views(signals@[2].0@) =~= emotion_signals()[2].0);
        assert(slice_views(signals@[3].0@) =~= emotion_signals()[3].0);
        assert(slice_views(signals@[4].0@) =~= emotion_signals()[4].0);
        assert(slice_views(signals@[5].0@) =~= emotion_signals()[5].0);
    }
    scan_signals(lower, &signals)
}

/// The flag codes that the content calls for: CRIT, TODO, BUG, MIL, DEC, each when one
/// of its keywords occurs in the lowercased content.
pub fn detect_flags(content: &str) -> (r: Vec<&'static str>)
    ensures
        slice_views(r@) == signaled(lowercase(content@), flag_signals()),
{
    let lower = to_lowercase(content);
    flags_in(lower.as_str())
}

/// The flag codes that an already lowercased text calls for: CRIT, TODO, BUG, MIL, DEC,
/// each when one of its keywords occurs in the text.
pub fn flags_in(lower: &str) -> (r: Vec<&'static str>)
    ensures
        slice_views(r@) == signaled(lower@, flag_signals()),
{
    let signals: Vec<(Vec<&'static str>, &'static str)> = vec![
        (vec!["important", "critical", "urgent"], "CRIT"),
        (vec!["todo", "task", "action", "implement"], "TODO"),
        (vec!["bug", "error", "fix"], "BUG"),
        (vec!["milestone", "complete", "done"], "MIL"),
        (vec!["decision", "decided", "chose"], "DEC"),
    ];
    assert(signal_views(signals@) =~= flag_signals()) by {
        assert(slice_views(signals@[0].0@) =~= flag_signals()[0].0);
        assert(slice_views(signals@[1].0@) =~= flag_signals()[1].0);
        assert(slice_views(signals@[2].0@) =~= flag_signals()[2].0);
        assert(slice_views(signals@[3].0@) =~= flag_signals()[3].0);
        assert(slice_views(signals@[4].0@) =~= flag_signals()[4].0);
    }
    scan_signals(lower, &signals)
}

} // verus!

verus! {

/// The words left out of entity extraction.
pub open spec fn stop_words() -> Seq<Seq<char>> {
    seq![
        "the"@, "a"@, "an"@, "is"@, "was"@, "are"@, "were"@, "be"@, "been"@, "being"@,
        "have"@, "has"@, "had"@, "do"@, "does"@, "did"@, "will"@, "would"@, "could"@,
        "should"@, "may"@, "might"@, "shall"@, "can"@, "need"@, "dare"@, "ought"@,
        "used"@, "to"@, "of"@, "in"@, "for"@, "on"@, "with"@, "at"@, "by"@, "from"@,
        "as"@, "into"@, "through"@, "during"@, "before"@, "after"@, "above"@, "below"@,
        "up"@, "down"@, "out"@, "off"@, "over"@, "under"@, "again"@, "then"@, "once"@,
        "and"@, "but"@, "or"@, "nor"@, "so"@, "yet"@, "both"@, "not"@, "this"@, "that"@,
        "these"@, "those"@, "it"@, "its"@, "it's"@, "he"@, "she"@, "they"@, "them"@,
        "their"@, "i"@, "my"@, "we"@, "our"@, "you"@, "your"@,
    ]
}

fn stop_word_list() -> (r: Vec<&'static str>)
    ensures
        slice_views(r@) == stop_words(),
{
    let r = vec![
        "the", "a", "an", "is", "was", "are", "were", "be", "been", "being",
        "have", "has", "had", "do", "does", "did", "will", "would", "could",
        "should", "may", "might", "shall", "can", "need", "dare", "ought",
        "used", "to", "of", "in", "for", "on", "with", "at", "by", "from",
        "as", "into", "through", "during", "before", "after", "above", "below",
        "up", "down", "out", "off", "over", "under", "again", "then", "once",
        "and", "but", "or", "nor", "so", "yet", "both", "not", "this", "that",
        "these", "those", "it", "its", "it's", "he", "she", "they", "them",
        "their", "i", "my", "we", "our", "you", "your",
    ];
    assert(slice_views(r@) =~= stop_words());
    r
}

/// The letters of a word, lowercased: what is tested against the stop words.
pub open spec fn word_letters(w: Seq<char>) -> Seq<char> {
    keep_chars(lowercase(w), |c: char| char_alphabetic(c))
}

/// Whether a word names an entity: its letters are no stop word and take more than
/// three bytes.
pub open spec fn is_entity_word(w: Seq<char>) -> bool {
    let clean = word_letters(w);
    clean.len() > 0 && !stop_words().contains(clean) && utf8_len(clean) > 3
}

/// The entity written for a word: its lowercase letters, digits and underscores.
pub open spec fn entity_form(w: Seq<char>) -> Seq<char> {
    keep_chars(lowercase(w), |c: char| char_alphanumeric(c) || c == '_')
}

/// The words of `ws` that name entities, in order.
pub open spec fn entity_words(ws: Seq<Seq<char>>) -> Seq<Seq<char>>
    decreases ws.len(),
{
    if ws.len() == 0 {
        Seq::empty()
    } else if is_entity_word(ws.last()) {
        entity_words(ws.drop_last()).push(ws.last())
    } else {
        entity_words(ws.drop_last())
    }
}

/// The entities of a text: the first five words that name entities, in entity form.
pub open spec fn entities_of(content: Seq<char>) -> Seq<Seq<char>> {
    take_at_most(entity_words(ws_words(content)), 5).map_values(|w: Seq<char>| entity_form(w))
}

fn keep_letters(s: &str) -> (r: String)
    ensures
        r@ == keep_chars(s@, |c: char| char_alphabetic(c)),
{
    let cs = chars_of(s);
    let mut out = String::new();
    let mut i: usize = 0;
    assert(s@.take(0) =~= Seq::<char>::empty());
    while i < cs.len()
        invariant
            cs@ == s@,
            i <= s@.len(),
            out@ == keep_chars(s@.take(i as int), |c: char| char_alphabetic(c)),
        decreases s@.len() - i,
    {
        assert(s@.take(i + 1).drop_last() =~= s@.take(i as int));
        assert(s@.take(i + 1).last() == cs@[i as int]);
        if is_alphabetic(cs[i]) {
            push_char(&mut out, cs[i]);
        }
        i = i + 1;
    }
    assert(s@.take(s@.len() as int) =~= s@);
    out
}

fn keep_word_chars(s: &str) -> (r: String)
    ensures
        r@ == keep_chars(s@, |c: char| char_alphanumeric(c) || c == '_'),
{
    let cs = chars_of(s);
    let mut out = String::new();
    let mut i: usize = 0;
    assert(s@.take(0) =~= Seq::<char>::empty());
    while i < cs.len()
        invariant
            cs@ == s@,
            i <= s@.len(),
            out@ == keep_chars(s@.take(i as int), |c: char| char_alphanumeric(c) || c == '_'),
        decreases s@.len() - i,
    {
        assert(s@.take(i + 1).drop_last() =~= s@.take(i as int));
        assert(s@.take(i + 1).last() == cs@[i as int]);
        if is_alphanumeric(cs[i]) || cs[i] == '_' {
            push_char(&mut out, cs[i]);
        }
        i = i + 1;
    }
    assert(s@.take(s@.len() as int) =~= s@);
    out
}

/// The number of UTF-8 bytes of `s`, counted up to `bound + 1`.
fn utf8_len_exceeds(s: &str, bound: usize) -> (r: bool)
    ensures
        r == (utf8_len(s@) > bound),
{
    let cs = chars_of(s);
    let mut total: usize = 0;
    let mut i: usize = 0;
    assert(s@.take(0) =~= Seq::<char>::empty());
    while i < cs.len()
        invariant
            cs@ == s@,
            i <= s@.len(),
            total == utf8_len(s@.take(i as int)),
            total <= bound,
        decreases s@.len() - i,
    {
        assert(s@.take(i + 1).drop_last() =~= s@.take(i as int));
        assert(s@.take(i + 1).last() == cs@[i as int]);
        let w = char_len_utf8(cs[i]);
        if w > bound - total {
            proof {
                lemma_utf8_len_prefix(s@, i + 1);
            }
            return true;
        }
        total = total + w;
        i = i + 1;
    }
    assert(s@.take(s@.len() as int) =~= s@);
    false
}

proof fn lemma_utf8_len_prefix(s: Seq<char>, k: int)
    requires
        0 <= k <= s.len(),
    ensures
        utf8_len(s.take(k)) <= utf8_len(s),
    decreases s.len(),
{
    if k < s.len() {
        assert(s.drop_last().take(k) =~= s.take(k));
        lemma_utf8_len_prefix(s.drop_last(), k);
    } else {
        assert(s.take(k) =~= s);
    }
}

/// Whether the word names an entity.
#[verifier::loop_isolation(false)]
fn entity_word(w: &str, stop: &Vec<&'static str>) -> (r: bool)
    requires
        slice_views(stop@) == stop_words(),
    ensures
        r == is_entity_word(w@),
{
    let lower = to_lowercase(w);
    let clean = keep_letters(lower.as_str());
    if clean.as_str().is_empty() {
        return false;
    }
    let mut k: usize = 0;
    while k < stop.len()
        invariant
            k <= stop@.len(),
            slice_views(stop@) == stop_words(),
            forall|j: int| 0 <= j < k ==> #[trigger] stop_words()[j] != clean@,
        decreases stop@.len() - k,
    {
        if str_eq(clean.as_str(), stop[k]) {
            assert(stop_words()[k as int] == clean@);
            assert(stop_words().contains(clean@));
            return false;
        }
        k = k + 1;
    }
    utf8_len_exceeds(clean.as_str(), 3)
}

/// The entities of a text: the first five of its words whose letters are no stop word
/// and take more than three bytes, each lowercased and kept to letters, digits and
/// underscores.
pub fn extract_entities(content: &str) -> (r: Vec<String>)
    ensures
        str_views(r@) == entities_of(content@),
{
    let stop = stop_word_list();
    let words = split_whitespace(content);
    let ghost ws = str_views(words@);
    let mut picked: Vec<String> = Vec::new();
    let mut i: usize = 0;
    assert(ws.take(0) =~= Seq::<Seq<char>>::empty());
    while i < words.len() && picked.len() < 5
        invariant
            i <= words@.len(),
            ws == str_views(words@),
            slice_views(stop@) == stop_words(),
            picked@.len() <= 5,
            str_views(picked@) == entity_words(ws.take(i as int)).map_values(|w: Seq<char>| entity_form(w)),
        decreases words@.len() - i,
    {
        assert(ws.take(i + 1).drop_last() =~= ws.take(i as int));
        assert(ws.take(i + 1).last() == words@[i as int]@);
        if entity_word(words[i].as_str(), &stop) {
            let lower = to_lowercase(words[i].as_str());
            let form = keep_word_chars(lower.as_str());
            let ghost before = picked@;
            picked.push(form);
            assert(str_views(picked@) =~= str_views(before).push(entity_form(words@[i as int]@)));
        }
        i = i + 1;
    }
    proof {
        lemma_entity_words_prefix(ws, i as nat);
        if i < ws.len() {
            assert(picked@.len() == 5);
        } else {
            assert(ws.take(i as int) =~= ws);
        }
    }
    picked
}

proof fn lemma_entity_words_prefix(ws: Seq<Seq<char>>, i: nat)
    requires
        i <= ws.len(),
    ensures
        entity_words(ws.take(i as int)).len() <= entity_words(ws).len(),
        entity_words(ws.take(i as int)) == entity_words(ws).take(entity_words(ws.take(i as int)).len() as int),
    decreases ws.len(),
{
    if i == ws.len() {
        assert(ws.take(i as int) =~= ws);
        assert(entity_words(ws).take(entity_words(ws).len() as int) =~= entity_words(ws));
    } else {
        assert(ws.drop_last().take(i as int) =~= ws.take(i as int));
        lemma_entity_words_prefix(ws.drop_last(), i);
        let a = entity_words(ws.take(i as int));
        let b = entity_words(ws.drop_last());
        if is_entity_word(ws.last()) {
            assert(b.push(ws.last()).take(a.len() as int) =~= b.take(a.len() as int));
        }
    }
}

} // verus!

verus! {

/// The text before the first full stop, or all of it when there is none.
pub open spec fn before_dot(s: Seq<char>) -> Seq<char>
    decreases s.len(),
{
    if s.len() == 0 {
        s
    } else if s[0] == '.' {
        Seq::empty()
    } else {
        seq![s[0]] + before_dot(s.drop_first())
    }
}

/// `s` without leading and trailing whitespace, as `str::trim` gives it.
pub open spec fn trim_ws(s: Seq<char>) -> Seq<char>
    decreases s.len(),
{
    if s.len() > 0 && char_whitespace(s[0]) {
        trim_ws(s.drop_first())
    } else if s.len() > 0 && char_whitespace(s.last()) {
        trim_ws(s.drop_last())
    } else {
        s
    }
}

/// The first sentence of a text, trimmed.
pub open spec fn first_sentence(content: Seq<char>) -> Seq<char> {
    trim_ws(before_dot(content))
}

/// The key sentence of a text: its first sentence, trimmed, or, when that has more
/// than 80 characters, its first 77 characters and "...".
pub open spec fn key_sentence(content: Seq<char>) -> Seq<char> {
    let s = first_sentence(content);
    if s.len() > 80 {
        s.take(77) + "..."@
    } else {
        s
    }
}

fn first_dot(cs: &Vec<char>) -> (r: usize)
    ensures
        r <= cs@.len(),
        before_dot(cs@) == cs@.take(r as int),
{
    let mut i: usize = 0;
    while i < cs.len()
        invariant
            i <= cs@.len(),
            forall|j: int| 0 <= j < i ==> cs@[j] != '.',
        ensures
            i <= cs@.len(),
            forall|j: int| 0 <= j < i ==> cs@[j] != '.',
            i < cs@.len() ==> cs@[i as int] == '.',
        decreases cs@.len() - i,
    {
        if cs[i] == '.' {
            break;
        }
        i = i + 1;
    }
    proof {
        lemma_before_dot(cs@, i as int);
    }
    i
}

proof fn lemma_before_dot(s: Seq<char>, d: int)
    requires
        0 <= d <= s.len(),
        forall|j: int| 0 <= j < d ==> s[j] != '.',
        d < s.len() ==> s[d] == '.',
    ensures
        before_dot(s) == s.take(d),
    decreases s.len(),
{
    if s.len() > 0 && d > 0 {
        lemma_before_dot(s.drop_first(), d - 1);
        assert(s.take(d) =~= seq![s[0]] + s.drop_first().take(d - 1));
    } else if s.len() > 0 {
        assert(s.take(d) =~= Seq::<char>::empty());
    } else {
        assert(s.take(d) =~= s);
    }
}

/// The first sentence of `content`, trimmed.
#[verifier::loop_isolation(false)]
fn first_sentence_of(content: &str) -> (r: Vec<char>)
    ensures
        r@ == first_sentence(content@),
{
    let cs = chars_of(content);
    let d = first_dot(&cs);
    let ghost s = cs@.take(d as int);
    let mut a: usize = 0;
    assert(s.subrange(0, d as int) =~= s);
    while a < d && is_whitespace(cs[a])
        invariant
            a <= d,
            trim_ws(s) == trim_ws(s.subrange(a as int, d as int)),
        decreases d - a,
    {
        let ghost sub = s.subrange(a as int, d as int);
        assert(sub[0] == cs@[a as int]);
        assert(sub.drop_first() =~= s.subrange(a + 1, d as int));
        a = a + 1;
    }
    let mut b: usize = d;
    while b > a && is_whitespace(cs[b - 1])
        invariant
            a <= b <= d,
            trim_ws(s) == trim_ws(s.subrange(a as int, b as int)),
            a < b ==> !char_whitespace(cs@[a as int]),
        decreases b - a,
    {
        let ghost sub = s.subrange(a as int, b as int);
        assert(sub[0] == cs@[a as int]);
        assert(sub.last() == cs@[b - 1]);
        assert(sub.drop_last() =~= s.subrange(a as int, b - 1));
        b = b - 1;
    }
    let ghost sub = s.subrange(a as int, b as int);
    if a < b {
        assert(sub[0] == cs@[a as int]);
        assert(sub.last() == cs@[b - 1]);
    }
    let mut out: Vec<char> = Vec::new();
    let mut k: usize = a;
    while k < b
        invariant
            a <= k <= b,
            out@ == sub.take(k - a),
        decreases b - k,
    {
        out.push(cs[k]);
        assert(out@ =~= sub.take(k + 1 - a));
        k = k + 1;
    }
    assert(sub.take(b - a) =~= sub);
    out
}

/// The key sentence of a text: its first sentence, trimmed, or, when that has more
/// than 80 characters, its first 77 characters and "...".
pub fn extract_key_sentence(content: &str) -> (r: String)
    ensures
        r@ == key_sentence(content@),
{
    let cs = first_sentence_of(content);
    let ghost s = cs@;
    let n: usize = if cs.len() > 80 { 77 } else { cs.len() };
    let mut out = String::new();
    let mut i: usize = 0;
    while i < n
        invariant
            cs@ == s,
            n <= s.len(),
            i <= n,
            out@ == s.take(i as int),
        decreases n - i,
    {
        push_char(&mut out, cs[i]);
        assert(out@ =~= s.take(i + 1));
        i = i + 1;
    }
    if cs.len() > 80 {
        proof {
            reveal_strlit("...");
        }
        concat(out.as_str(), "...")
    } else {
        assert(s.take(n as int) =~= s);
        out
    }
}

} // verus!

verus! {

/// `s`, or `d` when `s` is empty.
pub open spec fn or_default(s: Seq<char>, d: Seq<char>) -> Seq<char> {
    if s.len() > 0 {
        s
    } else {
        d
    }
}

/// The entities of a text joined by underscores, or "???" when it has none.
pub open spec fn entity_field(content: Seq<char>) -> Seq<char> {
    let ents = entities_of(content);
    if ents.len() == 0 {
        "???"@
    } else {
        join_words(ents, '_')
    }
}

/// A drawer in the AAAK dialect:
/// `WING|ROOM|DATE|FILE` then, on a second line,
/// `ENTITIES|TOPICS|"KEY_SENTENCE"|EMOTIONS|FLAGS`.
pub open spec fn aaak(d: Drawer) -> Seq<char> {
    d.wing@ + "|"@ + d.room@ + "|"@ + or_default(d.date@, "?"@) + "|"@ + d.source_file@ + "\n"@
        + entity_field(d.content@) + "|"@ + or_default(d.topic@, "???"@) + "|\""@ + key_sentence(
        d.content@,
    ) + "\"|"@ + join_words(signaled(lowercase(d.content@), emotion_signals()), ',') + "|"@
        + join_words(signaled(lowercase(d.content@), flag_signals()), ',')
}

/// A drawer compressed into the AAAK dialect.
pub fn compress_to_aaak(drawer: &Drawer) -> (r: String)
    ensures
        r@ == aaak(*drawer),
        exists|pre: Seq<char>|
            r@ == pre + "\"|"@ + join_words(signaled(lowercase(drawer.content@), emotion_signals()), ',') + "|"@
                + join_words(signaled(lowercase(drawer.content@), flag_signals()), ','),
{
    proof {
        lemma_aaak_ends_with_codes(*drawer);
    }
    let emotions = detect_emotions(drawer.content.as_str());
    let flags = detect_flags(drawer.content.as_str());
    let entities = extract_entities(drawer.content.as_str());
    let key_sentence = extract_key_sentence(drawer.content.as_str());
    proof {
        reveal_strlit("???");
        reveal_strlit("?");
    }
    let topics = if !drawer.topic.as_str().is_empty() { drawer.topic.clone() } else { "???".to_owned() };
    let date = if !drawer.date.as_str().is_empty() { drawer.date.clone() } else { "?".to_owned() };
    let entity_str = if entities.len() == 0 { "???".to_owned() } else { crate::text::join_strings(&entities, '_') };
    let emotion_str = crate::text::join_strs(&emotions, ',');
    let flag_str = crate::text::join_strs(&flags, ',');
    let mut out = concat(drawer.wing.as_str(), "|");
    out = concat(out.as_str(), drawer.room.as_str());
    out = concat(out.as_str(), "|");
    out = concat(out.as_str(), date.as_str());
    out = concat(out.as_str(), "|");
    out = concat(out.as_str(), drawer.source_file.as_str());
    out = concat(out.as_str(), "\n");
    out = concat(out.as_str(), entity_str.as_str());
    out = concat(out.as_str(), "|");
    out = concat(out.as_str(), topics.as_str());
    out = concat(out.as_str(), "|\"");
    out = concat(out.as_str(), key_sentence.as_str());
    out = concat(out.as_str(), "\"|");
    out = concat(out.as_str(), emotion_str.as_str());
    out = concat(out.as_str(), "|");
    out = concat(out.as_str(), flag_str.as_str());
    assert(emotions@.map_values(|x: &str| x@) =~= slice_views(emotions@));
    assert(flags@.map_values(|x: &str| x@) =~= slice_views(flags@));
    out
}

/// The key sentence takes at most 80 characters.
pub proof fn lemma_key_sentence_fits(content: Seq<char>)
    ensures
        key_sentence(content).len() <= 80,
{
    reveal_strlit("...");
}

/// A text names at most five entities.
pub proof fn lemma_entities_at_most_five(content: Seq<char>)
    ensures
        entities_of(content).len() <= 5,
{
}

} // verus!

verus! {

/// The AAAK line of a drawer ends with its emotion and flag fields, and those are the
/// codes that `detect_emotions` and `detect_flags` give for its content: codes found on
/// the lowercased content, so that the case of the content does not change them.
pub proof fn lemma_aaak_ends_with_codes(d: Drawer)
    ensures
        exists|pre: Seq<char>|
            aaak(d) == pre + "\"|"@ + join_words(signaled(lowercase(d.content@), emotion_signals()), ',') + "|"@
                + join_words(signaled(lowercase(d.content@), flag_signals()), ','),
{
    let pre = d.wing@ + "|"@ + d.room@ + "|"@ + or_default(d.date@, "?"@) + "|"@ + d.source_file@ + "\n"@
        + entity_field(d.content@) + "|"@ + or_default(d.topic@, "???"@) + "|\""@ + key_sentence(d.content@);
    let e = join_words(signaled(lowercase(d.content@), emotion_signals()), ',');
    let f = join_words(signaled(lowercase(d.content@), flag_signals()), ',');
    assert(aaak(d) =~= pre + "\"|"@ + e + "|"@ + f);
}

/// A signal's code is among the codes found in a text exactly when the text holds one
/// of the signal's keywords (codes of different signals being different).
pub proof fn lemma_signaled_codes(text: Seq<char>, signals: Seq<(Seq<Seq<char>>, Seq<char>)>, i: int)
    requires
        0 <= i < signals.len(),
        forall|a: int, b: int| 0 <= a < b < signals.len() ==> (#[trigger] signals[a]).1 != (#[trigger] signals[b]).1,
    ensures
        signaled(text, signals).contains(signals[i].1) <==> exists|j: int|
            0 <= j < signals[i].0.len() && has_infix(text, #[trigger] signals[i].0[j]),
    decreases signals.len(),
{
    let init = signals.drop_last();
    let r = signaled(text, signals);
    let p = signaled(text, init);
    lemma_signaled_from(text, init);
    if i < signals.len() - 1 {
        assert forall|a: int, b: int| 0 <= a < b < init.len() implies (#[trigger] init[a]).1 != (#[trigger] init[b]).1 by {
            assert(init[a] == signals[a] && init[b] == signals[b]);
        }
        assert(init[i] == signals[i]);
        lemma_signaled_codes(text, init, i);
        if holds_keyword(text, signals.last().0) {
            assert(r == p.push(signals.last().1));
            assert(signals[signals.len() - 1] == signals.last());
            assert(signals.last().1 != signals[i].1);
            if r.contains(signals[i].1) {
                let k = choose|k: int| 0 <= k < r.len() && r[k] == signals[i].1;
                assert(k < p.len());
                assert(p[k] == r[k]);
            }
            if p.contains(signals[i].1) {
                let k = choose|k: int| 0 <= k < p.len() && p[k] == signals[i].1;
                assert(r[k] == p[k]);
            }
        }
    } else {
        assert(signals[i] == signals.last());
        assert(!p.contains(signals[i].1)) by {
            if p.contains(signals[i].1) {
                let k = choose|k: int| 0 <= k < p.len() && p[k] == signals[i].1;
                let m = choose|m: int| 0 <= m < init.len() && init[m].1 == p[k];
                assert(init[m] == signals[m]);
            }
        }
        if holds_keyword(text, signals.last().0) {
            assert(r == p.push(signals.last().1));
            assert(r[r.len() - 1] == signals[i].1);
        }
    }
}

proof fn lemma_signaled_from(text: Seq<char>, signals: Seq<(Seq<Seq<char>>, Seq<char>)>)
    ensures
        forall|k: int| #![trigger signaled(text, signals)[k]] 0 <= k < signaled(text, signals).len() ==> exists|m: int|
            0 <= m < signals.len() && (#[trigger] signals[m]).1 == signaled(text, signals)[k],
    decreases signals.len(),
{
    if signals.len() > 0 {
        let init = signals.drop_last();
        lemma_signaled_from(text, init);
        let p = signaled(text, init);
        let r = signaled(text, signals);
        assert forall|k: int| #![trigger r[k]] 0 <= k < r.len() implies exists|m: int|
            0 <= m < signals.len() && (#[trigger] signals[m]).1 == r[k] by {
            if k < p.len() {
                assert(r[k] == p[k]);
                let m = choose|m: int| 0 <= m < init.len() && (#[trigger] init[m]).1 == p[k];
                assert(signals[m] == init[m]);
            } else {
                assert(signals[signals.len() - 1].1 == r[k]);
            }
        }
    }
}

} // verus!
