use vstd::prelude::*;

verus! {

/// The index at which `x` goes into `s`: the first element that `x` must precede,
/// or the end when there is none.
pub open spec fn insert_pos<T>(s: Seq<T>, x: T, before: spec_fn(T, T) -> bool) -> int
    decreases s.len(),
{
    if s.len() == 0 {
        0
    } else if before(x, s[0]) {
        0
    } else {
        1 + insert_pos(s.drop_first(), x, before)
    }
}

/// `s` with `x` placed after every element that it need not precede.
pub open spec fn insert_by<T>(s: Seq<T>, x: T, before: spec_fn(T, T) -> bool) -> Seq<T> {
    s.insert(insert_pos(s, x, before), x)
}

/// The stable sort of `s` by the strict order `before`: elements that `before` does not
/// separate keep the order in which they stand in `s`.
pub open spec fn sort_by<T>(s: Seq<T>, before: spec_fn(T, T) -> bool) -> Seq<T>
    decreases s.len(),
{
    if s.len() == 0 {
        s
    } else {
        insert_by(sort_by(s.drop_last(), before), s.last(), before)
    }
}

proof fn lemma_insert_pos<T>(s: Seq<T>, x: T, before: spec_fn(T, T) -> bool, p: int)
    requires
        0 <= p <= s.len(),
        forall|q: int| 0 <= q < p ==> !before(x, #[trigger] s[q]),
        p < s.len() ==> before(x, s[p]),
    ensures
        insert_pos(s, x, before) == p,
    decreases s.len(),
{
    if s.len() > 0 && p > 0 {
        assert forall|q: int| 0 <= q < p - 1 implies !before(x, #[trigger] s.drop_first()[q]) by {
            assert(s.drop_first()[q] == s[q + 1]);
        }
        lemma_insert_pos(s.drop_first(), x, before, p - 1);
    }
}

pub proof fn lemma_insert_pos_bounds<T>(s: Seq<T>, x: T, before: spec_fn(T, T) -> bool)
    ensures
        0 <= insert_pos(s, x, before) <= s.len(),
    decreases s.len(),
{
    if s.len() > 0 && !before(x, s[0]) {
        lemma_insert_pos_bounds(s.drop_first(), x, before);
    }
}

pub proof fn lemma_sort_by_len<T>(s: Seq<T>, before: spec_fn(T, T) -> bool)
    ensures
        sort_by(s, before).len() == s.len(),
    decreases s.len(),
{
    if s.len() > 0 {
        lemma_sort_by_len(s.drop_last(), before);
        lemma_insert_pos_bounds(sort_by(s.drop_last(), before), s.last(), before);
    }
}

/// Stable insertion sort of `v` by `before`, the executable form of `sort_by`.
pub fn stable_sort<T, F: Fn(&T, &T) -> bool>(
    v: Vec<T>,
    before: F,
    Ghost(b): Ghost<spec_fn(T, T) -> bool>,
) -> (r: Vec<T>)
    requires
        forall|x: &T, y: &T| #[trigger] before.requires((x, y)),
        forall|x: &T, y: &T, res: bool| before.ensures((x, y), res) ==> res == b(*x, *y),
    ensures
        r@ == sort_by(v@, b),
{
    let ghost orig = v@;
    let mut input = v;
    let mut out: Vec<T> = Vec::new();
    let ghost mut done: int = 0;
    assert(orig.take(0) =~= Seq::<T>::empty());
    while input.len() > 0
        invariant
            0 <= done <= orig.len(),
            input@ == orig.skip(done),
            out@ == sort_by(orig.take(done), b),
            forall|x: &T, y: &T| #[trigger] before.requires((x, y)),
            forall|x: &T, y: &T, res: bool| before.ensures((x, y), res) ==> res == b(*x, *y),
        decreases input.len(),
    {
        let x = input.remove(0);
        proof {
            lemma_sort_by_len(orig.take(done), b);
        }
        let mut p: usize = 0;
        while p < out.len()
            invariant
                p <= out@.len(),
                forall|q: int| 0 <= q < p ==> !b(x, #[trigger] out@[q]),
                forall|x: &T, y: &T| #[trigger] before.requires((x, y)),
                forall|x: &T, y: &T, res: bool| before.ensures((x, y), res) ==> res == b(*x, *y),
            ensures
                p <= out@.len(),
                forall|q: int| 0 <= q < p ==> !b(x, #[trigger] out@[q]),
                p < out@.len() ==> b(x, out@[p as int]),
            decreases out@.len() - p,
        {
            if before(&x, &out[p]) {
                break;
            }
            p = p + 1;
        }
        proof {
            lemma_insert_pos(out@, x, b, p as int);
            assert(orig.take(done + 1).drop_last() =~= orig.take(done));
            assert(orig.take(done + 1).last() == x);
        }
        out.insert(p, x);
        proof {
            done = done + 1;
            assert(input@ =~= orig.skip(done));
        }
    }
    assert(orig.take(done) =~= orig);
    out
}

} // verus!

verus! {

proof fn lemma_insert_pos_map<A, B>(
    s: Seq<A>,
    x: A,
    f: spec_fn(A) -> B,
    b: spec_fn(B, B) -> bool,
    ba: spec_fn(A, A) -> bool,
)
    requires
        forall|p: A, q: A| #[trigger] ba(p, q) == b(f(p), f(q)),
    ensures
        insert_pos(s, x, ba) == insert_pos(s.map_values(f), f(x), b),
    decreases s.len(),
{
    if s.len() > 0 {
        assert(s.map_values(f).drop_first() =~= s.drop_first().map_values(f));
        assert(ba(x, s[0]) == b(f(x), f(s[0])));
        lemma_insert_pos_map(s.drop_first(), x, f, b, ba);
    }
}

/// Sorting commutes with a map under which the order is the same.
pub proof fn lemma_sort_by_map<A, B>(
    s: Seq<A>,
    f: spec_fn(A) -> B,
    b: spec_fn(B, B) -> bool,
    ba: spec_fn(A, A) -> bool,
)
    requires
        forall|p: A, q: A| #[trigger] ba(p, q) == b(f(p), f(q)),
    ensures
        sort_by(s, ba).map_values(f) == sort_by(s.map_values(f), b),
    decreases s.len(),
{
    if s.len() > 0 {
        lemma_sort_by_map(s.drop_last(), f, b, ba);
        assert(s.map_values(f).drop_last() =~= s.drop_last().map_values(f));
        let sorted = sort_by(s.drop_last(), ba);
        lemma_insert_pos_map(sorted, s.last(), f, b, ba);
        lemma_insert_pos_bounds(sorted, s.last(), ba);
        let p = insert_pos(sorted, s.last(), ba);
        assert(sorted.insert(p, s.last()).map_values(f) =~= sorted.map_values(f).insert(
            p,
            f(s.last()),
        ));
    }
}

} // verus!

verus! {

/// Whether `s` is ordered by `before`: no element must precede one placed before it.
pub open spec fn is_sorted_by<T>(s: Seq<T>, before: spec_fn(T, T) -> bool) -> bool {
    forall|i: int, j: int| 0 <= i < j < s.len() ==> !before(#[trigger] s[j], #[trigger] s[i])
}

/// Whether `before` is a strict order: irreflexive and transitive.
pub open spec fn is_strict_order<T>(before: spec_fn(T, T) -> bool) -> bool {
    &&& forall|x: T| !#[trigger] before(x, x)
    &&& forall|x: T, y: T, z: T| #[trigger] before(x, y) && #[trigger] before(y, z) ==> before(x, z)
}

proof fn lemma_insert_pos_spec<T>(s: Seq<T>, x: T, before: spec_fn(T, T) -> bool)
    ensures
        0 <= insert_pos(s, x, before) <= s.len(),
        forall|q: int| 0 <= q < insert_pos(s, x, before) ==> !before(x, #[trigger] s[q]),
        insert_pos(s, x, before) < s.len() ==> before(x, s[insert_pos(s, x, before)]),
    decreases s.len(),
{
    if s.len() > 0 && !before(x, s[0]) {
        lemma_insert_pos_spec(s.drop_first(), x, before);
        let p = insert_pos(s, x, before);
        assert forall|q: int| 0 <= q < p implies !before(x, #[trigger] s[q]) by {
            if q > 0 {
                assert(s[q] == s.drop_first()[q - 1]);
            }
        }
        if p < s.len() {
            assert(s[p] == s.drop_first()[p - 1]);
        }
    }
}

/// A stable sort by a strict order yields an ordered sequence with the same elements.
pub proof fn lemma_sort_by_sorted<T>(s: Seq<T>, before: spec_fn(T, T) -> bool)
    requires
        is_strict_order(before),
    ensures
        is_sorted_by(sort_by(s, before), before),
        sort_by(s, before).to_multiset() == s.to_multiset(),
    decreases s.len(),
{
    broadcast use vstd::seq_lib::group_to_multiset_ensures;
    if s.len() > 0 {
        lemma_sort_by_sorted(s.drop_last(), before);
        let out = sort_by(s.drop_last(), before);
        let x = s.last();
        lemma_insert_pos_spec(out, x, before);
        let p = insert_pos(out, x, before);
        let r = out.insert(p, x);
        assert forall|i: int, j: int| 0 <= i < j < r.len() implies !before(#[trigger] r[j], #[trigger] r[i]) by {
            if j < p {
                assert(r[i] == out[i] && r[j] == out[j]);
            } else if j == p {
                assert(r[i] == out[i]);
            } else if i == p {
                assert(r[j] == out[j - 1]);
                if before(out[j - 1], x) {
                    if j - 1 == p {
                        assert(before(x, out[p]));
                    } else {
                        assert(before(x, out[p]));
                        assert(!before(out[j - 1], out[p]));
                    }
                }
            } else if i < p {
                assert(r[i] == out[i] && r[j] == out[j - 1]);
            } else {
                assert(r[i] == out[i - 1] && r[j] == out[j - 1]);
            }
        }
        assert(r.remove(p) =~= out);
        assert(r[p] == x);
        assert(s.drop_last().push(x) =~= s);
        assert(r.to_multiset() =~= out.to_multiset().insert(x)) by {
            assert(r.remove(p).to_multiset() =~= r.to_multiset().remove(x));
            assert(r.to_multiset().count(x) > 0) by {
                assert(r.contains(x));
            }
        }
    }
}

} // verus!

verus! {

/// A stable sort keeps the elements that it is given, as many times as they occur.
pub proof fn lemma_sort_by_permutes<T>(s: Seq<T>, before: spec_fn(T, T) -> bool)
    ensures
        sort_by(s, before).to_multiset() == s.to_multiset(),
    decreases s.len(),
{
    broadcast use vstd::seq_lib::group_to_multiset_ensures;
    if s.len() > 0 {
        lemma_sort_by_permutes(s.drop_last(), before);
        let out = sort_by(s.drop_last(), before);
        let x = s.last();
        lemma_insert_pos_bounds(out, x, before);
        let p = insert_pos(out, x, before);
        let r = out.insert(p, x);
        assert(r.remove(p) =~= out);
        assert(r[p] == x);
        assert(s.drop_last().push(x) =~= s);
        assert(r.to_multiset() =~= out.to_multiset().insert(x)) by {
            assert(r.remove(p).to_multiset() =~= r.to_multiset().remove(x));
            assert(r.to_multiset().count(x) > 0) by {
                assert(r.contains(x));
            }
        }
    }
}

/// An element is in a sorted sequence exactly when it is in the sequence sorted.
pub proof fn lemma_sort_by_contains<T>(s: Seq<T>, before: spec_fn(T, T) -> bool, x: T)
    ensures
        sort_by(s, before).contains(x) == s.contains(x),
{
    broadcast use vstd::seq_lib::group_to_multiset_ensures;
    lemma_sort_by_permutes(s, before);
    assert(sort_by(s, before).contains(x) == (sort_by(s, before).to_multiset().count(x) > 0));
    assert(s.contains(x) == (s.to_multiset().count(x) > 0));
}

} // verus!
