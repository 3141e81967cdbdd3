//! Stable sorting of strings by the order of `str`.

use vstd::prelude::*;
use crate::order::{lemma_lex_transitive, lemma_lex_trichotomy, lex_less_str, lex_lt, lex_le};

verus! {

pub open spec fn views_of(s: Seq<String>) -> Seq<Seq<char>> {
    s.map_values(|x: String| x@)
}

/// The first components of the pairs whose second component is `true`.
pub open spec fn firsts_where_second(s: Seq<(String, bool)>) -> Seq<String>
    decreases s.len(),
{
    if s.len() == 0 {
        Seq::empty()
    } else if s.last().1 {
        firsts_where_second(s.drop_last()).push(s.last().0)
    } else {
        firsts_where_second(s.drop_last())
    }
}

/// Index at which `x` is inserted into `s`: before the first element that is
/// greater than `x`, so that equal elements keep their order.
pub open spec fn insert_pos(s: Seq<Seq<char>>, x: Seq<char>) -> int
    decreases s.len(),
{
    if s.len() == 0 {
        0
    } else if lex_lt(x, s[0]) {
        0
    } else {
        1 + insert_pos(s.drop_first(), x)
    }
}

/// Stable insertion sort.
pub open spec fn sort_seq(s: Seq<Seq<char>>) -> Seq<Seq<char>>
    decreases s.len(),
{
    if s.len() == 0 {
        s
    } else {
        let r = sort_seq(s.drop_last());
        r.insert(insert_pos(r, s.last()), s.last())
    }
}

pub open spec fn is_sorted(s: Seq<Seq<char>>) -> bool {
    forall|i: int, j: int| 0 <= i < j < s.len() ==> lex_le(#[trigger] s[i], #[trigger] s[j])
}

pub proof fn lemma_insert_pos(s: Seq<Seq<char>>, x: Seq<char>)
    ensures
        0 <= insert_pos(s, x) <= s.len(),
        forall|i: int| 0 <= i < insert_pos(s, x) ==> !lex_lt(x, #[trigger] s[i]),
        insert_pos(s, x) < s.len() ==> lex_lt(x, s[insert_pos(s, x)]),
    decreases s.len(),
{
    if s.len() > 0 && !lex_lt(x, s[0]) {
        let t = s.drop_first();
        lemma_insert_pos(t, x);
        assert forall|i: int| 0 <= i < insert_pos(s, x) implies !lex_lt(x, #[trigger] s[i]) by {
            if i > 0 {
                assert(s[i] == t[i - 1]);
            }
        }
    }
}

/// A scan position that satisfies the characterization is `insert_pos`.
proof fn lemma_insert_pos_at(s: Seq<Seq<char>>, x: Seq<char>, j: int)
    requires
        0 <= j <= s.len(),
        forall|i: int| 0 <= i < j ==> !lex_lt(x, #[trigger] s[i]),
        j < s.len() ==> lex_lt(x, s[j]),
    ensures
        insert_pos(s, x) == j,
{
    lemma_insert_pos(s, x);
    let p = insert_pos(s, x);
    if p < j {
        assert(!lex_lt(x, s[p]));
    } else if p > j {
        assert(!lex_lt(x, s[j]));
    }
}

/// Sorts strings; equal strings keep their relative order.
pub fn sort_strings(v: Vec<String>) -> (r: Vec<String>)
    ensures
        views_of(r@) == sort_seq(views_of(v@)),
{
    let mut r: Vec<String> = Vec::new();
    let mut i: usize = 0;
    let ghost vv = views_of(v@);
    while i < v.len()
        invariant
            i <= v@.len(),
            vv == views_of(v@),
            views_of(r@) == sort_seq(vv.subrange(0, i as int)),
        decreases v@.len() - i,
    {
        let ghost rv = views_of(r@);
        let x = &v[i];
        let mut j: usize = 0;
        while j < r.len() && !lex_less_str(x.as_str(), r[j].as_str())
            invariant
                j <= r@.len(),
                rv == views_of(r@),
                forall|k: int| 0 <= k < j ==> !lex_lt(x@, #[trigger] rv[k]),
            decreases r@.len() - j,
        {
            j = j + 1;
        }
        proof {
            lemma_insert_pos_at(rv, x@, j as int);
            assert(vv.subrange(0, i + 1).drop_last() =~= vv.subrange(0, i as int));
            assert(vv.subrange(0, i + 1).last() == x@);
        }
        r.insert(j, x.clone());
        i = i + 1;
        proof {
            assert(views_of(r@) =~= rv.insert(j as int, x@));
        }
    }
    proof {
        assert(vv.subrange(0, vv.len() as int) =~= vv);
    }
    r
}

// ---------------------------------------------------------------------------
// What sorting gives
// ---------------------------------------------------------------------------

/// The sorted sequence is in order.
pub proof fn lemma_sort_sorted(s: Seq<Seq<char>>)
    ensures
        is_sorted(sort_seq(s)),
        sort_seq(s).len() == s.len(),
    decreases s.len(),
{
    if s.len() > 0 {
        let r = sort_seq(s.drop_last());
        lemma_sort_sorted(s.drop_last());
        let x = s.last();
        let p = insert_pos(r, x);
        lemma_insert_pos(r, x);
        let t = r.insert(p, x);
        assert forall|i: int, j: int| 0 <= i < j < t.len() implies lex_le(#[trigger] t[i], #[trigger] t[j]) by {
            if j < p {
                assert(t[i] == r[i] && t[j] == r[j]);
            } else if j == p {
                assert(t[i] == r[i]);
                lemma_lex_trichotomy(x, r[i]);
            } else if i < p {
                assert(t[i] == r[i] && t[j] == r[j - 1]);
            } else if i == p {
                assert(t[j] == r[j - 1]);
                assert(lex_lt(x, r[p]));
                if j - 1 > p {
                    assert(lex_le(r[p], r[j - 1]));
                    if lex_lt(r[p], r[j - 1]) {
                        lemma_lex_transitive(x, r[p], r[j - 1]);
                    }
                }
            } else {
                assert(t[i] == r[i - 1] && t[j] == r[j - 1]);
            }
        }
    }
}

/// The sorted sequence holds the same elements, as many times each.
pub proof fn lemma_sort_permutes(s: Seq<Seq<char>>)
    ensures
        sort_seq(s).to_multiset() == s.to_multiset(),
    decreases s.len(),
{
    broadcast use vstd::seq_lib::group_to_multiset_ensures;
    if s.len() > 0 {
        let r = sort_seq(s.drop_last());
        lemma_sort_permutes(s.drop_last());
        let x = s.last();
        let p = insert_pos(r, x);
        lemma_insert_pos(r, x);
        vstd::seq_lib::lemma_multiset_commutative(r.subrange(0, p), seq![x] + r.subrange(p, r.len() as int));
        assert(r.insert(p, x) =~= r.subrange(0, p) + (seq![x] + r.subrange(p, r.len() as int)));
        assert(r =~= r.subrange(0, p) + r.subrange(p, r.len() as int));
        vstd::seq_lib::lemma_multiset_commutative(r.subrange(0, p), r.subrange(p, r.len() as int));
        vstd::seq_lib::lemma_multiset_commutative(seq![x], r.subrange(p, r.len() as int));
        assert(s =~= s.drop_last().push(x));
    }
}

// ---------------------------------------------------------------------------
// Sorting by a string key
// ---------------------------------------------------------------------------

/// Index at which `x` joins `s` when ordering by `key`: before the first
/// element whose key is greater, so that equal keys keep their order.
pub open spec fn key_pos<T>(s: Seq<T>, x: T, key: spec_fn(T) -> Seq<char>) -> int
    decreases s.len(),
{
    if s.len() == 0 {
        0
    } else if lex_lt(key(x), key(s[0])) {
        0
    } else {
        1 + key_pos(s.drop_first(), x, key)
    }
}

/// Stable insertion sort by `key`.
pub open spec fn sort_by_key<T>(s: Seq<T>, key: spec_fn(T) -> Seq<char>) -> Seq<T>
    decreases s.len(),
{
    if s.len() == 0 {
        s
    } else {
        let r = sort_by_key(s.drop_last(), key);
        r.insert(key_pos(r, s.last(), key), s.last())
    }
}

pub open spec fn is_sorted_by_key<T>(s: Seq<T>, key: spec_fn(T) -> Seq<char>) -> bool {
    forall|i: int, j: int| 0 <= i < j < s.len() ==> lex_le(key(#[trigger] s[i]), key(#[trigger] s[j]))
}

pub proof fn lemma_key_pos<T>(s: Seq<T>, x: T, key: spec_fn(T) -> Seq<char>)
    ensures
        0 <= key_pos(s, x, key) <= s.len(),
        forall|i: int| 0 <= i < key_pos(s, x, key) ==> !lex_lt(key(x), key(#[trigger] s[i])),
        key_pos(s, x, key) < s.len() ==> lex_lt(key(x), key(s[key_pos(s, x, key)])),
    decreases s.len(),
{
    if s.len() > 0 && !lex_lt(key(x), key(s[0])) {
        let t = s.drop_first();
        lemma_key_pos(t, x, key);
        assert forall|i: int| 0 <= i < key_pos(s, x, key) implies !lex_lt(key(x), key(#[trigger] s[i])) by {
            if i > 0 {
                assert(s[i] == t[i - 1]);
            }
        }
    }
}

/// A scan position that satisfies the characterization is `key_pos`.
pub proof fn lemma_key_pos_at<T>(s: Seq<T>, x: T, key: spec_fn(T) -> Seq<char>, j: int)
    requires
        0 <= j <= s.len(),
        forall|i: int| 0 <= i < j ==> !lex_lt(key(x), key(#[trigger] s[i])),
        j < s.len() ==> lex_lt(key(x), key(s[j])),
    ensures
        key_pos(s, x, key) == j,
{
    lemma_key_pos(s, x, key);
    let p = key_pos(s, x, key);
    if p < j {
        assert(!lex_lt(key(x), key(s[p])));
    } else if p > j {
        assert(!lex_lt(key(x), key(s[j])));
    }
}

/// Sorting by key puts the keys in order.
pub proof fn lemma_sort_by_key_sorted<T>(s: Seq<T>, key: spec_fn(T) -> Seq<char>)
    ensures
        is_sorted_by_key(sort_by_key(s, key), key),
        sort_by_key(s, key).len() == s.len(),
    decreases s.len(),
{
    if s.len() > 0 {
        let r = sort_by_key(s.drop_last(), key);
        lemma_sort_by_key_sorted(s.drop_last(), key);
        let x = s.last();
        let p = key_pos(r, x, key);
        lemma_key_pos(r, x, key);
        let t = r.insert(p, x);
        assert forall|i: int, j: int| 0 <= i < j < t.len() implies lex_le(
            key(#[trigger] t[i]),
            key(#[trigger] t[j]),
        ) by {
            if j < p {
                assert(t[i] == r[i] && t[j] == r[j]);
            } else if j == p {
                assert(t[i] == r[i]);
                lemma_lex_trichotomy(key(x), key(r[i]));
            } else if i < p {
                assert(t[i] == r[i] && t[j] == r[j - 1]);
            } else if i == p {
                assert(t[j] == r[j - 1]);
                assert(lex_lt(key(x), key(r[p])));
                if j - 1 > p {
                    assert(lex_le(key(r[p]), key(r[j - 1])));
                    if lex_lt(key(r[p]), key(r[j - 1])) {
                        lemma_lex_transitive(key(x), key(r[p]), key(r[j - 1]));
                    }
                }
            } else {
                assert(t[i] == r[i - 1] && t[j] == r[j - 1]);
            }
        }
    }
}

/// Sorting by key keeps every element, as many times as it came.
pub proof fn lemma_sort_by_key_permutes<T>(s: Seq<T>, key: spec_fn(T) -> Seq<char>)
    ensures
        sort_by_key(s, key).to_multiset() == s.to_multiset(),
    decreases s.len(),
{
    broadcast use vstd::seq_lib::group_to_multiset_ensures;

    if s.len() > 0 {
        let r = sort_by_key(s.drop_last(), key);
        lemma_sort_by_key_permutes(s.drop_last(), key);
        let x = s.last();
        let p = key_pos(r, x, key);
        lemma_key_pos(r, x, key);
        vstd::seq_lib::lemma_multiset_commutative(
            r.subrange(0, p),
            seq![x] + r.subrange(p, r.len() as int),
        );
        assert(r.insert(p, x) =~= r.subrange(0, p) + (seq![x] + r.subrange(p, r.len() as int)));
        assert(r =~= r.subrange(0, p) + r.subrange(p, r.len() as int));
        vstd::seq_lib::lemma_multiset_commutative(r.subrange(0, p), r.subrange(p, r.len() as int));
        vstd::seq_lib::lemma_multiset_commutative(seq![x], r.subrange(p, r.len() as int));
        assert(s =~= s.drop_last().push(x));
    }
}

} // verus!
