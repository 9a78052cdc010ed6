//! Counting positions: the arithmetic behind rank, buckets and search intervals.
use vstd::prelude::*;
use vstd::set_lib::{lemma_int_range, lemma_map_size, lemma_subset_equality, set_int_range};
use crate::model::{count_less, count_upto, is_suffix_array, lex_lt, occ, rank, suffix};

verus! {

pub proof fn lemma_count_bound(n: int, f: spec_fn(int) -> bool)
    ensures
        count_upto(n, f) <= if n < 0 { 0 } else { n },
    decreases n,
{
    if n > 0 {
        lemma_count_bound(n - 1, f);
    }
}

pub proof fn lemma_count_ext(n: int, f: spec_fn(int) -> bool, g: spec_fn(int) -> bool)
    requires
        forall|j: int| #![trigger f(j)] #![trigger g(j)] 0 <= j < n ==> f(j) == g(j),
    ensures
        count_upto(n, f) == count_upto(n, g),
    decreases n,
{
    if n > 0 {
        lemma_count_ext(n - 1, f, g);
    }
}

pub proof fn lemma_count_or(n: int, f: spec_fn(int) -> bool, g: spec_fn(int) -> bool, h: spec_fn(int) -> bool)
    requires
        forall|j: int| #![trigger h(j)] 0 <= j < n ==> h(j) == (f(j) || g(j)),
        forall|j: int| #![trigger f(j)] #![trigger g(j)] 0 <= j < n ==> !(f(j) && g(j)),
    ensures
        count_upto(n, h) == count_upto(n, f) + count_upto(n, g),
    decreases n,
{
    if n > 0 {
        lemma_count_or(n - 1, f, g, h);
    }
}

/// Counting a predicate that holds exactly below `m`.
pub proof fn lemma_count_prefix(n: int, m: int, f: spec_fn(int) -> bool)
    requires
        0 <= m <= n,
        forall|j: int| #![trigger f(j)] 0 <= j < n ==> f(j) == (j < m),
    ensures
        count_upto(n, f) == m,
    decreases n,
{
    if n > m {
        lemma_count_prefix(n - 1, m, f);
    } else if n > 0 {
        lemma_count_prefix(n - 1, m - 1, f);
    }
}

/// Counting below `m` is counting below `n` with the bound added to the predicate.
pub proof fn lemma_count_restrict(n: int, m: int, f: spec_fn(int) -> bool, g: spec_fn(int) -> bool)
    requires
        0 <= m <= n,
        forall|j: int| #![trigger g(j)] 0 <= j < n ==> g(j) == (j < m && f(j)),
    ensures
        count_upto(m, f) == count_upto(n, g),
    decreases n,
{
    if n > m {
        lemma_count_restrict(n - 1, m, f, g);
    } else if n > 0 {
        lemma_count_restrict(n - 1, m - 1, f, g);
    }
}

/// Shifting the counted positions by one.
pub proof fn lemma_count_shift(n: int, f: spec_fn(int) -> bool, g: spec_fn(int) -> bool)
    requires
        n >= 1,
        forall|j: int| #![trigger g(j)] 0 <= j < n ==> g(j) == (j >= 1 && f(j - 1)),
    ensures
        count_upto(n, g) == count_upto(n - 1, f),
    decreases n,
{
    if n > 1 {
        lemma_count_shift(n - 1, f, g);
        assert(g(n - 1) == f(n - 2));
        assert(count_upto(n - 1, f) == count_upto(n - 2, f) + if f(n - 2) { 1nat } else { 0nat });
    } else {
        assert(!g(0));
        assert(count_upto(0, g) == 0);
    }
}

pub proof fn lemma_count_monotone(n: int, m: int, f: spec_fn(int) -> bool)
    requires
        m <= n,
    ensures
        count_upto(m, f) <= count_upto(n, f),
    decreases n - m,
{
    if m < n {
        lemma_count_monotone(n - 1, m, f);
    }
}

pub proof fn lemma_occ_count(s: Seq<u64>, c: u64)
    ensures
        occ(s, c) == count_upto(s.len() as int, |k: int| s[k] == c),
    decreases s.len(),
{
    if s.len() > 0 {
        let f = |k: int| s[k] == c;
        let g = |k: int| s.drop_last()[k] == c;
        lemma_occ_count(s.drop_last(), c);
        lemma_count_ext(s.len() - 1, f, g);
    }
}

pub proof fn lemma_count_less_count(s: Seq<u64>, c: u64)
    ensures
        count_less(s, c) == count_upto(s.len() as int, |k: int| s[k] < c),
    decreases s.len(),
{
    if s.len() > 0 {
        let f = |k: int| s[k] < c;
        let g = |k: int| s.drop_last()[k] < c;
        lemma_count_less_count(s.drop_last(), c);
        lemma_count_ext(s.len() - 1, f, g);
    }
}

pub proof fn lemma_rank_count(s: Seq<u64>, c: u64, i: int)
    requires
        0 <= i <= s.len(),
    ensures
        rank(s, c, i) == count_upto(i, |k: int| s[k] == c),
{
    lemma_occ_count(s.take(i), c);
    let f = |k: int| s[k] == c;
    let g = |k: int| s.take(i)[k] == c;
    lemma_count_ext(i, f, g);
}

pub proof fn lemma_rank_step(s: Seq<u64>, c: u64, i: int)
    requires
        0 <= i < s.len(),
    ensures
        rank(s, c, i + 1) == rank(s, c, i) + if s[i] == c { 1nat } else { 0nat },
{
    assert(s.take(i + 1).drop_last() =~= s.take(i));
}

pub proof fn lemma_rank_bound(s: Seq<u64>, c: u64, i: int)
    requires
        0 <= i <= s.len(),
    ensures
        rank(s, c, i) <= occ(s, c),
        rank(s, c, i) <= i,
{
    lemma_rank_count(s, c, i);
    lemma_occ_count(s, c);
    lemma_count_monotone(s.len() as int, i, |k: int| s[k] == c);
    lemma_count_bound(i, |k: int| s[k] == c);
}

/// The set of positions below `n` that satisfy `f`.
pub open spec fn count_set(n: int, f: spec_fn(int) -> bool) -> Set<int> {
    Set::new(|j: int| 0 <= j < n && f(j))
}

pub proof fn lemma_count_set(n: int, f: spec_fn(int) -> bool)
    requires
        n >= 0,
    ensures
        count_set(n, f).finite(),
        count_set(n, f).len() == count_upto(n, f),
    decreases n,
{
    if n == 0 {
        assert(count_set(n, f) =~= Set::empty());
    } else {
        lemma_count_set(n - 1, f);
        if f(n - 1) {
            assert(count_set(n, f) =~= count_set(n - 1, f).insert(n - 1));
        } else {
            assert(count_set(n, f) =~= count_set(n - 1, f));
        }
    }
}

/// Every position of the text occurs in its suffix array.
pub proof fn lemma_suffix_array_onto(t: Seq<u64>, sa: Seq<usize>, p: int)
    requires
        is_suffix_array(t, sa),
        0 <= p < t.len(),
    ensures
        exists|i: int| 0 <= i < sa.len() && sa[i] == p,
{
    let n = t.len() as int;
    let rows = set_int_range(0, n);
    let f = |i: int| sa[i] as int;
    lemma_int_range(0, n);
    assert forall|a: int, b: int| rows.contains(a) && rows.contains(b) && f(a) == f(b) implies a == b by {
        if a != b {
            crate::model::lemma_lex_irreflexive(suffix(t, sa[a] as int));
            if a < b {
                assert(lex_lt(suffix(t, sa[a] as int), suffix(t, sa[b] as int)));
            } else {
                assert(lex_lt(suffix(t, sa[b] as int), suffix(t, sa[a] as int)));
            }
        }
    }
    let img = rows.map(f);
    lemma_map_size(rows, img, f);
    assert(img.subset_of(rows)) by {
        assert forall|x: int| img.contains(x) implies rows.contains(x) by {
            let i = choose|i: int| rows.contains(i) && f(i) == x;
        }
    }
    lemma_subset_equality(img, rows);
    assert(img.contains(p));
    let i = choose|i: int| rows.contains(i) && f(i) == p;
}

/// Counting over the rows of a suffix array is counting over the positions.
pub proof fn lemma_count_rows(t: Seq<u64>, sa: Seq<usize>, f: spec_fn(int) -> bool, g: spec_fn(int) -> bool)
    requires
        is_suffix_array(t, sa),
        forall|i: int| #![trigger g(i)] 0 <= i < sa.len() ==> g(i) == f(sa[i] as int),
    ensures
        count_upto(t.len() as int, g) == count_upto(t.len() as int, f),
{
    let n = t.len() as int;
    lemma_count_set(n, f);
    lemma_count_set(n, g);
    let rows = count_set(n, g);
    let pos = count_set(n, f);
    let m = |i: int| sa[i] as int;
    assert forall|a: int, b: int| rows.contains(a) && rows.contains(b) && m(a) == m(b) implies a == b by {
        if a != b {
            crate::model::lemma_lex_irreflexive(suffix(t, sa[a] as int));
            if a < b {
                assert(lex_lt(suffix(t, sa[a] as int), suffix(t, sa[b] as int)));
            } else {
                assert(lex_lt(suffix(t, sa[b] as int), suffix(t, sa[a] as int)));
            }
        }
    }
    assert(rows.map(m) =~= pos) by {
        assert forall|x: int| pos.contains(x) implies rows.map(m).contains(x) by {
            lemma_suffix_array_onto(t, sa, x);
            let i = choose|i: int| 0 <= i < sa.len() && sa[i] == x;
            assert(rows.contains(i) && m(i) == x);
        }
        assert forall|x: int| rows.map(m).contains(x) implies pos.contains(x) by {
            let i = choose|i: int| rows.contains(i) && m(i) == x;
        }
    }
    lemma_map_size(rows, pos, m);
}

} // verus!
