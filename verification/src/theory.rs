//! The theory of the FM-index: the Burrows-Wheeler transform of a text, and
//! why backward search and the LF mapping compute suffix-array intervals.
use vstd::prelude::*;
use crate::counting::{
    lemma_count_bound, lemma_count_ext, lemma_count_or, lemma_count_prefix, lemma_count_restrict,
    lemma_count_rows, lemma_count_shift, lemma_count_less_count, lemma_occ_count, lemma_rank_count,
    lemma_suffix_array_onto,
};
use crate::model::{
    count_less, count_upto, is_suffix_array, lemma_lex_asymmetric, lemma_lex_irreflexive,
    lemma_lex_transitive, lemma_suffix_drop_first, lex_lt, occ, occurrences, prefix_sum, rank,
    suffix, valid_text,
};

verus! {

/// The character before position `j` (zero before the first position).
pub open spec fn prev_char(t: Seq<u64>, j: int) -> u64 {
    if j > 0 {
        t[j - 1]
    } else {
        0
    }
}

/// The Burrows-Wheeler transform: the character before each suffix, in
/// suffix-array order.
pub open spec fn bwt(t: Seq<u64>, sa: Seq<usize>) -> Seq<u64> {
    Seq::new(sa.len(), |i: int| prev_char(t, sa[i] as int))
}

/// The number of suffixes smaller than `q` that do not start with `q`:
/// where the block of suffixes starting with `q` begins.
pub open spec fn lt_count(t: Seq<u64>, q: Seq<u64>) -> nat {
    count_upto(t.len() as int, |j: int| lex_lt(suffix(t, j), q))
}

/// The number of suffixes smaller than `q` or starting with `q`: where the
/// block of suffixes starting with `q` ends.
pub open spec fn le_count(t: Seq<u64>, q: Seq<u64>) -> nat {
    count_upto(t.len() as int, |j: int| lex_lt(suffix(t, j), q) || q.is_prefix_of(suffix(t, j)))
}

/// A predicate on suffixes that holds of every suffix smaller than one it holds of.
pub open spec fn downward_closed(t: Seq<u64>, p: spec_fn(Seq<u64>) -> bool) -> bool {
    forall|a: int, b: int|
        #![trigger p(suffix(t, a)), p(suffix(t, b))]
        0 <= a < t.len() && 0 <= b < t.len() && lex_lt(suffix(t, a), suffix(t, b)) && p(suffix(t, b)) ==> p(suffix(t, a))
}

/// The row-wise form of a predicate: rows satisfying a downward-closed
/// predicate come first.
proof fn lemma_prefix_closed_rows(n: int, g: spec_fn(int) -> bool)
    requires
        n >= 0,
        forall|a: int, b: int| #![trigger g(a), g(b)] 0 <= a < b < n && g(b) ==> g(a),
    ensures
        forall|i: int| #![trigger g(i)] 0 <= i < n ==> (g(i) <==> i < count_upto(n, g)),
    decreases n,
{
    if n > 0 {
        lemma_prefix_closed_rows(n - 1, g);
        lemma_count_bound(n - 1, g);
        if g(n - 1) {
            if n >= 2 {
                assert(g(n - 2));
            }
            assert(count_upto(n - 1, g) == n - 1);
        }
    }
}

/// In a suffix array, the rows whose suffixes satisfy a downward-closed
/// predicate are exactly the first ones, as many as the positions that satisfy it.
pub proof fn lemma_block(t: Seq<u64>, sa: Seq<usize>, p: spec_fn(Seq<u64>) -> bool)
    requires
        is_suffix_array(t, sa),
        downward_closed(t, p),
    ensures
        forall|i: int|
            #![trigger sa[i]]
            0 <= i < sa.len() ==> (p(suffix(t, sa[i] as int)) <==> i < count_upto(t.len() as int, |j: int| p(suffix(t, j)))),
{
    let n = t.len() as int;
    let g = |i: int| p(suffix(t, sa[i] as int));
    let f = |j: int| p(suffix(t, j));
    assert forall|a: int, b: int| #![trigger g(a), g(b)] 0 <= a < b < n && g(b) implies g(a) by {
        assert(lex_lt(suffix(t, sa[a] as int), suffix(t, sa[b] as int)));
    }
    lemma_prefix_closed_rows(n, g);
    lemma_count_rows(t, sa, f, g);
    assert forall|i: int| #![trigger sa[i]] 0 <= i < sa.len() implies (p(suffix(t, sa[i] as int)) <==> i < count_upto(n, f)) by {
        assert(g(i) == p(suffix(t, sa[i] as int)));
    }
}

/// The row of a position in the suffix array is the number of smaller suffixes.
pub proof fn lemma_row_of_position(t: Seq<u64>, sa: Seq<usize>, r: int)
    requires
        is_suffix_array(t, sa),
        0 <= r < sa.len(),
    ensures
        lt_count(t, suffix(t, sa[r] as int)) == r,
{
    let q = suffix(t, sa[r] as int);
    let p = |s: Seq<u64>| lex_lt(s, q);
    assert forall|a: int, b: int|
        #![trigger p(suffix(t, a)), p(suffix(t, b))]
        0 <= a < t.len() && 0 <= b < t.len() && lex_lt(suffix(t, a), suffix(t, b)) && p(suffix(t, b)) implies p(suffix(t, a)) by {
        lemma_lex_transitive(suffix(t, a), suffix(t, b), q);
    }
    lemma_block(t, sa, p);
    let m = count_upto(t.len() as int, |j: int| p(suffix(t, j)));
    assert(count_upto(t.len() as int, |j: int| p(suffix(t, j))) == lt_count(t, q)) by {
        lemma_count_ext(t.len() as int, |j: int| p(suffix(t, j)), |j: int| lex_lt(suffix(t, j), q));
    }
    lemma_lex_irreflexive(q);
    assert(!p(suffix(t, sa[r] as int)));
    assert(r >= m);
    if r > 0 {
        assert(lex_lt(suffix(t, sa[r - 1] as int), suffix(t, sa[r] as int)));
        assert(p(suffix(t, sa[r - 1] as int)));
        assert(r - 1 < m);
    } else {
        lemma_count_bound(t.len() as int, |j: int| p(suffix(t, j)));
        if m > 0 {
            // some suffix is smaller than the least one: impossible
            assert(m == 0) by {
                lemma_count_nonzero_witness(t.len() as int, |j: int| p(suffix(t, j)));
                let j = choose|j: int| 0 <= j < t.len() && p(suffix(t, j));
                crate::counting::lemma_suffix_array_onto(t, sa, j);
                let i = choose|i: int| 0 <= i < sa.len() && sa[i] == j;
                if i > 0 {
                    lemma_lex_transitive(suffix(t, sa[0] as int), suffix(t, sa[i] as int), q);
                    lemma_lex_irreflexive(q);
                } else {
                    lemma_lex_irreflexive(q);
                }
            }
        }
    }
}

proof fn lemma_count_nonzero_witness(n: int, f: spec_fn(int) -> bool)
    requires
        count_upto(n, f) > 0,
    ensures
        exists|j: int| 0 <= j < n && #[trigger] f(j),
    decreases n,
{
    if n > 0 {
        if !f(n - 1) {
            lemma_count_nonzero_witness(n - 1, f);
        }
    }
}

/// A suffix that starts with `q` is not smaller than `q`.
pub proof fn lemma_prefix_not_lt(q: Seq<u64>, s: Seq<u64>)
    requires
        q.is_prefix_of(s),
    ensures
        !lex_lt(s, q),
    decreases q.len(),
{
    if q.len() > 0 {
        assert(s[0] == q[0]);
        assert(q.drop_first().is_prefix_of(s.drop_first())) by {
            assert(s.drop_first().subrange(0, q.len() - 1) =~= s.subrange(0, q.len() as int).drop_first());
        }
        lemma_prefix_not_lt(q.drop_first(), s.drop_first());
    }
}

/// Whatever is smaller than a sequence starting with `q` is smaller than `q`
/// or starts with it.
proof fn lemma_below_prefix(a: Seq<u64>, b: Seq<u64>, q: Seq<u64>)
    requires
        lex_lt(a, b),
        q.is_prefix_of(b),
    ensures
        lex_lt(a, q) || q.is_prefix_of(a),
    decreases q.len(),
{
    if q.len() == 0 {
        assert(q.is_prefix_of(a)) by {
            assert(a.subrange(0, 0) =~= q);
        }
    } else {
        assert(b[0] == q[0]);
        if a.len() > 0 && a[0] == b[0] {
            assert(q.drop_first().is_prefix_of(b.drop_first())) by {
                assert(b.drop_first().subrange(0, q.len() - 1) =~= b.subrange(0, q.len() as int).drop_first());
            }
            lemma_below_prefix(a.drop_first(), b.drop_first(), q.drop_first());
            if q.drop_first().is_prefix_of(a.drop_first()) {
                assert(a.subrange(0, q.len() as int) =~= seq![a[0]] + a.drop_first().subrange(0, q.len() - 1));
                assert(q =~= seq![q[0]] + q.drop_first());
            }
        }
    }
}

/// `c·q`: the sequence `q` with `c` put in front.
pub open spec fn cons(c: u64, q: Seq<u64>) -> Seq<u64> {
    seq![c] + q
}

/// The generic backward step: the count of a predicate on `c`-prefixed
/// suffixes follows from the count of the predicate on the rest.
proof fn lemma_step_count(
    t: Seq<u64>,
    sa: Seq<usize>,
    c: u64,
    p: spec_fn(Seq<u64>) -> bool,
    p2: spec_fn(Seq<u64>) -> bool,
)
    requires
        is_suffix_array(t, sa),
        valid_text(t),
        c >= 1,
        downward_closed(t, p),
        forall|k: int|
            #![trigger p2(suffix(t, k))]
            0 <= k < t.len() ==> p2(suffix(t, k)) == (t[k] < c || (t[k] == c && k + 1 < t.len() && p(suffix(t, k + 1)))),
    ensures
        count_upto(t.len() as int, |j: int| p2(suffix(t, j))) == count_less(t, c) + rank(
            bwt(t, sa),
            c,
            count_upto(t.len() as int, |j: int| p(suffix(t, j))) as int,
        ),
{
    let n = t.len() as int;
    let l = bwt(t, sa);
    let fp = |j: int| p(suffix(t, j));
    let m = count_upto(n, fp);
    lemma_count_bound(n, fp);
    lemma_block(t, sa, p);
    // rank as a count over rows
    let r1 = |r: int| l[r] == c;
    lemma_rank_count(l, c, m as int);
    let r2 = |r: int| r < m && l[r] == c;
    lemma_count_restrict(n, m as int, r1, r2);
    let r3 = |r: int| p(suffix(t, sa[r] as int)) && prev_char(t, sa[r] as int) == c;
    assert forall|r: int| #![trigger r2(r)] #![trigger r3(r)] 0 <= r < n implies r2(r) == r3(r) by {
        assert(sa[r] == sa[r]);
    }
    lemma_count_ext(n, r2, r3);
    // over positions
    let q1 = |j: int| p(suffix(t, j)) && prev_char(t, j) == c;
    lemma_count_rows(t, sa, q1, r3);
    let q2 = |j: int| j >= 1 && (t[j - 1] == c && p(suffix(t, j)));
    assert forall|j: int| #![trigger q1(j)] #![trigger q2(j)] 0 <= j < n implies q1(j) == q2(j) by {
    }
    lemma_count_ext(n, q1, q2);
    let q3 = |k: int| t[k] == c && p(suffix(t, k + 1));
    lemma_count_shift(n, q3, q2);
    let q4 = |k: int| t[k] == c && k + 1 < n && p(suffix(t, k + 1));
    lemma_count_restrict(n, n - 1, q3, q4);
    // the count of p2
    let lt = |k: int| t[k] < c;
    lemma_count_less_count(t, c);
    let f2 = |j: int| p2(suffix(t, j));
    assert forall|k: int| #![trigger f2(k)] 0 <= k < n implies f2(k) == (lt(k) || q4(k)) by {
    }
    lemma_count_or(n, lt, q4, f2);
}

/// Backward search, lower end: the suffixes below `c·q` are those starting
/// with a smaller character and those `c·s` with `s` below `q`.
pub proof fn lemma_lt_step(t: Seq<u64>, sa: Seq<usize>, c: u64, q: Seq<u64>)
    requires
        is_suffix_array(t, sa),
        valid_text(t),
        c >= 1,
    ensures
        lt_count(t, cons(c, q)) == count_less(t, c) + rank(bwt(t, sa), c, lt_count(t, q) as int),
{
    let n = t.len() as int;
    let p = |s: Seq<u64>| lex_lt(s, q);
    let p2 = |s: Seq<u64>| lex_lt(s, cons(c, q));
    assert forall|a: int, b: int|
        #![trigger p(suffix(t, a)), p(suffix(t, b))]
        0 <= a < n && 0 <= b < n && lex_lt(suffix(t, a), suffix(t, b)) && p(suffix(t, b)) implies p(suffix(t, a)) by {
        lemma_lex_transitive(suffix(t, a), suffix(t, b), q);
    }
    assert forall|k: int| #![trigger p2(suffix(t, k))] 0 <= k < n implies p2(suffix(t, k)) == (t[k] < c || (t[k] == c && k + 1 < n && p(suffix(t, k + 1)))) by {
        lemma_suffix_drop_first(t, k);
        assert(cons(c, q)[0] == c);
        assert(cons(c, q).drop_first() =~= q);
        if k + 1 == n {
            assert(t[k] == 0);
        }
    }
    lemma_step_count(t, sa, c, p, p2);
    lemma_count_ext(n, |j: int| p2(suffix(t, j)), |j: int| lex_lt(suffix(t, j), cons(c, q)));
    lemma_count_ext(n, |j: int| p(suffix(t, j)), |j: int| lex_lt(suffix(t, j), q));
}

/// Backward search, upper end.
pub proof fn lemma_le_step(t: Seq<u64>, sa: Seq<usize>, c: u64, q: Seq<u64>)
    requires
        is_suffix_array(t, sa),
        valid_text(t),
        c >= 1,
    ensures
        le_count(t, cons(c, q)) == count_less(t, c) + rank(bwt(t, sa), c, le_count(t, q) as int),
{
    let n = t.len() as int;
    let cq = cons(c, q);
    let p = |s: Seq<u64>| lex_lt(s, q) || q.is_prefix_of(s);
    let p2 = |s: Seq<u64>| lex_lt(s, cq) || cq.is_prefix_of(s);
    assert forall|a: int, b: int|
        #![trigger p(suffix(t, a)), p(suffix(t, b))]
        0 <= a < n && 0 <= b < n && lex_lt(suffix(t, a), suffix(t, b)) && p(suffix(t, b)) implies p(suffix(t, a)) by {
        if lex_lt(suffix(t, b), q) {
            lemma_lex_transitive(suffix(t, a), suffix(t, b), q);
        } else {
            lemma_below_prefix(suffix(t, a), suffix(t, b), q);
        }
    }
    assert forall|k: int| #![trigger p2(suffix(t, k))] 0 <= k < n implies p2(suffix(t, k)) == (t[k] < c || (t[k] == c && k + 1 < n && p(suffix(t, k + 1)))) by {
        let s = suffix(t, k);
        lemma_suffix_drop_first(t, k);
        assert(cq[0] == c);
        assert(cq.drop_first() =~= q);
        if k + 1 == n {
            assert(t[k] == 0);
        }
        if s[0] == c {
            if cq.is_prefix_of(s) {
                assert(s.drop_first().subrange(0, q.len() as int) =~= s.subrange(0, cq.len() as int).drop_first());
            }
            if q.is_prefix_of(s.drop_first()) {
                assert(s.subrange(0, cq.len() as int) =~= seq![s[0]] + s.drop_first().subrange(0, q.len() as int));
            }
        } else {
            assert(!cq.is_prefix_of(s)) by {
                if cq.is_prefix_of(s) {
                    assert(s.subrange(0, cq.len() as int)[0] == s[0]);
                }
            }
        }
    }
    lemma_step_count(t, sa, c, p, p2);
    lemma_count_ext(n, |j: int| p2(suffix(t, j)), |j: int| lex_lt(suffix(t, j), cq) || cq.is_prefix_of(suffix(t, j)));
    lemma_count_ext(n, |j: int| p(suffix(t, j)), |j: int| lex_lt(suffix(t, j), q) || q.is_prefix_of(suffix(t, j)));
}

/// The width of the block of suffixes starting with `q` is the number of
/// occurrences of `q`.
pub proof fn lemma_interval_width(t: Seq<u64>, q: Seq<u64>)
    ensures
        le_count(t, q) == lt_count(t, q) + occurrences(t, q),
{
    let n = t.len() as int;
    let f = |j: int| lex_lt(suffix(t, j), q);
    let g = |j: int| q.is_prefix_of(suffix(t, j));
    let h = |j: int| lex_lt(suffix(t, j), q) || q.is_prefix_of(suffix(t, j));
    assert forall|j: int| #![trigger f(j)] #![trigger g(j)] 0 <= j < n implies !(f(j) && g(j)) by {
        if g(j) {
            lemma_prefix_not_lt(q, suffix(t, j));
        }
    }
    lemma_count_or(n, f, g, h);
}

/// The empty pattern spans all rows.
pub proof fn lemma_empty_interval(t: Seq<u64>)
    ensures
        lt_count(t, Seq::<u64>::empty()) == 0,
        le_count(t, Seq::<u64>::empty()) == t.len(),
{
    let n = t.len() as int;
    let e = Seq::<u64>::empty();
    crate::counting::lemma_count_prefix(n, 0, |j: int| lex_lt(suffix(t, j), e));
    assert forall|j: int| 0 <= j < n implies #[trigger] e.is_prefix_of(suffix(t, j)) by {
        assert(suffix(t, j).subrange(0, 0) =~= e);
    }
    crate::counting::lemma_count_prefix(n, n, |j: int| lex_lt(suffix(t, j), e) || e.is_prefix_of(suffix(t, j)));
}

/// Characters below `c + 1` are those below `c` and the occurrences of `c`.
pub proof fn lemma_count_less_step(t: Seq<u64>, c: u64)
    requires
        c < u64::MAX,
    ensures
        count_less(t, (c + 1) as u64) == count_less(t, c) + occ(t, c),
    decreases t.len(),
{
    if t.len() > 0 {
        lemma_count_less_step(t.drop_last(), c);
    }
}

pub proof fn lemma_count_less_monotone(t: Seq<u64>, a: u64, b: u64)
    requires
        a <= b,
    ensures
        count_less(t, a) <= count_less(t, b),
    decreases t.len(),
{
    if t.len() > 0 {
        lemma_count_less_monotone(t.drop_last(), a, b);
    }
}

/// When every character is below `c`, all characters are counted.
pub proof fn lemma_count_less_all(t: Seq<u64>, c: u64)
    requires
        forall|i: int| 0 <= i < t.len() ==> #[trigger] t[i] < c,
    ensures
        count_less(t, c) == t.len(),
    decreases t.len(),
{
    if t.len() > 0 {
        lemma_count_less_all(t.drop_last(), c);
    }
}

/// The sum of the counts of the characters below `c` is the number of such characters.
pub proof fn lemma_prefix_sum_count_less(t: Seq<u64>, occs: Seq<usize>, c: int)
    requires
        0 <= c <= occs.len(),
        occs.len() <= u64::MAX,
        forall|d: int| 0 <= d < occs.len() ==> #[trigger] occs[d] == occ(t, d as u64),
    ensures
        prefix_sum(occs, c) == count_less(t, c as u64),
    decreases c,
{
    if c == 0 {
        lemma_count_less_zero(t);
    } else {
        lemma_prefix_sum_count_less(t, occs, c - 1);
        lemma_count_less_step(t, (c - 1) as u64);
    }
}

pub proof fn lemma_count_less_zero(t: Seq<u64>)
    ensures
        count_less(t, 0) == 0,
    decreases t.len(),
{
    if t.len() > 0 {
        lemma_count_less_zero(t.drop_last());
    }
}

/// The transform holds every character of the text as often as the text does.
pub proof fn lemma_bwt_occ(t: Seq<u64>, sa: Seq<usize>, c: u64)
    requires
        is_suffix_array(t, sa),
        valid_text(t),
    ensures
        occ(bwt(t, sa), c) == occ(t, c),
        bwt(t, sa).len() == t.len(),
{
    let n = t.len() as int;
    let l = bwt(t, sa);
    lemma_occ_count(l, c);
    let r1 = |r: int| l[r] == c;
    let f1 = |j: int| prev_char(t, j) == c;
    lemma_count_rows(t, sa, f1, r1);
    let a = |j: int| j == 0 && t[n - 1] == c;
    let b = |j: int| j >= 1 && t[j - 1] == c;
    lemma_count_or(n, a, b, f1);
    let e = |k: int| t[k] == c;
    lemma_count_shift(n, e, b);
    lemma_occ_count(t, c);
    if t[n - 1] == c {
        lemma_count_prefix(n, 1, a);
    } else {
        lemma_count_prefix(n, 0, a);
    }
}

/// The suffixes smaller than the one-character pattern `c` are those
/// starting with a smaller character.
pub proof fn lemma_lt_single(t: Seq<u64>, c: u64)
    ensures
        lt_count(t, seq![c]) == count_less(t, c),
        le_count(t, seq![c]) == count_less(t, c) + occ(t, c),
{
    let n = t.len() as int;
    let q = seq![c];
    let f = |j: int| lex_lt(suffix(t, j), q);
    let g = |k: int| t[k] < c;
    assert forall|j: int| #![trigger f(j)] 0 <= j < n implies f(j) == g(j) by {
        lemma_suffix_drop_first(t, j);
        assert(q.drop_first() =~= Seq::<u64>::empty());
        assert(!lex_lt(suffix(t, j).drop_first(), q.drop_first()));
    }
    lemma_count_ext(n, f, g);
    lemma_count_less_count(t, c);
    let h = |j: int| q.is_prefix_of(suffix(t, j));
    let e = |k: int| t[k] == c;
    assert forall|j: int| #![trigger h(j)] 0 <= j < n implies h(j) == e(j) by {
        lemma_suffix_drop_first(t, j);
        if t[j] == c {
            assert(suffix(t, j).subrange(0, 1) =~= q);
        }
    }
    lemma_count_ext(n, h, e);
    lemma_occ_count(t, c);
    lemma_interval_width(t, q);
}

/// The suffixes starting with `c` fill the rows from the number of smaller
/// characters on, one row per occurrence of `c`.
pub proof fn lemma_first_column(t: Seq<u64>, sa: Seq<usize>, i: int)
    requires
        is_suffix_array(t, sa),
        0 <= i < sa.len(),
    ensures
        count_less(t, t[sa[i] as int]) <= i < count_less(t, t[sa[i] as int]) + occ(t, t[sa[i] as int]),
{
    let n = t.len() as int;
    let c = t[sa[i] as int];
    let q = seq![c];
    lemma_lt_single(t, c);
    let p = |s: Seq<u64>| lex_lt(s, q);
    assert forall|a: int, b: int|
        #![trigger p(suffix(t, a)), p(suffix(t, b))]
        0 <= a < n && 0 <= b < n && lex_lt(suffix(t, a), suffix(t, b)) && p(suffix(t, b)) implies p(suffix(t, a)) by {
        lemma_lex_transitive(suffix(t, a), suffix(t, b), q);
    }
    lemma_block(t, sa, p);
    lemma_count_ext(n, |j: int| p(suffix(t, j)), |j: int| lex_lt(suffix(t, j), q));
    let p2 = |s: Seq<u64>| lex_lt(s, q) || q.is_prefix_of(s);
    assert forall|a: int, b: int|
        #![trigger p2(suffix(t, a)), p2(suffix(t, b))]
        0 <= a < n && 0 <= b < n && lex_lt(suffix(t, a), suffix(t, b)) && p2(suffix(t, b)) implies p2(suffix(t, a)) by {
        if lex_lt(suffix(t, b), q) {
            lemma_lex_transitive(suffix(t, a), suffix(t, b), q);
        } else {
            lemma_below_prefix(suffix(t, a), suffix(t, b), q);
        }
    }
    lemma_block(t, sa, p2);
    lemma_count_ext(n, |j: int| p2(suffix(t, j)), |j: int| lex_lt(suffix(t, j), q) || q.is_prefix_of(suffix(t, j)));
    let s = suffix(t, sa[i] as int);
    lemma_suffix_drop_first(t, sa[i] as int);
    assert(q.is_prefix_of(s)) by {
        assert(s.subrange(0, 1) =~= q);
    }
    lemma_prefix_not_lt(q, s);
}

/// The last suffix, the zero alone, is the smallest: it takes the first row.
pub proof fn lemma_first_row(t: Seq<u64>, sa: Seq<usize>)
    requires
        is_suffix_array(t, sa),
        valid_text(t),
    ensures
        sa[0] == t.len() - 1,
{
    let n = t.len() as int;
    lemma_suffix_array_onto(t, sa, n - 1);
    let r = choose|r: int| 0 <= r < sa.len() && sa[r] == n - 1;
    lemma_row_of_position(t, sa, r);
    let q = suffix(t, n - 1);
    assert(q =~= seq![0u64]);
    let f = |j: int| lex_lt(suffix(t, j), q);
    assert forall|j: int| #![trigger f(j)] 0 <= j < n implies !f(j) by {
        lemma_suffix_drop_first(t, j);
        assert(q.drop_first() =~= Seq::<u64>::empty());
        assert(!lex_lt(suffix(t, j).drop_first(), q.drop_first()));
    }
    lemma_count_prefix(n, 0, f);
}

/// LF mapping, for a row whose transform character is not zero: counting
/// smaller characters and earlier occurrences leads to the row of the
/// position before.
pub proof fn lemma_lf_nonzero(t: Seq<u64>, sa: Seq<usize>, i: int)
    requires
        is_suffix_array(t, sa),
        valid_text(t),
        0 <= i < sa.len(),
        bwt(t, sa)[i] != 0,
    ensures
        sa[i] >= 1,
        count_less(t, bwt(t, sa)[i]) + rank(bwt(t, sa), bwt(t, sa)[i], i) < t.len(),
        sa[(count_less(t, bwt(t, sa)[i]) + rank(bwt(t, sa), bwt(t, sa)[i], i)) as int] == sa[i] - 1,
{
    let l = bwt(t, sa);
    let c = l[i];
    let j = sa[i] - 1;
    assert(j >= 0);
    lemma_suffix_array_onto(t, sa, j);
    let rj = choose|r: int| 0 <= r < sa.len() && sa[r] == j;
    lemma_row_of_position(t, sa, rj);
    lemma_row_of_position(t, sa, i);
    lemma_suffix_drop_first(t, j);
    assert(suffix(t, j) =~= cons(c, suffix(t, sa[i] as int)));
    lemma_lt_step(t, sa, c, suffix(t, sa[i] as int));
}

/// LF mapping for the single zero of a text that holds no other: its row
/// maps to the first row.
pub proof fn lemma_lf_zero_single(t: Seq<u64>, sa: Seq<usize>, i: int)
    requires
        is_suffix_array(t, sa),
        valid_text(t),
        forall|k: int| 0 <= k < t.len() - 1 ==> #[trigger] t[k] != 0,
        0 <= i < sa.len(),
        bwt(t, sa)[i] == 0,
    ensures
        sa[i] == 0,
        rank(bwt(t, sa), 0, i) == 0,
        count_less(t, 0) == 0,
        sa[0] == t.len() - 1,
{
    let l = bwt(t, sa);
    lemma_count_less_zero(t);
    lemma_first_row(t, sa);
    assert(sa[i] == 0);
    let f = |r: int| l[r] == 0;
    assert forall|r: int| #![trigger f(r)] 0 <= r < i implies !f(r) by {
        assert(sa[r] != sa[i]) by {
            lemma_lex_irreflexive(suffix(t, sa[i] as int));
        }
    }
    lemma_rank_count(l, 0, i);
    lemma_count_prefix(i, 0, f);
}

/// The rows between the two ends of the block of `q` are exactly those whose
/// suffixes start with `q`.
pub proof fn lemma_block_rows(t: Seq<u64>, sa: Seq<usize>, q: Seq<u64>, i: int)
    requires
        is_suffix_array(t, sa),
        0 <= i < sa.len(),
    ensures
        (lt_count(t, q) <= i < le_count(t, q)) <==> q.is_prefix_of(suffix(t, sa[i] as int)),
{
    let n = t.len() as int;
    let p = |s: Seq<u64>| lex_lt(s, q);
    assert forall|a: int, b: int|
        #![trigger p(suffix(t, a)), p(suffix(t, b))]
        0 <= a < n && 0 <= b < n && lex_lt(suffix(t, a), suffix(t, b)) && p(suffix(t, b)) implies p(suffix(t, a)) by {
        lemma_lex_transitive(suffix(t, a), suffix(t, b), q);
    }
    lemma_block(t, sa, p);
    lemma_count_ext(n, |j: int| p(suffix(t, j)), |j: int| lex_lt(suffix(t, j), q));
    let p2 = |s: Seq<u64>| lex_lt(s, q) || q.is_prefix_of(s);
    assert forall|a: int, b: int|
        #![trigger p2(suffix(t, a)), p2(suffix(t, b))]
        0 <= a < n && 0 <= b < n && lex_lt(suffix(t, a), suffix(t, b)) && p2(suffix(t, b)) implies p2(suffix(t, a)) by {
        if lex_lt(suffix(t, b), q) {
            lemma_lex_transitive(suffix(t, a), suffix(t, b), q);
        } else {
            lemma_below_prefix(suffix(t, a), suffix(t, b), q);
        }
    }
    lemma_block(t, sa, p2);
    lemma_count_ext(n, |j: int| p2(suffix(t, j)), |j: int| lex_lt(suffix(t, j), q) || q.is_prefix_of(suffix(t, j)));
    if q.is_prefix_of(suffix(t, sa[i] as int)) {
        lemma_prefix_not_lt(q, suffix(t, sa[i] as int));
    }
}

/// Two rows of a suffix array hold different positions.
pub proof fn lemma_rows_distinct(t: Seq<u64>, sa: Seq<usize>, a: int, b: int)
    requires
        is_suffix_array(t, sa),
        0 <= a < sa.len(),
        0 <= b < sa.len(),
        a != b,
    ensures
        sa[a] != sa[b],
{
    lemma_lex_irreflexive(suffix(t, sa[a] as int));
    if a < b {
        assert(lex_lt(suffix(t, sa[a] as int), suffix(t, sa[b] as int)));
    } else {
        assert(lex_lt(suffix(t, sa[b] as int), suffix(t, sa[a] as int)));
    }
}

/// LF mapping for a row whose transform character is a zero, in a text with
/// any number of zeros: the zero before the text start (the terminator) is
/// the smallest suffix; the other zeros keep the order of what follows them.
pub proof fn lemma_lf_zero_multi(t: Seq<u64>, sa: Seq<usize>, i: int, fi: int)
    requires
        is_suffix_array(t, sa),
        valid_text(t),
        0 <= i < sa.len(),
        0 <= fi < sa.len(),
        sa[fi] == 0,
        bwt(t, sa)[i] == 0,
        i != fi,
    ensures
        sa[i] >= 1,
        ({
            let r = rank(bwt(t, sa), 0, i) as int;
            let target = if i < fi { r + 1 } else { r };
            0 <= target < t.len() && sa[target] == sa[i] - 1
        }),
{
    let n = t.len() as int;
    let l = bwt(t, sa);
    assert(sa[i] != 0) by {
        lemma_rows_distinct(t, sa, i, fi);
    }
    let j = sa[i] - 1;
    let q = suffix(t, sa[i] as int);
    assert(t[j] == 0);
    // the row of j counts the suffixes below 0·q
    lemma_suffix_array_onto(t, sa, j);
    let rj = choose|r: int| 0 <= r < sa.len() && sa[r] == j;
    lemma_row_of_position(t, sa, rj);
    lemma_row_of_position(t, sa, i);
    lemma_suffix_drop_first(t, j);
    assert(suffix(t, j) =~= cons(0, q));
    let f0 = |k: int| lex_lt(suffix(t, k), cons(0, q));
    let zq = |k: int| t[k] == 0 && k + 1 < n && lex_lt(suffix(t, k + 1), q);
    let last = |k: int| k == n - 1;
    assert forall|k: int| #![trigger f0(k)] 0 <= k < n implies f0(k) == (last(k) || zq(k)) by {
        lemma_suffix_drop_first(t, k);
        assert(cons(0, q)[0] == 0);
        assert(cons(0, q).drop_first() =~= q);
        assert(q.len() > 0);
        if k == n - 1 {
            assert(suffix(t, k).drop_first() =~= Seq::<u64>::empty());
            assert(lex_lt(suffix(t, k).drop_first(), q));
            assert(f0(k));
        } else if t[k] == 0 {
            assert(f0(k) == lex_lt(suffix(t, k + 1), q));
        } else {
            assert(!f0(k));
        }
    }
    lemma_count_or(n, last, zq, f0);
    lemma_count_prefix_last(n);
    // the rank of zeros before row i
    let p = |s: Seq<u64>| lex_lt(s, q);
    assert forall|a: int, b: int|
        #![trigger p(suffix(t, a)), p(suffix(t, b))]
        0 <= a < n && 0 <= b < n && lex_lt(suffix(t, a), suffix(t, b)) && p(suffix(t, b)) implies p(suffix(t, a)) by {
        lemma_lex_transitive(suffix(t, a), suffix(t, b), q);
    }
    lemma_block(t, sa, p);
    let m = count_upto(n, |k: int| p(suffix(t, k)));
    lemma_count_ext(n, |k: int| p(suffix(t, k)), |k: int| lex_lt(suffix(t, k), q));
    assert(m == i);
    let r1 = |r: int| l[r] == 0;
    lemma_rank_count(l, 0, i);
    let r2 = |r: int| r < i && l[r] == 0;
    lemma_count_restrict(n, i, r1, r2);
    let r3 = |r: int| p(suffix(t, sa[r] as int)) && prev_char(t, sa[r] as int) == 0;
    assert forall|r: int| #![trigger r2(r)] #![trigger r3(r)] 0 <= r < n implies r2(r) == r3(r) by {
        assert(sa[r] == sa[r]);
    }
    lemma_count_ext(n, r2, r3);
    let q1 = |x: int| p(suffix(t, x)) && prev_char(t, x) == 0;
    lemma_count_rows(t, sa, q1, r3);
    let first = |x: int| x == 0 && p(suffix(t, 0));
    let q2 = |x: int| x >= 1 && (t[x - 1] == 0 && p(suffix(t, x)));
    lemma_count_or(n, first, q2, q1);
    let q3 = |k: int| t[k] == 0 && p(suffix(t, k + 1));
    lemma_count_shift(n, q3, q2);
    lemma_count_restrict(n, n - 1, q3, zq);
    // position 0 is below q exactly when its row is before i
    lemma_row_of_position(t, sa, fi);
    if p(suffix(t, 0)) {
        lemma_count_prefix(n, 1, first);
        assert(fi < i);
    } else {
        lemma_count_prefix(n, 0, first);
        if fi < i {
            assert(lex_lt(suffix(t, sa[fi] as int), suffix(t, sa[i] as int)));
        }
    }
}

proof fn lemma_count_prefix_last(n: int)
    requires
        n >= 1,
    ensures
        count_upto(n, |k: int| k == n - 1) == 1,
{
    let f = |k: int| k == n - 1;
    lemma_count_prefix(n - 1, 0, f);
}

} // verus!
