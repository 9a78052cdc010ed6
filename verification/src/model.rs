//! The mathematical model of texts, suffixes and their order.
use vstd::prelude::*;

verus! {

/// The suffix of `t` that starts at position `i`.
pub open spec fn suffix(t: Seq<u64>, i: int) -> Seq<u64> {
    t.subrange(i, t.len() as int)
}

/// Lexicographic order on code sequences; a proper prefix is smaller.
pub open spec fn lex_lt(a: Seq<u64>, b: Seq<u64>) -> bool
    decreases a.len(),
{
    if b.len() == 0 {
        false
    } else if a.len() == 0 {
        true
    } else if a[0] != b[0] {
        a[0] < b[0]
    } else {
        lex_lt(a.drop_first(), b.drop_first())
    }
}

/// A text the indexes accept: it ends with the zero character and holds no
/// two consecutive zeros.
pub open spec fn valid_text(t: Seq<u64>) -> bool {
    &&& t.len() >= 1
    &&& t[t.len() - 1] == 0
    &&& forall|i: int| 0 <= i < t.len() - 1 ==> !(#[trigger] t[i] == 0 && t[i + 1] == 0)
}

/// `sa` lists every position of `t` once, in the lexicographic order of the
/// suffixes starting there.
pub open spec fn is_suffix_array(t: Seq<u64>, sa: Seq<usize>) -> bool {
    &&& sa.len() == t.len()
    &&& forall|i: int| 0 <= i < sa.len() ==> #[trigger] sa[i] < t.len()
    &&& forall|i: int, j: int|
        0 <= i < j < sa.len() ==> lex_lt(suffix(t, #[trigger] sa[i] as int), suffix(t, #[trigger] sa[j] as int))
}

/// The number of positions `j < n` that satisfy `f`.
pub open spec fn count_upto(n: int, f: spec_fn(int) -> bool) -> nat
    decreases n,
{
    if n <= 0 {
        0
    } else {
        count_upto(n - 1, f) + if f(n - 1) {
            1nat
        } else {
            0nat
        }
    }
}

/// The number of occurrences of `c` in `s`.
pub open spec fn occ(s: Seq<u64>, c: u64) -> nat
    decreases s.len(),
{
    if s.len() == 0 {
        0
    } else {
        occ(s.drop_last(), c) + if s.last() == c {
            1nat
        } else {
            0nat
        }
    }
}

/// The number of elements of `s` smaller than `c`.
pub open spec fn count_less(s: Seq<u64>, c: u64) -> nat
    decreases s.len(),
{
    if s.len() == 0 {
        0
    } else {
        count_less(s.drop_last(), c) + if s.last() < c {
            1nat
        } else {
            0nat
        }
    }
}

/// The number of occurrences of `c` among the first `i` elements of `s`.
pub open spec fn rank(s: Seq<u64>, c: u64, i: int) -> nat {
    occ(s.take(i), c)
}

/// The sum of the first `k` elements of `s`.
pub open spec fn prefix_sum(s: Seq<usize>, k: int) -> nat
    decreases k,
{
    if k <= 0 {
        0
    } else {
        prefix_sum(s, k - 1) + s[k - 1] as nat
    }
}

/// The number of positions of `t` at which `p` occurs.
pub open spec fn occurrences(t: Seq<u64>, p: Seq<u64>) -> nat {
    count_upto(t.len() as int, |j: int| p.is_prefix_of(suffix(t, j)))
}

/// `p` occurs at position `j` of `t`.
pub open spec fn occurs_at(t: Seq<u64>, p: Seq<u64>, j: int) -> bool {
    0 <= j < t.len() && p.is_prefix_of(suffix(t, j))
}

// ---------------------------------------------------------------------------
// Lexicographic order
// ---------------------------------------------------------------------------

pub proof fn lemma_lex_irreflexive(a: Seq<u64>)
    ensures
        !lex_lt(a, a),
    decreases a.len(),
{
    if a.len() > 0 {
        lemma_lex_irreflexive(a.drop_first());
    }
}

pub proof fn lemma_lex_transitive(a: Seq<u64>, b: Seq<u64>, c: Seq<u64>)
    requires
        lex_lt(a, b),
        lex_lt(b, c),
    ensures
        lex_lt(a, c),
    decreases a.len(),
{
    if a.len() > 0 && b.len() > 0 && c.len() > 0 && a[0] == b[0] && b[0] == c[0] {
        lemma_lex_transitive(a.drop_first(), b.drop_first(), c.drop_first());
    }
}

pub proof fn lemma_lex_total(a: Seq<u64>, b: Seq<u64>)
    requires
        a != b,
    ensures
        lex_lt(a, b) || lex_lt(b, a),
    decreases a.len(),
{
    if a.len() == 0 {
        assert(b.len() != 0) by {
            if b.len() == 0 {
                assert(a =~= b);
            }
        }
    } else if b.len() == 0 {
    } else if a[0] == b[0] {
        if a.drop_first() == b.drop_first() {
            assert(a =~= seq![a[0]] + a.drop_first());
            assert(b =~= seq![b[0]] + b.drop_first());
        }
        lemma_lex_total(a.drop_first(), b.drop_first());
    }
}

pub proof fn lemma_lex_asymmetric(a: Seq<u64>, b: Seq<u64>)
    requires
        lex_lt(a, b),
    ensures
        !lex_lt(b, a),
{
    if lex_lt(b, a) {
        lemma_lex_transitive(a, b, a);
        lemma_lex_irreflexive(a);
    }
}

/// Sequences that agree on their first `k` elements compare as their rests do.
pub proof fn lemma_lex_skip(a: Seq<u64>, b: Seq<u64>, k: int)
    requires
        0 <= k <= a.len(),
        k <= b.len(),
        a.take(k) == b.take(k),
    ensures
        lex_lt(a, b) == lex_lt(a.skip(k), b.skip(k)),
    decreases k,
{
    if k > 0 {
        assert(a[0] == a.take(k)[0]);
        assert(b[0] == b.take(k)[0]);
        assert(a.drop_first().take(k - 1) =~= a.take(k).drop_first());
        assert(b.drop_first().take(k - 1) =~= b.take(k).drop_first());
        lemma_lex_skip(a.drop_first(), b.drop_first(), k - 1);
        assert(a.drop_first().skip(k - 1) =~= a.skip(k));
        assert(b.drop_first().skip(k - 1) =~= b.skip(k));
    } else {
        assert(a.skip(0) =~= a);
        assert(b.skip(0) =~= b);
    }
}

pub proof fn lemma_suffix_drop_first(t: Seq<u64>, i: int)
    requires
        0 <= i < t.len(),
    ensures
        suffix(t, i).len() > 0,
        suffix(t, i)[0] == t[i],
        suffix(t, i).drop_first() == suffix(t, i + 1),
{
    assert(suffix(t, i).drop_first() =~= suffix(t, i + 1));
}

pub proof fn lemma_suffix_skip(t: Seq<u64>, i: int, k: int)
    requires
        0 <= i,
        0 <= k,
        i + k <= t.len(),
    ensures
        suffix(t, i).skip(k) == suffix(t, i + k),
{
    assert(suffix(t, i).skip(k) =~= suffix(t, i + k));
}

/// Suffixes starting at different positions differ.
pub proof fn lemma_suffixes_distinct(t: Seq<u64>, i: int, j: int)
    requires
        0 <= i < t.len(),
        0 <= j < t.len(),
        i != j,
    ensures
        suffix(t, i) != suffix(t, j),
        lex_lt(suffix(t, i), suffix(t, j)) || lex_lt(suffix(t, j), suffix(t, i)),
{
    assert(suffix(t, i).len() != suffix(t, j).len());
    lemma_lex_total(suffix(t, i), suffix(t, j));
}

} // verus!
