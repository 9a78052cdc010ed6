//! Runs of equal characters, and the rank and select arithmetic on bit
//! sequences and character sequences that run-length encoding rests on.
use vstd::prelude::*;
use crate::counting::{lemma_rank_bound, lemma_rank_step};
use crate::model::{occ, prefix_sum, rank};
use crate::succinct::{count_ones, rank1};

verus! {

/// Row `k` of `l` starts a run: it is the first row, or its character
/// differs from the one before it.
pub open spec fn is_head(l: Seq<u64>, k: int) -> bool {
    k == 0 || l[k] != l[k - 1]
}

/// The run-start flags of `l`.
pub open spec fn head_flags(l: Seq<u64>) -> Seq<bool> {
    Seq::new(l.len(), |k: int| is_head(l, k))
}

// ---------------------------------------------------------------------------
// Rank and select on bit sequences
// ---------------------------------------------------------------------------

pub proof fn lemma_rank1_step(bits: Seq<bool>, i: int)
    requires
        0 <= i < bits.len(),
    ensures
        rank1(bits, i + 1) == rank1(bits, i) + if bits[i] { 1nat } else { 0nat },
{
    assert(bits.take(i + 1).drop_last() =~= bits.take(i));
}

pub proof fn lemma_rank1_all(bits: Seq<bool>)
    ensures
        rank1(bits, bits.len() as int) == count_ones(bits),
{
    assert(bits.take(bits.len() as int) =~= bits);
}

pub proof fn lemma_rank1_monotone(bits: Seq<bool>, i: int, j: int)
    requires
        0 <= i <= j <= bits.len(),
    ensures
        rank1(bits, i) <= rank1(bits, j),
        rank1(bits, j) <= rank1(bits, i) + (j - i),
    decreases j - i,
{
    if i < j {
        lemma_rank1_monotone(bits, i, j - 1);
        lemma_rank1_step(bits, j - 1);
    }
}

/// Below a set bit, fewer bits are set than in the whole sequence.
pub proof fn lemma_rank1_below_count(bits: Seq<bool>, x: int)
    requires
        0 <= x < bits.len(),
        bits[x],
    ensures
        rank1(bits, x) < count_ones(bits),
        rank1(bits, x + 1) == rank1(bits, x) + 1,
{
    lemma_rank1_step(bits, x);
    lemma_rank1_monotone(bits, x + 1, bits.len() as int);
    lemma_rank1_all(bits);
}

/// Two set bits with the same rank are the same bit.
pub proof fn lemma_rank1_unique(bits: Seq<bool>, a: int, b: int)
    requires
        0 <= a < bits.len(),
        0 <= b < bits.len(),
        bits[a],
        bits[b],
        rank1(bits, a) == rank1(bits, b),
    ensures
        a == b,
{
    if a < b {
        lemma_rank1_step(bits, a);
        lemma_rank1_monotone(bits, a + 1, b);
    } else if b < a {
        lemma_rank1_step(bits, b);
        lemma_rank1_monotone(bits, b + 1, a);
    }
}

/// Every rank below the number of set bits is the rank of a set bit.
pub proof fn lemma_select1_exists(bits: Seq<bool>, r: int)
    requires
        0 <= r < count_ones(bits),
    ensures
        exists|x: int| 0 <= x < bits.len() && #[trigger] bits[x] && rank1(bits, x) == r,
    decreases bits.len(),
{
    let n = bits.len() as int;
    lemma_rank1_all(bits);
    lemma_rank1_step(bits, n - 1);
    let prefix = bits.drop_last();
    assert forall|x: int| 0 <= x <= n - 1 implies rank1(prefix, x) == #[trigger] rank1(bits, x) by {
        assert(prefix.take(x) =~= bits.take(x));
    }
    lemma_rank1_all(prefix);
    if r < count_ones(prefix) {
        lemma_select1_exists(prefix, r);
        let x = choose|x: int| 0 <= x < prefix.len() && #[trigger] prefix[x] && rank1(prefix, x) == r;
        assert(bits[x] && rank1(bits, x) == r);
    } else {
        assert(bits[n - 1] && rank1(bits, n - 1) == r);
    }
}

/// A set bit whose rank is the number of set bits before position `i + 1`
/// (plus one) lies after `i`.
pub proof fn lemma_rank1_after(bits: Seq<bool>, i: int, y: int)
    requires
        0 <= i < bits.len(),
        0 <= y < bits.len(),
        bits[y],
        rank1(bits, y) >= rank1(bits, i + 1),
    ensures
        y > i,
{
    if y <= i {
        lemma_rank1_step(bits, y);
        lemma_rank1_monotone(bits, y + 1, i + 1);
    }
}

/// Bits before the end keep their values and ranks when bits are appended.
pub proof fn lemma_rank1_push(bits: Seq<bool>, v: bool)
    ensures
        forall|x: int| 0 <= x <= bits.len() ==> #[trigger] rank1(bits.push(v), x) == rank1(bits, x),
        count_ones(bits.push(v)) == count_ones(bits) + if v { 1nat } else { 0nat },
{
    assert forall|x: int| 0 <= x <= bits.len() implies #[trigger] rank1(bits.push(v), x) == rank1(bits, x) by {
        assert(bits.push(v).take(x) =~= bits.take(x));
    }
    assert(bits.push(v).drop_last() =~= bits);
}

// ---------------------------------------------------------------------------
// Rank and select on character sequences
// ---------------------------------------------------------------------------

/// Below an occurrence of `c`, fewer occurrences of `c` come than in all.
pub proof fn lemma_rank_below_occ(s: Seq<u64>, c: u64, x: int)
    requires
        0 <= x < s.len(),
        s[x] == c,
    ensures
        rank(s, c, x) < occ(s, c),
        rank(s, c, x + 1) == rank(s, c, x) + 1,
{
    lemma_rank_step(s, c, x);
    lemma_rank_bound(s, c, x + 1);
    lemma_rank_monotone(s, c, x + 1, s.len() as int);
    assert(s.take(s.len() as int) =~= s);
}

pub proof fn lemma_rank_monotone(s: Seq<u64>, c: u64, i: int, j: int)
    requires
        0 <= i <= j <= s.len(),
    ensures
        rank(s, c, i) <= rank(s, c, j),
        rank(s, c, j) <= rank(s, c, i) + (j - i),
    decreases j - i,
{
    if i < j {
        lemma_rank_monotone(s, c, i, j - 1);
        lemma_rank_step(s, c, j - 1);
    }
}

/// Two occurrences of `c` with the same rank are the same occurrence.
pub proof fn lemma_rank_unique(s: Seq<u64>, c: u64, a: int, b: int)
    requires
        0 <= a < s.len(),
        0 <= b < s.len(),
        s[a] == c,
        s[b] == c,
        rank(s, c, a) == rank(s, c, b),
    ensures
        a == b,
{
    if a < b {
        lemma_rank_step(s, c, a);
        lemma_rank_monotone(s, c, a + 1, b);
    } else if b < a {
        lemma_rank_step(s, c, b);
        lemma_rank_monotone(s, c, b + 1, a);
    }
}

/// The occurrences of `c` counted from position `j` on: the first one at or
/// after `j`, if any; none at all otherwise.
pub proof fn lemma_next_occurrence(s: Seq<u64>, c: u64, j: int)
    requires
        0 <= j <= s.len(),
    ensures
        rank(s, c, j) < occ(s, c) ==> exists|x: int|
            j <= x < s.len() && #[trigger] s[x] == c && rank(s, c, x) == rank(s, c, j),
        rank(s, c, j) == occ(s, c) ==> forall|x: int| j <= x < s.len() ==> #[trigger] s[x] != c,
        rank(s, c, j) <= occ(s, c),
    decreases s.len() - j,
{
    assert(s.take(s.len() as int) =~= s);
    lemma_rank_bound(s, c, j);
    if j < s.len() {
        lemma_next_occurrence(s, c, j + 1);
        lemma_rank_step(s, c, j);
        if s[j] == c {
            assert(s[j] == c && rank(s, c, j) == rank(s, c, j));
            lemma_rank_bound(s, c, j + 1);
        }
    }
}

/// A stretch holding no `c` adds no occurrence of `c`.
pub proof fn lemma_rank_flat(s: Seq<u64>, c: u64, a: int, b: int)
    requires
        0 <= a <= b <= s.len(),
        forall|x: int| a <= x < b ==> #[trigger] s[x] != c,
    ensures
        rank(s, c, b) == rank(s, c, a),
    decreases b - a,
{
    if a < b {
        lemma_rank_flat(s, c, a, b - 1);
        lemma_rank_step(s, c, b - 1);
    }
}

/// Every rank below the number of occurrences is that of an occurrence.
pub proof fn lemma_select_exists(s: Seq<u64>, c: u64, r: int)
    requires
        0 <= r < occ(s, c),
    ensures
        exists|x: int| 0 <= x < s.len() && #[trigger] s[x] == c && rank(s, c, x) == r,
    decreases s.len(),
{
    let n = s.len() as int;
    let prefix = s.drop_last();
    assert forall|x: int| 0 <= x <= n - 1 implies rank(prefix, c, x) == #[trigger] rank(s, c, x) by {
        assert(prefix.take(x) =~= s.take(x));
    }
    assert(prefix.take(n - 1) =~= prefix);
    if r < occ(prefix, c) {
        lemma_select_exists(prefix, c, r);
        let x = choose|x: int| 0 <= x < prefix.len() && #[trigger] prefix[x] == c && rank(prefix, c, x) == r;
        assert(s[x] == c && rank(s, c, x) == r);
    } else {
        assert(s[n - 1] == c && rank(s, c, n - 1) == r);
    }
}

/// Appending to a sequence keeps the ranks of its prefixes.
pub proof fn lemma_rank_push(s: Seq<u64>, v: u64)
    ensures
        forall|c: u64, x: int| 0 <= x <= s.len() ==> #[trigger] rank(s.push(v), c, x) == rank(s, c, x),
        forall|c: u64| #[trigger] occ(s.push(v), c) == occ(s, c) + if v == c { 1nat } else { 0nat },
{
    assert forall|c: u64, x: int| 0 <= x <= s.len() implies #[trigger] rank(s.push(v), c, x) == rank(s, c, x) by {
        assert(s.push(v).take(x) =~= s.take(x));
    }
    assert(s.push(v).drop_last() =~= s);
}

// ---------------------------------------------------------------------------
// Prefix sums
// ---------------------------------------------------------------------------

/// Changing an element changes no prefix sum that ends before it.
pub proof fn lemma_prefix_sum_update(s: Seq<usize>, j: int, v: usize, k: int)
    requires
        0 <= k <= j < s.len(),
    ensures
        prefix_sum(s.update(j, v), k) == prefix_sum(s, k),
    decreases k,
{
    if k > 0 {
        lemma_prefix_sum_update(s, j, v, k - 1);
    }
}

/// Appending an element changes no prefix sum of the old elements.
pub proof fn lemma_prefix_sum_push(s: Seq<usize>, v: usize, k: int)
    requires
        0 <= k <= s.len(),
    ensures
        prefix_sum(s.push(v), k) == prefix_sum(s, k),
    decreases k,
{
    if k > 0 {
        lemma_prefix_sum_push(s, v, k - 1);
    }
}

/// An element is at most the sum of the elements up to it.
pub proof fn lemma_prefix_sum_element(s: Seq<usize>, j: int, k: int)
    requires
        0 <= j < k <= s.len(),
    ensures
        s[j] <= prefix_sum(s, k),
        prefix_sum(s, j) + s[j] <= prefix_sum(s, k),
    decreases k,
{
    if j < k - 1 {
        lemma_prefix_sum_element(s, j, k - 1);
    }
}

// ---------------------------------------------------------------------------
// Runs
// ---------------------------------------------------------------------------

/// The rows from a row `h` up to (not including) a row `e`, with no run
/// start among them after `h`, all hold the character of `h`; each
/// character is counted accordingly.
pub proof fn lemma_run_span(l: Seq<u64>, h: int, e: int)
    requires
        0 <= h < e <= l.len(),
        rank1(head_flags(l), e) == rank1(head_flags(l), h + 1),
    ensures
        forall|x: int| h <= x < e ==> #[trigger] l[x] == l[h],
        forall|c: u64| #[trigger] rank(l, c, e) == rank(l, c, h) + if c == l[h] { e - h } else { 0 },
    decreases e - h,
{
    let hb = head_flags(l);
    if e == h + 1 {
        assert forall|c: u64| #[trigger] rank(l, c, e) == rank(l, c, h) + if c == l[h] { e - h } else { 0 } by {
            lemma_rank_step(l, c, h);
        }
    } else {
        lemma_rank1_monotone(hb, h + 1, e - 1);
        lemma_rank1_monotone(hb, e - 1, e);
        lemma_run_span(l, h, e - 1);
        lemma_rank1_step(hb, e - 1);
        assert(!hb[e - 1]);
        assert forall|c: u64| #[trigger] rank(l, c, e) == rank(l, c, h) + if c == l[h] { e - h } else { 0 } by {
            lemma_rank_step(l, c, e - 1);
        }
    }
}

/// The run start of row `i`: the start `h <= i` with no start in `(h, i]`.
pub proof fn lemma_run_start(l: Seq<u64>, i: int) -> (h: int)
    requires
        0 <= i < l.len(),
    ensures
        0 <= h <= i,
        is_head(l, h),
        head_flags(l)[h],
        rank1(head_flags(l), i + 1) == rank1(head_flags(l), h + 1),
        rank1(head_flags(l), h + 1) == rank1(head_flags(l), h) + 1,
    decreases i,
{
    let hb = head_flags(l);
    lemma_rank1_step(hb, i);
    if is_head(l, i) {
        i
    } else {
        let h = lemma_run_start(l, i - 1);
        h
    }
}

/// Each row's character is that of its run.
pub proof fn lemma_row_char(l: Seq<u64>, s: Seq<u64>, i: int)
    requires
        0 <= i < l.len(),
        forall|k: int| 0 <= k < l.len() && is_head(l, k) ==> s[#[trigger] rank1(head_flags(l), k) as int] == l[k],
    ensures
        rank1(head_flags(l), i + 1) >= 1,
        s[rank1(head_flags(l), i + 1) - 1] == l[i],
{
    let h = lemma_run_start(l, i);
    lemma_run_span(l, h, i + 1);
}

} // verus!
