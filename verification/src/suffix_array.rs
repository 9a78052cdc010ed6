//! Suffix arrays, used to construct the indexes.
use vstd::prelude::*;
use crate::character::Character;
use crate::error::Error;
use crate::model::{
    is_suffix_array, lemma_lex_asymmetric, lemma_lex_irreflexive, lemma_lex_skip, lemma_lex_total, lemma_lex_transitive,
    lemma_suffix_drop_first, lemma_suffix_skip, lemma_suffixes_distinct, lex_lt, occ, prefix_sum, suffix, valid_text,
};
use crate::text::Text;

verus! {

broadcast use {vstd::seq_lib::group_to_multiset_ensures, vstd::multiset::group_multiset_axioms};

/// `s` lists positions of `t` in non-decreasing order of their suffixes.
pub open spec fn sorted_by_suffix(t: Seq<u64>, s: Seq<usize>) -> bool {
    forall|i: int, j: int|
        0 <= i < j < s.len() ==> !lex_lt(suffix(t, #[trigger] s[j] as int), suffix(t, #[trigger] s[i] as int))
}

/// The positions `0..n` in increasing order.
pub open spec fn identity_seq(n: nat) -> Seq<usize> {
    Seq::new(n, |i: int| i as usize)
}

/// Count the occurrences of every character code of `text`.
///
/// The result has one entry for every code up to that of the largest
/// character of the text.
pub fn count_chars<C: Character>(text: &Text<C>) -> (r: Vec<usize>)
    requires
        text.bounded(),
        text.max_code() < usize::MAX,
    ensures
        r.len() == text.max_code() + 1,
        forall|c: int| 0 <= c < r.len() ==> #[trigger] r[c] == occ(text.codes(), c as u64),
{
    let codes = text.to_codes();
    count_codes(&codes, text.max_character().into_u64())
}

pub(crate) fn count_codes(codes: &Vec<u64>, max: u64) -> (r: Vec<usize>)
    requires
        max < usize::MAX,
        forall|i: int| 0 <= i < codes.len() ==> #[trigger] codes[i] <= max,
    ensures
        r.len() == max + 1,
        forall|c: int| 0 <= c < r.len() ==> #[trigger] r[c] == occ(codes@, c as u64),
{
    let m: usize = max as usize + 1;
    let mut occs: Vec<usize> = vec![0; m];
    let mut i: usize = 0;
    while i < codes.len()
        invariant
            i <= codes.len(),
            m == max + 1,
            occs.len() == m,
            forall|k: int| 0 <= k < codes.len() ==> #[trigger] codes[k] <= max,
            forall|c: int| 0 <= c < m ==> #[trigger] occs[c] == occ(codes@.take(i as int), c as u64),
            forall|c: int| 0 <= c < m ==> #[trigger] occs[c] <= i,
        decreases codes.len() - i,
    {
        let c = codes[i] as usize;
        assert(codes@.take(i + 1).drop_last() =~= codes@.take(i as int));
        let v = occs[c];
        occs.set(c, v + 1);
        i = i + 1;
    }
    assert(codes@.take(codes.len() as int) =~= codes@);
    occs
}

/// The start of each character's bucket: the sum of the counts of all
/// smaller characters.
pub fn get_bucket_start_pos(occs: &[usize]) -> (r: Vec<usize>)
    requires
        prefix_sum(occs@, occs.len() as int) <= usize::MAX,
    ensures
        r.len() == occs.len(),
        forall|c: int| 0 <= c < r.len() ==> #[trigger] r[c] == prefix_sum(occs@, c),
{
    let mut sum: usize = 0;
    let mut buckets: Vec<usize> = Vec::with_capacity(occs.len());
    let mut i: usize = 0;
    while i < occs.len()
        invariant
            i <= occs.len(),
            buckets.len() == i,
            sum == prefix_sum(occs@, i as int),
            prefix_sum(occs@, occs.len() as int) <= usize::MAX,
            forall|c: int| 0 <= c < i ==> #[trigger] buckets[c] == prefix_sum(occs@, c),
        decreases occs.len() - i,
    {
        buckets.push(sum);
        proof {
            lemma_prefix_sum_monotone(occs@, i + 1, occs.len() as int);
        }
        sum = sum + occs[i];
        i = i + 1;
    }
    buckets
}

/// The end of each character's bucket: the sum of the counts of all
/// characters up to and including it.
pub fn get_bucket_end_pos(occs: &[usize]) -> (r: Vec<usize>)
    requires
        prefix_sum(occs@, occs.len() as int) <= usize::MAX,
    ensures
        r.len() == occs.len(),
        forall|c: int| 0 <= c < r.len() ==> #[trigger] r[c] == prefix_sum(occs@, c + 1),
{
    let mut sum: usize = 0;
    let mut buckets: Vec<usize> = Vec::with_capacity(occs.len());
    let mut i: usize = 0;
    while i < occs.len()
        invariant
            i <= occs.len(),
            buckets.len() == i,
            sum == prefix_sum(occs@, i as int),
            prefix_sum(occs@, occs.len() as int) <= usize::MAX,
            forall|c: int| 0 <= c < i ==> #[trigger] buckets[c] == prefix_sum(occs@, c + 1),
        decreases occs.len() - i,
    {
        proof {
            lemma_prefix_sum_monotone(occs@, i + 1, occs.len() as int);
        }
        sum = sum + occs[i];
        buckets.push(sum);
        i = i + 1;
    }
    buckets
}

pub proof fn lemma_prefix_sum_monotone(s: Seq<usize>, a: int, b: int)
    requires
        0 <= a <= b <= s.len(),
    ensures
        prefix_sum(s, a) <= prefix_sum(s, b),
    decreases b - a,
{
    if a < b {
        lemma_prefix_sum_monotone(s, a, b - 1);
    }
}

/// Whether the text is one an index accepts (see `valid_text`).
pub(crate) fn check_text(codes: &Vec<u64>) -> (r: bool)
    ensures
        r == valid_text(codes@),
{
    let n = codes.len();
    if n == 0 {
        return false;
    }
    if codes[n - 1] != 0 {
        return false;
    }
    let mut i: usize = 0;
    while i + 1 < n
        invariant
            n == codes.len(),
            n >= 1,
            i < n,
            forall|k: int| 0 <= k < i ==> !(#[trigger] codes@[k] == 0 && codes@[k + 1] == 0),
        decreases n - i,
    {
        if codes[i] == 0 && codes[i + 1] == 0 {
            return false;
        }
        i = i + 1;
    }
    true
}

/// Compare the suffixes of `t` starting at `i` and `j`.
pub(crate) fn suffix_less(t: &Vec<u64>, i: usize, j: usize) -> (r: bool)
    requires
        i < t.len(),
        j < t.len(),
    ensures
        r == lex_lt(suffix(t@, i as int), suffix(t@, j as int)),
{
    let n = t.len();
    let mut k: usize = 0;
    while i + k < n && j + k < n && t[i + k] == t[j + k]
        invariant
            n == t.len(),
            i + k <= n,
            j + k <= n,
            suffix(t@, i as int).take(k as int) == suffix(t@, j as int).take(k as int),
        decreases n - i - k,
    {
        assert(suffix(t@, i as int).take(k + 1) =~= suffix(t@, i as int).take(k as int).push(t@[i + k]));
        assert(suffix(t@, j as int).take(k + 1) =~= suffix(t@, j as int).take(k as int).push(t@[j + k]));
        k = k + 1;
    }
    proof {
        lemma_lex_skip(suffix(t@, i as int), suffix(t@, j as int), k as int);
        lemma_suffix_skip(t@, i as int, k as int);
        lemma_suffix_skip(t@, j as int, k as int);
    }
    if i + k == n {
        j + k < n
    } else if j + k == n {
        false
    } else {
        t[i + k] < t[j + k]
    }
}

/// Merge two runs of positions sorted by their suffixes.
fn merge(t: &Vec<u64>, a: Vec<usize>, b: Vec<usize>) -> (r: Vec<usize>)
    requires
        forall|i: int| 0 <= i < a.len() ==> #[trigger] a[i] < t.len(),
        forall|i: int| 0 <= i < b.len() ==> #[trigger] b[i] < t.len(),
        sorted_by_suffix(t@, a@),
        sorted_by_suffix(t@, b@),
    ensures
        r@.to_multiset() == a@.to_multiset().add(b@.to_multiset()),
        r.len() == a.len() + b.len(),
        forall|i: int| 0 <= i < r.len() ==> #[trigger] r[i] < t.len(),
        sorted_by_suffix(t@, r@),
{
    let mut r: Vec<usize> = Vec::new();
    let mut i: usize = 0;
    let mut j: usize = 0;
    while i < a.len() || j < b.len()
        invariant
            i <= a.len(),
            j <= b.len(),
            r.len() == i + j,
            forall|k: int| 0 <= k < a.len() ==> #[trigger] a[k] < t.len(),
            forall|k: int| 0 <= k < b.len() ==> #[trigger] b[k] < t.len(),
            forall|k: int| 0 <= k < r.len() ==> #[trigger] r[k] < t.len(),
            sorted_by_suffix(t@, a@),
            sorted_by_suffix(t@, b@),
            sorted_by_suffix(t@, r@),
            r@.to_multiset() == a@.take(i as int).to_multiset().add(b@.take(j as int).to_multiset()),
            r.len() > 0 && i < a.len() ==> !lex_lt(suffix(t@, a[i as int] as int), suffix(t@, r[r.len() - 1] as int)),
            r.len() > 0 && j < b.len() ==> !lex_lt(suffix(t@, b[j as int] as int), suffix(t@, r[r.len() - 1] as int)),
        decreases a.len() + b.len() - i - j,
    {
        let take_a = if i < a.len() && j < b.len() {
            !suffix_less(t, b[j], a[i])
        } else {
            i < a.len()
        };
        let ghost old_r = r@;
        let x = if take_a { a[i] } else { b[j] };
        proof {
            // every element of r is at most x
            assert forall|k: int| 0 <= k < old_r.len() implies !lex_lt(suffix(t@, x as int), suffix(t@, #[trigger] old_r[k] as int)) by {
                let last = old_r[old_r.len() - 1];
                if k < old_r.len() - 1 {
                    assert(!lex_lt(suffix(t@, last as int), suffix(t@, old_r[k] as int)));
                } else {
                    lemma_lex_irreflexive(suffix(t@, last as int));
                }
                lemma_not_lt_transitive(t@, x as int, last as int, old_r[k] as int);
            }
        }
        r.push(x);
        if take_a {
            assert(a@.take(i + 1) =~= a@.take(i as int).push(a@[i as int]));
            i = i + 1;
        } else {
            assert(b@.take(j + 1) =~= b@.take(j as int).push(b@[j as int]));
            j = j + 1;
        }
        proof {
            if i < a.len() {
                if take_a {
                    assert(!lex_lt(suffix(t@, a[i as int] as int), suffix(t@, a[i - 1] as int)));
                } else if j > 0 {
                    lemma_lex_total_or_eq(t@, b[j - 1] as int, a[i as int] as int);
                }
            }
            if j < b.len() {
                if !take_a {
                    assert(!lex_lt(suffix(t@, b[j as int] as int), suffix(t@, b[j - 1] as int)));
                } else if i > 0 {
                    lemma_lex_total_or_eq(t@, a[i - 1] as int, b[j as int] as int);
                }
            }
        }
    }
    assert(a@.take(a.len() as int) =~= a@);
    assert(b@.take(b.len() as int) =~= b@);
    r
}

/// If `x <= y` and `y <= z` in suffix order, then `x <= z`.
proof fn lemma_not_lt_transitive(t: Seq<u64>, z: int, y: int, x: int)
    requires
        0 <= x < t.len(),
        0 <= y < t.len(),
        0 <= z < t.len(),
        !lex_lt(suffix(t, z), suffix(t, y)),
        !lex_lt(suffix(t, y), suffix(t, x)),
    ensures
        !lex_lt(suffix(t, z), suffix(t, x)),
{
    if lex_lt(suffix(t, z), suffix(t, x)) {
        if suffix(t, y) != suffix(t, x) {
            lemma_lex_total(suffix(t, y), suffix(t, x));
        }
        if suffix(t, z) != suffix(t, y) {
            lemma_lex_total(suffix(t, z), suffix(t, y));
        }
        if suffix(t, y) == suffix(t, x) {
        } else {
            lemma_lex_transitive(suffix(t, z), suffix(t, x), suffix(t, y));
        }
    }
}

/// Between two suffixes one is at most the other.
proof fn lemma_lex_total_or_eq(t: Seq<u64>, x: int, y: int)
    requires
        0 <= x < t.len(),
        0 <= y < t.len(),
    ensures
        !lex_lt(suffix(t, x), suffix(t, y)) || !lex_lt(suffix(t, y), suffix(t, x)),
{
    if lex_lt(suffix(t, x), suffix(t, y)) {
        lemma_lex_asymmetric(suffix(t, x), suffix(t, y));
    }
}

/// Sort the positions `v[lo..hi]` by their suffixes.
fn merge_sort(t: &Vec<u64>, v: &Vec<usize>, lo: usize, hi: usize) -> (r: Vec<usize>)
    requires
        lo <= hi <= v.len(),
        forall|i: int| 0 <= i < v.len() ==> #[trigger] v[i] < t.len(),
    ensures
        r@.to_multiset() == v@.subrange(lo as int, hi as int).to_multiset(),
        r.len() == hi - lo,
        forall|i: int| 0 <= i < r.len() ==> #[trigger] r[i] < t.len(),
        sorted_by_suffix(t@, r@),
    decreases hi - lo,
{
    if hi - lo <= 1 {
        let mut r: Vec<usize> = Vec::new();
        if hi - lo == 1 {
            r.push(v[lo]);
            assert(v@.subrange(lo as int, hi as int) =~= seq![v@[lo as int]]);
            assert(r@ =~= seq![v@[lo as int]]);
        } else {
            assert(v@.subrange(lo as int, hi as int) =~= Seq::<usize>::empty());
            assert(r@ =~= Seq::<usize>::empty());
        }
        return r;
    }
    let mid = lo + (hi - lo) / 2;
    let left = merge_sort(t, v, lo, mid);
    let right = merge_sort(t, v, mid, hi);
    proof {
        assert(v@.subrange(lo as int, hi as int) =~= v@.subrange(lo as int, mid as int) + v@.subrange(mid as int, hi as int));
        vstd::seq_lib::lemma_multiset_commutative(v@.subrange(lo as int, mid as int), v@.subrange(mid as int, hi as int));
    }
    merge(t, left, right)
}

/// Build the suffix array of `text`.
///
/// The text must end with the zero character and must not hold two
/// consecutive zeros; otherwise `Error::InvalidText` is returned.
pub fn build_suffix_array<C: Character>(text: &Text<C>) -> (r: Result<Vec<usize>, Error>)
    requires
        text.bounded(),
        text.max_code() < usize::MAX,
    ensures
        r is Ok <==> valid_text(text.codes()),
        r matches Ok(sa) ==> is_suffix_array(text.codes(), sa@),
{
    let codes = text.to_codes();
    if !check_text(&codes) {
        return Err(Error::InvalidText("the text must end with a single zero and hold no consecutive zeros"));
    }
    let max = text.max_character().into_u64();
    Ok(crate::sais::sais(&codes, max))
}

/// The row of position `x` under the inverse `rank` of a suffix array of a
/// text of length `n`; the empty suffix (`x == n`) comes before every row.
pub open spec fn row_of(rank: Seq<usize>, n: int, x: int) -> int {
    if x == n {
        -1
    } else {
        rank[x] as int
    }
}

/// `s` lists every position of `t` once and `rank` is its inverse.
pub open spec fn inverse_rows(t: Seq<u64>, s: Seq<usize>, rank: Seq<usize>) -> bool {
    &&& s.len() == t.len()
    &&& rank.len() == t.len()
    &&& forall|k: int| 0 <= k < s.len() ==> #[trigger] s[k] < t.len() && rank[s[k] as int] == k
    &&& forall|x: int| 0 <= x < t.len() ==> #[trigger] rank[x] < t.len() && s[rank[x] as int] == x
}

/// The suffixes of rows `k` and `k + 1` are in order as far as their first
/// characters and the rows of the suffixes after them tell.
pub open spec fn adjacent_in_order(t: Seq<u64>, s: Seq<usize>, rank: Seq<usize>, k: int) -> bool {
    let n = t.len() as int;
    let a = s[k] as int;
    let b = s[k + 1] as int;
    ||| t[a] < t[b]
    ||| (t[a] == t[b] && b != n - 1 && row_of(rank, n, a + 1) < row_of(rank, n, b + 1))
}

/// Along the rows, first characters never decrease, and where they stay
/// equal the rows of the following suffixes increase.
proof fn lemma_rows_chain(t: Seq<u64>, s: Seq<usize>, rank: Seq<usize>, i: int, j: int)
    requires
        inverse_rows(t, s, rank),
        forall|k: int| 0 <= k < t.len() - 1 ==> #[trigger] adjacent_in_order(t, s, rank, k),
        0 <= i < j < t.len(),
    ensures
        t[s[i] as int] <= t[s[j] as int],
        t[s[i] as int] == t[s[j] as int] ==> s[j] != t.len() - 1
            && row_of(rank, t.len() as int, s[i] + 1) < row_of(rank, t.len() as int, s[j] + 1),
    decreases j - i,
{
    assert(adjacent_in_order(t, s, rank, j - 1));
    if i < j - 1 {
        lemma_rows_chain(t, s, rank, i, j - 1);
    }
}

/// Rows whose first characters and following rows are in order hold the
/// suffixes in increasing order: by induction on the shorter suffix.
proof fn lemma_rows_sorted(t: Seq<u64>, s: Seq<usize>, rank: Seq<usize>, m: nat, i: int, j: int)
    requires
        inverse_rows(t, s, rank),
        forall|k: int| 0 <= k < t.len() - 1 ==> #[trigger] adjacent_in_order(t, s, rank, k),
        0 <= i < j < t.len(),
        t.len() - s[i] <= m || t.len() - s[j] <= m,
    ensures
        lex_lt(suffix(t, s[i] as int), suffix(t, s[j] as int)),
    decreases m,
{
    let n = t.len() as int;
    let a = s[i] as int;
    let b = s[j] as int;
    assert(s[i] < n && s[j] < n);
    lemma_rows_chain(t, s, rank, i, j);
    lemma_suffix_drop_first(t, a);
    lemma_suffix_drop_first(t, b);
    if t[a] < t[b] {
    } else if a == n - 1 {
        assert(suffix(t, a + 1).len() == 0);
        assert(suffix(t, b + 1).len() > 0);
        assert(lex_lt(suffix(t, a + 1), suffix(t, b + 1)));
    } else {
        let p = a + 1;
        let q = b + 1;
        let ip = rank[p] as int;
        let iq = rank[q] as int;
        assert(s[ip] == p && s[iq] == q);
        lemma_rows_sorted(t, s, rank, (m - 1) as nat, ip, iq);
    }
}

/// The suffix array of `t` has its rows in order, one pair after another.
proof fn lemma_suffix_array_adjacent(t: Seq<u64>, s: Seq<usize>, rank: Seq<usize>, k: int)
    requires
        is_suffix_array(t, s),
        inverse_rows(t, s, rank),
        0 <= k < t.len() - 1,
    ensures
        adjacent_in_order(t, s, rank, k),
{
    let n = t.len() as int;
    let a = s[k] as int;
    let b = s[k + 1] as int;
    assert(lex_lt(suffix(t, s[k] as int), suffix(t, s[k + 1] as int)));
    lemma_suffix_drop_first(t, a);
    lemma_suffix_drop_first(t, b);
    if t[a] == t[b] {
        assert(lex_lt(suffix(t, a + 1), suffix(t, b + 1)));
        if b == n - 1 {
            assert(suffix(t, b + 1).len() == 0);
        }
        if a != n - 1 {
            let ip = rank[a + 1] as int;
            let iq = rank[b + 1] as int;
            assert(s[ip] == a + 1 && s[iq] == b + 1);
            if iq < ip {
                assert(lex_lt(suffix(t, s[iq] as int), suffix(t, s[ip] as int)));
                lemma_lex_asymmetric(suffix(t, a + 1), suffix(t, b + 1));
            } else if iq == ip {
                lemma_lex_irreflexive(suffix(t, a + 1));
            }
        }
    }
}

/// Whether the first `t.len()` entries of `sa` are the suffix array of `t`.
///
/// Linear time: the entries must list every position once, and each two
/// neighbouring rows must be in order by their first characters and, where
/// these agree, by the rows of the suffixes that follow them.
pub(crate) fn check_suffix_array_prefix(t: &Vec<u64>, sa: &Vec<usize>) -> (r: bool)
    requires
        sa.len() >= t.len(),
    ensures
        r == is_suffix_array(t@, sa@.take(t.len() as int)),
{
    let n = t.len();
    let ghost s = sa@.take(n as int);
    let mut rank: Vec<usize> = vec![n; n];
    let mut k: usize = 0;
    while k < n
        invariant
            n == t.len(),
            s == sa@.take(n as int),
            sa.len() >= n,
            k <= n,
            rank.len() == n,
            forall|j: int| 0 <= j < k ==> #[trigger] s[j] < n && rank[s[j] as int] == j,
            forall|x: int| 0 <= x < n ==> #[trigger] rank[x] == n || (rank[x] < k && s[rank[x] as int] == x),
        decreases n - k,
    {
        let x = sa[k];
        if x >= n {
            proof {
                assert(s[k as int] == x);
            }
            return false;
        }
        if rank[x] != n {
            proof {
                let j = rank[x as int] as int;
                assert(s[j] == x && s[k as int] == x);
                if is_suffix_array(t@, s) {
                    crate::theory::lemma_rows_distinct(t@, s, j, k as int);
                }
            }
            return false;
        }
        rank.set(x, k);
        proof {
            assert(s[k as int] == x);
        }
        k = k + 1;
    }
    let mut x: usize = 0;
    while x < n
        invariant
            n == t.len(),
            s == sa@.take(n as int),
            x <= n,
            rank.len() == n,
            forall|j: int| 0 <= j < n ==> #[trigger] s[j] < n && rank[s[j] as int] == j,
            forall|y: int| 0 <= y < n ==> #[trigger] rank[y] == n || (rank[y] < n && s[rank[y] as int] == y),
            forall|y: int| 0 <= y < x ==> #[trigger] rank[y] < n,
        decreases n - x,
    {
        if rank[x] == n {
            proof {
                if is_suffix_array(t@, s) {
                    crate::counting::lemma_suffix_array_onto(t@, s, x as int);
                    let j = choose|j: int| 0 <= j < s.len() && s[j] == x;
                    assert(rank[s[j] as int] == j);
                }
            }
            return false;
        }
        x = x + 1;
    }
    assert(inverse_rows(t@, s, rank@));
    if n == 0 {
        return true;
    }
    let mut k: usize = 0;
    while k + 1 < n
        invariant
            n == t.len(),
            n >= 1,
            s == sa@.take(n as int),
            k + 1 <= n,
            sa.len() >= n,
            inverse_rows(t@, s, rank@),
            forall|j: int| 0 <= j < k ==> #[trigger] adjacent_in_order(t@, s, rank@, j),
        decreases n - k,
    {
        let a = sa[k];
        let b = sa[k + 1];
        proof {
            assert(s[k as int] == a && s[k + 1] == b);
        }
        let in_order = if t[a] < t[b] {
            true
        } else if t[a] == t[b] && b != n - 1 {
            a == n - 1 || rank[a + 1] < rank[b + 1]
        } else {
            false
        };
        if !in_order {
            proof {
                if is_suffix_array(t@, s) {
                    lemma_suffix_array_adjacent(t@, s, rank@, k as int);
                }
            }
            return false;
        }
        k = k + 1;
    }
    proof {
        assert forall|i: int, j: int| 0 <= i < j < s.len() implies lex_lt(
            suffix(t@, #[trigger] s[i] as int),
            suffix(t@, #[trigger] s[j] as int),
        ) by {
            lemma_rows_sorted(t@, s, rank@, n as nat, i, j);
        }
    }
    true
}

/// Whether `sa` is the suffix array of `t`: its entries list every position
/// once, in the order of the suffixes starting there. Linear time.
pub fn check_suffix_array(t: &Vec<u64>, sa: &Vec<usize>) -> (r: bool)
    ensures
        r == is_suffix_array(t@, sa@),
{
    if sa.len() != t.len() {
        return false;
    }
    proof {
        assert(sa@.take(t.len() as int) =~= sa@);
    }
    check_suffix_array_prefix(t, sa)
}

/// The suffix array of `codes`, by sorting the suffixes.
pub(crate) fn sort_suffixes(codes: &Vec<u64>) -> (sa: Vec<usize>)
    ensures
        is_suffix_array(codes@, sa@),
{
    let n = codes.len();
    let mut ids: Vec<usize> = Vec::with_capacity(n);
    let mut i: usize = 0;
    while i < n
        invariant
            i <= n,
            n == codes.len(),
            ids@ == identity_seq(i as nat),
        decreases n - i,
    {
        ids.push(i);
        assert(ids@ =~= identity_seq((i + 1) as nat));
        i = i + 1;
    }
    assert(ids@.subrange(0, n as int) =~= ids@);
    let sa = merge_sort(codes, &ids, 0, n);
    proof {
        lemma_sorted_permutation_is_suffix_array(codes@, sa@);
    }
    sa
}

proof fn lemma_identity_no_duplicates(n: nat)
    requires
        n <= usize::MAX,
    ensures
        identity_seq(n).no_duplicates(),
{
    assert forall|i: int, j: int| 0 <= i < identity_seq(n).len() && 0 <= j < identity_seq(n).len() && i != j implies identity_seq(n)[i] != identity_seq(n)[j] by {
        assert(identity_seq(n)[i] == i as usize);
        assert(identity_seq(n)[j] == j as usize);
    }
}

proof fn lemma_sorted_permutation_is_suffix_array(t: Seq<u64>, sa: Seq<usize>)
    requires
        sa.to_multiset() == identity_seq(t.len()).to_multiset(),
        sa.len() == t.len(),
        t.len() <= usize::MAX,
        forall|i: int| 0 <= i < sa.len() ==> #[trigger] sa[i] < t.len(),
        sorted_by_suffix(t, sa),
    ensures
        is_suffix_array(t, sa),
{
    let id = identity_seq(t.len());
    lemma_identity_no_duplicates(t.len());
    id.lemma_multiset_has_no_duplicates();
    sa.lemma_multiset_has_no_duplicates_conv();
    assert forall|i: int, j: int| 0 <= i < j < sa.len() implies lex_lt(suffix(t, #[trigger] sa[i] as int), suffix(t, #[trigger] sa[j] as int)) by {
        assert(sa[i] != sa[j]);
        lemma_suffixes_distinct(t, sa[i] as int, sa[j] as int);
    }
}

} // verus!
