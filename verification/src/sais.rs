//! Suffix array construction by induced sorting (SA-IS), after
//! Ge Nong, Sen Zhang and Wai Hong Chan, "Two Efficient Algorithms for
//! Linear Time Suffix Array Construction", IEEE Transactions on Computers
//! 60(10), 2011.
//!
//! The functions here are proved to stay within their arrays and to
//! terminate; where an index computed by the algorithm would leave its
//! array (which the algorithm never does on valid input), they give up and
//! report failure instead. Before success is reported, the array they
//! produce is checked, in linear time, to be the suffix array
//! (`suffix_array::check_suffix_array_prefix`); that SA-IS itself never
//! gives up and always sorts correctly is not proved.
use vstd::prelude::*;
use vers_vecs::BitVec;
use crate::model::{count_less, prefix_sum};
use crate::succinct::{bit_vec_bits, bit_vec_from_zeros, bit_vec_is_bit_set, bit_vec_set};
use crate::model::is_suffix_array;
use crate::suffix_array::{check_suffix_array_prefix, count_codes, get_bucket_end_pos, get_bucket_start_pos, sort_suffixes};
use crate::theory::{lemma_count_less_all, lemma_prefix_sum_count_less};

verus! {

/// The mark of a slot of the suffix array that holds no position yet.
pub const EMPTY: usize = usize::MAX;

/// Every symbol of `text` is at most `max`.
fn within_alphabet(text: &Vec<u64>, max: u64) -> (r: bool)
    ensures
        r == forall|i: int| 0 <= i < text.len() ==> #[trigger] text[i] <= max,
{
    let mut i: usize = 0;
    while i < text.len()
        invariant
            i <= text.len(),
            forall|k: int| 0 <= k < i ==> #[trigger] text[k] <= max,
        decreases text.len() - i,
    {
        if text[i] > max {
            return false;
        }
        i = i + 1;
    }
    true
}

/// The symbol counts of `text`, whose symbols are at most `max`, and the
/// fact that they sum up to the length of the text.
fn symbol_counts(text: &Vec<u64>, max: u64) -> (r: Vec<usize>)
    requires
        max < usize::MAX,
        forall|i: int| 0 <= i < text.len() ==> #[trigger] text[i] <= max,
    ensures
        r.len() == max + 1,
        prefix_sum(r@, r.len() as int) == text.len(),
{
    let occs = count_codes(text, max);
    proof {
        lemma_prefix_sum_count_less(text@, occs@, occs.len() as int);
        assert forall|i: int| 0 <= i < text.len() implies #[trigger] text@[i] < max + 1 by {}
        lemma_count_less_all(text@, (max + 1) as u64);
    }
    occs
}

/// Position `i` of `t` is S-type: it is the last position, or its symbol
/// is smaller than the next one, or equal to the next one where that is an
/// S-type position other than the last.
pub open spec fn s_type(t: Seq<u64>, i: int) -> bool
    decreases t.len() - i,
{
    if i < 0 || i >= t.len() {
        false
    } else if i == t.len() - 1 {
        true
    } else {
        t[i] < t[i + 1] || (t[i] == t[i + 1] && i + 1 < t.len() - 1 && s_type(t, i + 1))
    }
}

/// The leftmost S-type positions `j` of `t` with `lo <= j <= hi` (an S-type
/// position after an L-type one), highest first.
pub open spec fn lms_between(t: Seq<u64>, lo: int, hi: int) -> Seq<usize>
    decreases hi - lo + 1,
{
    if lo > hi || lo < 1 {
        Seq::empty()
    } else {
        let rest = lms_between(t, lo + 1, hi);
        if s_type(t, lo) && !s_type(t, lo - 1) {
            rest.push(lo as usize)
        } else {
            rest
        }
    }
}

/// The type of each position of `text` (S-type: set, L-type: clear) and
/// the leftmost S-type (LMS) positions from right to left, the last
/// position first.
pub fn get_types(text: &Vec<u64>) -> (r: (BitVec, Vec<usize>))
    requires
        text.len() >= 1,
    ensures
        bit_vec_bits(r.0).len() == text.len(),
        forall|i: int| 0 <= i < text.len() ==> bit_vec_bits(r.0)[i] == #[trigger] s_type(text@, i),
        text.len() == 1 ==> r.1@ == Seq::<usize>::empty(),
        text.len() >= 2 ==> r.1@ == seq![(text.len() - 1) as usize] + lms_between(text@, 1, text.len() - 2),
        r.1.len() <= text.len(),
        forall|k: int| 0 <= k < r.1.len() ==> #[trigger] r.1[k] < text.len(),
{
    let n = text.len();
    let mut types = bit_vec_from_zeros(n);
    bit_vec_set(&mut types, n - 1, 1);
    if n == 1 {
        return (types, Vec::new());
    }
    let mut lms: Vec<usize> = Vec::new();
    lms.push(n - 1);
    let mut prev_is_s_type = false;
    let mut i = n - 1;
    proof {
        assert(lms@ =~= seq![(n - 1) as usize] + lms_between(text@, n as int, n - 2));
    }
    while i > 0
        invariant
            n == text.len(),
            n >= 2,
            i <= n - 1,
            bit_vec_bits(types).len() == n,
            forall|k: int| i <= k < n ==> bit_vec_bits(types)[k] == #[trigger] s_type(text@, k),
            forall|k: int| 0 <= k < i ==> !#[trigger] bit_vec_bits(types)[k],
            prev_is_s_type == (i < n - 1 && s_type(text@, i as int)),
            lms@ == seq![(n - 1) as usize] + lms_between(text@, i + 1, n - 2),
            lms.len() + i <= n,
            forall|k: int| 0 <= k < lms.len() ==> #[trigger] lms[k] < n,
        decreases i,
    {
        i = i - 1;
        // text[i] is S-type if it is smaller than text[i + 1], or equal to
        // it while text[i + 1] is S-type; otherwise it is L-type.
        let is_s_type = text[i] < text[i + 1] || (text[i] == text[i + 1] && prev_is_s_type);
        proof {
            assert(is_s_type == s_type(text@, i as int));
        }
        let ghost before = lms@;
        if is_s_type {
            bit_vec_set(&mut types, i, 1);
        } else if prev_is_s_type {
            // text[i + 1] is S-type after an L-type: a leftmost S-type.
            lms.push(i + 1);
        }
        proof {
            if i + 1 <= n - 2 {
                assert(lms_between(text@, i + 1, n - 2) == {
                    let rest = lms_between(text@, i + 2, n - 2);
                    if s_type(text@, i + 1) && !s_type(text@, i as int) {
                        rest.push((i + 1) as usize)
                    } else {
                        rest
                    }
                });
            }
            assert(lms@ =~= seq![(n - 1) as usize] + lms_between(text@, i + 1, n - 2));
        }
        prev_is_s_type = is_s_type;
    }
    (types, lms)
}

/// The type bit of position `i`: set for an S-type position, clear for an
/// L-type one and out of range.
pub open spec fn type_bit(bits: Seq<bool>, i: int) -> bool {
    0 <= i < bits.len() && bits[i]
}

/// Position `i` is a leftmost S-type position: S-type after an L-type one.
pub open spec fn lms_bit(bits: Seq<bool>, i: int) -> bool {
    0 < i < bits.len() && bits[i] && !bits[i - 1]
}

/// Comparing the LMS substrings at `p` and `q` from offset `d` on, the
/// positions before `d` agreeing: `Some(false)` at the first offset where
/// the symbols or the types differ, `Some(true)` where both reach a leftmost
/// S-type position first, `None` where either runs off the end of the text.
pub open spec fn lms_substrings_from(t: Seq<u64>, bits: Seq<bool>, p: int, q: int, d: int) -> Option<bool>
    decreases t.len() - d,
{
    if p < 0 || q < 0 || d >= t.len() - p || d >= t.len() - q {
        None
    } else if t[p + d] != t[q + d] || type_bit(bits, p + d) != type_bit(bits, q + d) {
        Some(false)
    } else if lms_bit(bits, p + d) && lms_bit(bits, q + d) {
        Some(true)
    } else {
        lms_substrings_from(t, bits, p, q, d + 1)
    }
}

/// Whether the LMS substrings at `p` and `q` are equal: the same symbols
/// and types up to and including the next leftmost S-type positions, which
/// both reach at the same offset (`None` where that is not settled within
/// the text).
pub open spec fn same_lms(t: Seq<u64>, bits: Seq<bool>, p: int, q: int) -> Option<bool> {
    if !(t[p] == t[q] && type_bit(bits, p) == type_bit(bits, q)) {
        Some(false)
    } else {
        lms_substrings_from(t, bits, p, q, 1)
    }
}

/// Position `i` is a leftmost S-type position.
fn is_lms(types: &BitVec, i: usize) -> (r: bool)
    ensures
        r == (i != EMPTY && lms_bit(bit_vec_bits(*types), i as int)),
{
    if i == 0 || i == EMPTY {
        return false;
    }
    match (bit_vec_is_bit_set(types, i), bit_vec_is_bit_set(types, i - 1)) {
        (Some(here), Some(before)) => here && !before,
        _ => false,
    }
}

/// The type bit of position `i` (clear when out of range).
fn type_at(types: &BitVec, i: usize) -> (r: bool)
    ensures
        r == type_bit(bit_vec_bits(*types), i as int),
{
    match bit_vec_is_bit_set(types, i) {
        Some(b) => b,
        None => false,
    }
}

/// Induce the order of the L-type positions from the sorted LMS positions
/// (left to right), then that of the S-type positions (right to left).
fn induced_sort(text: &Vec<u64>, types: &BitVec, occs: &Vec<usize>, sa: &mut Vec<usize>) -> (ok: bool)
    requires
        text.len() <= old(sa).len(),
        prefix_sum(occs@, occs.len() as int) <= usize::MAX,
    ensures
        final(sa).len() == old(sa).len(),
{
    let n = text.len();
    let m = occs.len();
    let mut bucket_start_pos = get_bucket_start_pos(occs.as_slice());
    let mut i: usize = 0;
    while i < n
        invariant
            n == text.len(),
            n <= old(sa).len(),
            sa.len() == old(sa).len(),
            bucket_start_pos.len() == m,
        decreases n - i,
    {
        let j = sa[i];
        if 0 < j && j <= n && !type_at(types, j - 1) {
            let c = text[j - 1];
            if c >= m as u64 {
                return false;
            }
            let p = bucket_start_pos[c as usize];
            if p >= n {
                return false;
            }
            sa.set(p, j - 1);
            bucket_start_pos.set(c as usize, p + 1);
        }
        i = i + 1;
    }
    let mut bucket_end_pos = get_bucket_end_pos(occs.as_slice());
    let mut i = n;
    while i > 0
        invariant
            n == text.len(),
            n <= old(sa).len(),
            sa.len() == old(sa).len(),
            i <= n,
            bucket_end_pos.len() == m,
        decreases i,
    {
        i = i - 1;
        let j = sa[i];
        if 0 < j && j <= n && type_at(types, j - 1) {
            let c = text[j - 1];
            if c >= m as u64 {
                return false;
            }
            let e = bucket_end_pos[c as usize];
            if e == 0 || e > n {
                return false;
            }
            let p = e - 1;
            sa.set(p, j - 1);
            bucket_end_pos.set(c as usize, p);
        }
    }
    true
}

/// Whether the LMS substrings starting at `p` and `q` are equal (same
/// symbols and types up to and including the next LMS positions).
fn same_lms_substring(text: &Vec<u64>, types: &BitVec, p: usize, q: usize) -> (r: Option<bool>)
    requires
        p < text.len(),
        q < text.len(),
    ensures
        r == same_lms(text@, bit_vec_bits(*types), p as int, q as int),
{
    let n = text.len();
    if !(text[p] == text[q] && type_at(types, p) == type_at(types, q)) {
        return Some(false);
    }
    let mut d: usize = 1;
    loop
        invariant
            n == text.len(),
            p < n,
            q < n,
            1 <= d <= n,
            lms_substrings_from(text@, bit_vec_bits(*types), p as int, q as int, d as int)
                == lms_substrings_from(text@, bit_vec_bits(*types), p as int, q as int, 1),
            same_lms(text@, bit_vec_bits(*types), p as int, q as int)
                == lms_substrings_from(text@, bit_vec_bits(*types), p as int, q as int, 1),
        decreases n - d,
    {
        if d >= n - p || d >= n - q {
            return None;
        }
        if text[p + d] != text[q + d] || type_at(types, p + d) != type_at(types, q + d) {
            return Some(false);
        }
        if is_lms(types, p + d) && is_lms(types, q + d) {
            return Some(true);
        }
        d = d + 1;
    }
}

/// Sort the suffixes of `text`, whose symbols are at most `max`, into the
/// first `text.len()` slots of `sa`, using the first `w` slots as working
/// space. Reports failure instead of leaving the working space; on success
/// the slots hold the suffix array, which is checked (in linear time)
/// before success is reported.
fn sais_sub(text: &Vec<u64>, max: u64, sa: &mut Vec<usize>, w: usize) -> (ok: bool)
    requires
        1 <= text.len() <= w <= old(sa).len(),
        max < usize::MAX,
    ensures
        final(sa).len() == old(sa).len(),
        ok ==> is_suffix_array(text@, final(sa)@.take(text.len() as int)),
    decreases text.len(),
{
    let n = text.len();
    if !within_alphabet(text, max) {
        return false;
    }
    let (types, lms) = get_types(text);
    let lms_len = lms.len();
    let occs = symbol_counts(text, max);

    // Step 1: put the LMS positions at the ends of their buckets.
    let mut bucket_end_pos = get_bucket_end_pos(occs.as_slice());
    let mut idx = lms_len;
    while idx > 0
        invariant
            n == text.len(),
            n <= w <= old(sa).len(),
            sa.len() == old(sa).len(),
            idx <= lms.len(),
            lms.len() <= n,
            forall|k: int| 0 <= k < lms.len() ==> #[trigger] lms[k] < n,
            forall|k: int| 0 <= k < n ==> #[trigger] text[k] <= max,
            bucket_end_pos.len() == max + 1,
        decreases idx,
    {
        idx = idx - 1;
        let i = lms[idx];
        let c = text[i] as usize;
        let e = bucket_end_pos[c];
        if e == 0 || e > n {
            return false;
        }
        let k = e - 1;
        sa.set(k, i);
        bucket_end_pos.set(c, k);
    }

    // Steps 2 and 3: induce the order of the L-type and S-type positions.
    if !induced_sort(text, &types, &occs, sa) {
        return false;
    }

    // Move all sorted LMS substrings into the first slots of `sa`.
    let mut k: usize = 0;
    let mut i: usize = 0;
    while i < n && k < lms_len
        invariant
            n <= w <= old(sa).len(),
            sa.len() == old(sa).len(),
            lms_len <= n,
            k <= i,
        decreases n - i,
    {
        let p = sa[i];
        if is_lms(&types, p) {
            sa.set(k, p);
            k = k + 1;
        }
        i = i + 1;
    }

    // Name the LMS substrings in sorted order: equal substrings get equal
    // names. The name of the substring at position q goes to slot
    // lms_len + q / 2 (the slots after the first lms_len are free).
    if lms_len == 0 {
        return false;
    }
    let mut x = lms_len;
    while x < w
        invariant
            lms_len <= x <= w,
            w <= old(sa).len(),
            sa.len() == old(sa).len(),
        decreases w - x,
    {
        sa.set(x, EMPTY);
        x = x + 1;
    }
    let mut name: usize = 1;
    let first = sa[0];
    if first >= n || first / 2 >= w - lms_len {
        return false;
    }
    // the sentinel
    sa.set(lms_len + first / 2, 0);
    if lms_len >= 2 {
        let second = sa[1];
        if second >= n || second / 2 >= w - lms_len {
            return false;
        }
        // the second least LMS substring
        sa.set(lms_len + second / 2, 1);
        let mut i: usize = 2;
        while i < lms_len
            invariant
                n == text.len(),
                2 <= i <= lms_len,
                lms_len <= n <= w <= old(sa).len(),
                sa.len() == old(sa).len(),
                1 <= name < i,
            decreases lms_len - i,
        {
            let p = sa[i - 1];
            let q = sa[i];
            if p >= n || q >= n || q / 2 >= w - lms_len {
                return false;
            }
            match same_lms_substring(text, &types, p, q) {
                Some(same) => {
                    if !same {
                        name = name + 1;
                    }
                },
                None => {
                    return false;
                },
            }
            sa.set(lms_len + q / 2, name);
            i = i + 1;
        }
    }
    let mut x: usize = 0;
    while x < lms_len
        invariant
            x <= lms_len <= w <= old(sa).len(),
            sa.len() == old(sa).len(),
        decreases lms_len - x,
    {
        sa.set(x, EMPTY);
        x = x + 1;
    }

    // Gather the names, in text order, into the last lms_len slots.
    let mut i = w - 1;
    let mut j: usize = 0;
    while j < lms_len
        invariant
            1 <= lms_len <= n <= w <= old(sa).len(),
            sa.len() == old(sa).len(),
            i < w,
            j <= lms_len,
        decreases i,
    {
        let v = sa[i];
        if v != EMPTY {
            sa.set(w - 1 - j, v);
            j = j + 1;
        }
        if j < lms_len {
            if i == 0 {
                return false;
            }
            i = i - 1;
        } else {
            break;
        }
    }

    // The reduced text: the names of the LMS substrings in text order.
    let w1 = w - lms_len;
    let mut s1: Vec<u64> = Vec::with_capacity(lms_len);
    let mut x = w1;
    while x < w
        invariant
            w1 <= x <= w <= old(sa).len(),
            sa.len() == old(sa).len(),
            s1.len() == x - w1,
        decreases w - x,
    {
        s1.push(sa[x] as u64);
        x = x + 1;
    }
    if name < lms_len {
        // Names are not unique: sort the reduced text recursively into the
        // first slots.
        if !(lms_len < n && lms_len <= w1) {
            return false;
        }
        if !sais_sub(&s1, name as u64, sa, w1) {
            return false;
        }
    } else {
        // Names are unique: the order of the names is the order of the
        // LMS suffixes.
        let mut x: usize = 0;
        while x < lms_len
            invariant
                x <= lms_len,
                s1.len() == lms_len,
                lms_len <= w <= old(sa).len(),
                w1 == w - lms_len,
                sa.len() == old(sa).len(),
            decreases lms_len - x,
        {
            let s = s1[x];
            if s >= lms_len as u64 || s as usize >= w1 {
                return false;
            }
            sa.set(s as usize, x);
            x = x + 1;
        }
    }

    // The LMS positions, in text order, in the last lms_len slots; then
    // the sorted LMS positions in the first slots.
    let mut x: usize = 0;
    while x < lms_len
        invariant
            x <= lms_len,
            lms.len() == lms_len,
            lms_len <= w <= old(sa).len(),
            w1 == w - lms_len,
            sa.len() == old(sa).len(),
        decreases lms_len - x,
    {
        sa.set(w1 + x, lms[lms_len - 1 - x]);
        x = x + 1;
    }
    let mut x: usize = 0;
    while x < lms_len
        invariant
            x <= lms_len,
            lms_len <= w <= old(sa).len(),
            w1 == w - lms_len,
            sa.len() == old(sa).len(),
        decreases lms_len - x,
    {
        let r = sa[x];
        if r >= lms_len {
            return false;
        }
        let p = sa[w1 + r];
        sa.set(x, p);
        x = x + 1;
    }
    let mut x = lms_len;
    while x < w
        invariant
            lms_len <= x <= w <= old(sa).len(),
            sa.len() == old(sa).len(),
        decreases w - x,
    {
        sa.set(x, EMPTY);
        x = x + 1;
    }

    // Put the sorted LMS positions at the ends of their buckets, and induce
    // the order of the others from them.
    let mut bucket_end_pos = get_bucket_end_pos(occs.as_slice());
    let mut i = lms_len;
    while i > 0
        invariant
            n == text.len(),
            i <= lms_len <= n <= w <= old(sa).len(),
            sa.len() == old(sa).len(),
            forall|k: int| 0 <= k < n ==> #[trigger] text[k] <= max,
            bucket_end_pos.len() == max + 1,
        decreases i,
    {
        i = i - 1;
        let j = sa[i];
        sa.set(i, EMPTY);
        let c = if j == n {
            0
        } else if j < n {
            text[j] as usize
        } else {
            return false;
        };
        let e = bucket_end_pos[c];
        if e == 0 || e > n {
            return false;
        }
        let k = e - 1;
        sa.set(k, j);
        bucket_end_pos.set(c, k);
    }
    if !induced_sort(text, &types, &occs, sa) {
        return false;
    }
    check_suffix_array_prefix(text, sa)
}

/// Sort the suffixes of `text`, whose symbols are at most `max`, with
/// SA-IS. Gives nothing when the algorithm had to give up; what it gives is
/// the suffix array.
pub fn sais_codes(text: &Vec<u64>, max: u64) -> (r: Option<Vec<usize>>)
    requires
        max < usize::MAX,
    ensures
        r matches Some(sa) ==> is_suffix_array(text@, sa@),
        text.len() <= 1 ==> r is Some,
{
    let n = text.len();
    if n == 0 {
        return Some(Vec::new());
    }
    if n == 1 {
        let sa = vec![0];
        proof {
            assert(sa@.len() == 1 && sa@[0] == 0);
        }
        return Some(sa);
    }
    let mut sa: Vec<usize> = vec![EMPTY; n];
    if sais_sub(text, max, &mut sa, n) {
        proof {
            assert(sa@.take(n as int) =~= sa@);
        }
        Some(sa)
    } else {
        None
    }
}

/// The suffix array of `text`, whose symbols are at most `max`.
///
/// It is built with SA-IS, whose result is checked; should SA-IS give up,
/// it is built by sorting the suffixes instead.
pub fn sais(text: &Vec<u64>, max: u64) -> (sa: Vec<usize>)
    requires
        max < usize::MAX,
    ensures
        is_suffix_array(text@, sa@),
{
    match sais_codes(text, max) {
        Some(sa) => sa,
        None => sort_suffixes(text),
    }
}

} // verus!
