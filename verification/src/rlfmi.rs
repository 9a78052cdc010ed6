//! The run-length FM-index: the Burrows-Wheeler transform stored as its
//! runs of equal characters.
use vstd::prelude::*;
use std::marker::PhantomData;
use vers_vecs::{BitVec, RsVec, WaveletMatrix};
use crate::backend::{HasPosition, HeapSize, SearchIndexBackend, SuffixArraySample};
use crate::character::Character;
use crate::counting::{lemma_rank_bound, lemma_rank_step};
use crate::error::Error;
use crate::fm_index::{lemma_bwt_bounded, wavelet_of};
use crate::model::{count_less, is_suffix_array, occ, prefix_sum, rank, valid_text};
use crate::runs::{
    head_flags, is_head, lemma_next_occurrence, lemma_prefix_sum_element, lemma_prefix_sum_push,
    lemma_prefix_sum_update, lemma_rank1_after, lemma_rank1_all, lemma_rank1_below_count,
    lemma_rank1_monotone, lemma_rank1_push, lemma_rank1_step, lemma_rank1_unique, lemma_rank_below_occ,
    lemma_rank_flat, lemma_rank_monotone, lemma_rank_push, lemma_rank_unique, lemma_row_char,
    lemma_run_span, lemma_run_start, lemma_select1_exists, lemma_select_exists,
};
use crate::sais::sais;
use crate::sample::SuffixOrderSampledArray;
use crate::succinct::{
    bit_vec_append, bit_vec_bits, bit_vec_new, count_ones, fits, rank1, rs_bits, rs_from_bit_vec,
    rs_heap_bytes, rs_heap_size, rs_rank1, rs_select1, vec_capacity, vec_capacity_bound, wavelet_contents, wavelet_heap_bytes, wavelet_get,
    wavelet_heap_size, wavelet_rank, wavelet_select, wavelet_width,
};
use crate::suffix_array::check_text;
use crate::text::Text;
use crate::theory::{
    bwt, lemma_bwt_occ, lemma_count_less_all, lemma_count_less_monotone, lemma_count_less_step,
    lemma_count_less_zero, lemma_first_column, lemma_first_row, lemma_le_step, lemma_lf_nonzero,
    lemma_lf_zero_single, lemma_lt_step,
};
use crate::util::{bytes_of, floor_log2, lemma_below_pow2_log2, sat_add, sat_mul};

verus! {

/// A Run-Length FM-index.
///
/// This can be more space-efficient than the FM-index, but is slower.
pub struct RLFMIndexBackend<C, S> {
    suffix_array: S,
    // the character of each run of the transform
    s: WaveletMatrix,
    // the rows of the transform that start a run
    b: RsVec,
    // the rows of the first column that start a run, runs ordered by character
    bp: RsVec,
    // the number of runs of each smaller character
    cs: Vec<usize>,
    len: usize,
    text: Ghost<Seq<u64>>,
    sa: Ghost<Seq<usize>>,
    _c: PhantomData<C>,
}

/// The row of the first column that the character of row `k` of `l` goes
/// to: after all smaller characters and the earlier occurrences of its own.
pub open spec fn lf_row(t: Seq<u64>, l: Seq<u64>, k: int) -> int {
    (count_less(t, l[k]) + rank(l, l[k], k)) as int
}

/// The state of the scan of the first `k` rows of `l`: `s` holds the
/// character of each run started so far, and `rbc[c]` the lengths of the
/// runs of `c`, in order.
pub open spec fn runs_scanned(l: Seq<u64>, k: int, s: Seq<u64>, rbc: Seq<Seq<usize>>, m: int) -> bool {
    let hb = head_flags(l);
    &&& 0 < m <= u64::MAX
    &&& s.len() == rank1(hb, k)
    &&& forall|x: int| 0 <= x < k && #[trigger] is_head(l, x) ==> s[rank1(hb, x) as int] == l[x]
    &&& forall|r: int| 0 <= r < s.len() ==> #[trigger] s[r] < m
    &&& rbc.len() == m
    &&& forall|c: int| 0 <= c < m ==> (#[trigger] rbc[c]).len() == occ(s, c as u64)
    &&& forall|c: int| 0 <= c < m ==> prefix_sum(#[trigger] rbc[c], rbc[c].len() as int) == rank(l, c as u64, k)
    &&& forall|c: int, y: int| 0 <= c < m && 0 <= y < rbc[c].len() ==> #[trigger] rbc[c][y] >= 1
    &&& forall|x: int|
        0 <= x < k && #[trigger] is_head(l, x) ==> prefix_sum(
            rbc[l[x] as int],
            rank(s, l[x], rank1(hb, x) as int) as int,
        ) == rank(l, l[x], x)
}

/// Scanning a row that starts a run records a run of length one.
proof fn lemma_scan_head(l: Seq<u64>, k: int, s: Seq<u64>, rbc: Seq<Seq<usize>>, m: int)
    requires
        runs_scanned(l, k, s, rbc, m),
        0 <= k < l.len(),
        is_head(l, k),
        forall|i: int| 0 <= i < l.len() ==> #[trigger] l[i] < m,
    ensures
        runs_scanned(l, k + 1, s.push(l[k]), rbc.update(l[k] as int, rbc[l[k] as int].push(1)), m),
{
    let hb = head_flags(l);
    let c = l[k];
    let s2 = s.push(c);
    let rbc2 = rbc.update(c as int, rbc[c as int].push(1));
    lemma_rank1_step(hb, k);
    lemma_rank_push(s, c);
    assert(s.take(s.len() as int) =~= s);
    assert forall|x: int| 0 <= x < k + 1 && #[trigger] is_head(l, x) implies s2[rank1(hb, x) as int] == l[x] by {
        if x < k {
            lemma_rank1_monotone(hb, x + 1, k);
            lemma_rank1_step(hb, x);
        }
    }
    assert forall|cc: int| 0 <= cc < m implies prefix_sum(#[trigger] rbc2[cc], rbc2[cc].len() as int) == rank(
        l,
        cc as u64,
        k + 1,
    ) by {
        lemma_rank_step(l, cc as u64, k);
        if cc == c {
            lemma_prefix_sum_push(rbc[cc], 1, rbc[cc].len() as int);
        }
    }
    assert forall|x: int|
        0 <= x < k + 1 && #[trigger] is_head(l, x) implies prefix_sum(
        rbc2[l[x] as int],
        rank(s2, l[x], rank1(hb, x) as int) as int,
    ) == rank(l, l[x], x) by {
        if x < k {
            lemma_rank1_monotone(hb, x + 1, k);
            lemma_rank1_step(hb, x);
            lemma_rank_bound(s, l[x], rank1(hb, x) as int);
            if l[x] == c {
                lemma_prefix_sum_push(rbc[c as int], 1, rank(s, c, rank1(hb, x) as int) as int);
            }
        } else {
            lemma_prefix_sum_push(rbc[c as int], 1, rbc[c as int].len() as int);
        }
    }
}

/// Scanning a row that continues a run makes the last run one longer.
proof fn lemma_scan_continue(l: Seq<u64>, k: int, s: Seq<u64>, rbc: Seq<Seq<usize>>, m: int)
    requires
        runs_scanned(l, k, s, rbc, m),
        0 < k < l.len(),
        l.len() <= usize::MAX,
        !is_head(l, k),
        s.len() > 0,
        s[s.len() - 1] == l[k],
        forall|i: int| 0 <= i < l.len() ==> #[trigger] l[i] < m,
    ensures
        rbc[l[k] as int].len() >= 1,
        rbc[l[k] as int][rbc[l[k] as int].len() - 1] <= k,
        runs_scanned(
            l,
            k + 1,
            s,
            rbc.update(
                l[k] as int,
                rbc[l[k] as int].update(
                    rbc[l[k] as int].len() - 1,
                    (rbc[l[k] as int][rbc[l[k] as int].len() - 1] + 1) as usize,
                ),
            ),
            m,
        ),
{
    let hb = head_flags(l);
    let c = l[k];
    let v = rbc[c as int];
    let last = v.len() - 1;
    lemma_rank_below_occ(s, c, s.len() - 1);
    lemma_prefix_sum_element(v, last, v.len() as int);
    lemma_rank_bound(l, c, k);
    let v2 = v.update(last, (v[last] + 1) as usize);
    let rbc2 = rbc.update(c as int, v2);
    lemma_rank1_step(hb, k);
    lemma_prefix_sum_update(v, last, (v[last] + 1) as usize, last);
    assert forall|cc: int| 0 <= cc < m implies prefix_sum(#[trigger] rbc2[cc], rbc2[cc].len() as int) == rank(
        l,
        cc as u64,
        k + 1,
    ) by {
        lemma_rank_step(l, cc as u64, k);
    }
    assert forall|x: int|
        0 <= x < k + 1 && #[trigger] is_head(l, x) implies prefix_sum(
        rbc2[l[x] as int],
        rank(s, l[x], rank1(hb, x) as int) as int,
    ) == rank(l, l[x], x) by {
        if x < k && l[x] == c {
            lemma_rank1_below_count(hb, x);
            lemma_rank1_monotone(hb, x + 1, k);
            lemma_rank_below_occ(s, c, rank1(hb, x) as int);
            lemma_prefix_sum_update(v, last, (v[last] + 1) as usize, rank(s, c, rank1(hb, x) as int) as int);
        }
    }
}


/// The lengths of the runs of each character, as sequences.
pub open spec fn lengths(v: Seq<Vec<usize>>) -> Seq<Seq<usize>> {
    v.map_values(|x: Vec<usize>| x@)
}

/// The runs of the transform of `codes`: the character of each run, the
/// run-start flags, and the lengths of the runs of each character.
fn scan_runs(codes: &Vec<u64>, sa: &Vec<usize>, max: u64) -> (r: (Vec<u64>, BitVec, Vec<Vec<usize>>))
    requires
        valid_text(codes@),
        is_suffix_array(codes@, sa@),
        2 <= codes.len() <= usize::MAX / 64,
        max < usize::MAX,
        forall|i: int| 0 <= i < codes.len() ==> #[trigger] codes[i] <= max,
    ensures
        bit_vec_bits(r.1) == head_flags(bwt(codes@, sa@)),
        runs_scanned(bwt(codes@, sa@), codes.len() as int, r.0@, lengths(r.2@), max + 1),
        r.2.len() == max + 1,
{
    let n = codes.len();
    let ghost t = codes@;
    let ghost l = bwt(t, sa@);
    let ghost hb = head_flags(l);
    let m = max as usize + 1;
    let mut runs_by_char: Vec<Vec<usize>> = Vec::new();
    let mut x: usize = 0;
    while x < m
        invariant
            x <= m,
            runs_by_char.len() == x,
            forall|c: int| 0 <= c < x ==> (#[trigger] runs_by_char[c])@ == Seq::<usize>::empty(),
        decreases m - x,
    {
        runs_by_char.push(Vec::new());
        x = x + 1;
    }
    let mut c0: u64 = 0;
    let mut s: Vec<u64> = Vec::new();
    let mut b = bit_vec_new();
    proof {
        lemma_bwt_bounded(t, sa@, max);
        lemma_first_row(t, sa@);
        assert(l[0] != 0);
        assert(hb.take(0) =~= Seq::<bool>::empty());
        assert(l.take(0) =~= Seq::<u64>::empty());
        assert forall|c: int| 0 <= c < m implies (#[trigger] lengths(runs_by_char@)[c]).len() == occ(s@, c as u64)
            && prefix_sum(lengths(runs_by_char@)[c], lengths(runs_by_char@)[c].len() as int) == rank(l, c as u64, 0) by {
            assert(runs_by_char[c]@ == Seq::<usize>::empty());
        }
    }
    let mut k: usize = 0;
    while k < n
        invariant
            n == codes.len(),
            t == codes@,
            l == bwt(t, sa@),
            hb == head_flags(l),
            valid_text(t),
            is_suffix_array(t, sa@),
            n <= usize::MAX / 64,
            m == max + 1,
            k <= n,
            forall|i: int| 0 <= i < n ==> #[trigger] l[i] < m,
            l[0] != 0,
            bit_vec_bits(b) == hb.take(k as int),
            runs_scanned(l, k as int, s@, lengths(runs_by_char@), m as int),
            runs_by_char.len() == m,
            k > 0 ==> c0 == l[k - 1] && s@.len() > 0 && s@[s@.len() - 1] == l[k - 1],
            k == 0 ==> c0 == 0,
        decreases n - k,
    {
        let p = sa[k];
        let c = if p > 0 {
            codes[p - 1]
        } else {
            codes[n - 1]
        };
        let ghost old_rbc = lengths(runs_by_char@);
        let ghost old_s = s@;
        assert(c == l[k as int]);
        // The first row starts a run: the character before the last suffix
        // is not zero, as zeros never follow each other.
        if c0 != c {
            proof {
                lemma_scan_head(l, k as int, s@, old_rbc, m as int);
            }
            s.push(c);
            bit_vec_append(&mut b, true);
            let mut rs: Vec<usize> = Vec::new();
            runs_by_char.set_and_swap(c as usize, &mut rs);
            rs.push(1);
            runs_by_char.set_and_swap(c as usize, &mut rs);
            proof {
                assert(lengths(runs_by_char@) =~= old_rbc.update(c as int, old_rbc[c as int].push(1)));
            }
        } else {
            proof {
                lemma_scan_continue(l, k as int, s@, old_rbc, m as int);
            }
            bit_vec_append(&mut b, false);
            let mut rs: Vec<usize> = Vec::new();
            runs_by_char.set_and_swap(c as usize, &mut rs);
            let last = rs.len() - 1;
            let v = rs[last];
            rs.set(last, v + 1);
            runs_by_char.set_and_swap(c as usize, &mut rs);
            proof {
                assert(lengths(runs_by_char@) =~= old_rbc.update(
                    c as int,
                    old_rbc[c as int].update(last as int, (v + 1) as usize),
                ));
            }
        }
        proof {
            assert(bit_vec_bits(b) =~= hb.take(k + 1));
        }
        c0 = c;
        k = k + 1;
    }
    proof {
        assert(hb.take(n as int) =~= hb);
    }
    (s, b, runs_by_char)
}


/// Where the `z`-th run of character `c` starts in the first column:
/// after all smaller characters and the earlier runs of `c`.
pub open spec fn f_start(t: Seq<u64>, rbc: Seq<Seq<usize>>, c: int, z: int) -> int {
    (count_less(t, c as u64) + prefix_sum(rbc[c], z)) as int
}

/// The runs laid out so far: all runs of the characters below `ch`, and
/// the first `y` runs of `ch`.
pub open spec fn laid_out(rbc: Seq<Seq<usize>>, ch: int, y: int, c: int, z: int) -> bool {
    ||| (0 <= c < ch && 0 <= z < rbc[c].len())
    ||| (c == ch && 0 <= z < y)
}

/// The first-column bits `fb` mark the starts of the runs laid out, and
/// nothing else; the start of each has as many marks before it as runs of
/// smaller characters and earlier runs of its own character were laid out.
pub open spec fn layout_ok(t: Seq<u64>, s: Seq<u64>, rbc: Seq<Seq<usize>>, ch: int, y: int, fb: Seq<bool>) -> bool {
    &&& forall|c: int, z: int|
        #[trigger] laid_out(rbc, ch, y, c, z) ==> {
            &&& 0 <= f_start(t, rbc, c, z) < fb.len()
            &&& fb[f_start(t, rbc, c, z)]
            &&& rank1(fb, f_start(t, rbc, c, z)) == count_less(s, c as u64) + z
        }
    &&& forall|x: int|
        0 <= x < fb.len() && #[trigger] fb[x] ==> exists|c: int, z: int|
            #[trigger] laid_out(rbc, ch, y, c, z) && x == f_start(t, rbc, c, z)
}

/// Laying out the start of the next run.
proof fn lemma_layout_start(t: Seq<u64>, s: Seq<u64>, rbc: Seq<Seq<usize>>, ch: int, y: int, fb: Seq<bool>)
    requires
        layout_ok(t, s, rbc, ch, y, fb),
        0 <= ch < rbc.len(),
        0 <= y < rbc[ch].len(),
        fb.len() == f_start(t, rbc, ch, y),
        count_ones(fb) == count_less(s, ch as u64) + y,
    ensures
        layout_ok(t, s, rbc, ch, y + 1, fb.push(true)),
{
    let fb2 = fb.push(true);
    lemma_rank1_push(fb, true);
    lemma_rank1_all(fb);
    assert forall|c: int, z: int| #[trigger] laid_out(rbc, ch, y + 1, c, z) implies {
        &&& 0 <= f_start(t, rbc, c, z) < fb2.len()
        &&& fb2[f_start(t, rbc, c, z)]
        &&& rank1(fb2, f_start(t, rbc, c, z)) == count_less(s, c as u64) + z
    } by {
        if !(c == ch && z == y) {
            assert(laid_out(rbc, ch, y, c, z));
        }
    }
    assert forall|x: int| 0 <= x < fb2.len() && #[trigger] fb2[x] implies exists|c: int, z: int|
        #[trigger] laid_out(rbc, ch, y + 1, c, z) && x == f_start(t, rbc, c, z) by {
        if x < fb.len() {
            assert(fb[x]);
            let (c, z) = choose|c: int, z: int| #[trigger] laid_out(rbc, ch, y, c, z) && x == f_start(t, rbc, c, z);
            assert(laid_out(rbc, ch, y + 1, c, z));
        } else {
            assert(laid_out(rbc, ch, y + 1, ch, y));
        }
    }
}

/// Laying out a further row of a run.
proof fn lemma_layout_rest(t: Seq<u64>, s: Seq<u64>, rbc: Seq<Seq<usize>>, ch: int, y: int, fb: Seq<bool>)
    requires
        layout_ok(t, s, rbc, ch, y, fb),
    ensures
        layout_ok(t, s, rbc, ch, y, fb.push(false)),
{
    let fb2 = fb.push(false);
    lemma_rank1_push(fb, false);
    assert forall|x: int| 0 <= x < fb2.len() && #[trigger] fb2[x] implies exists|c: int, z: int|
        #[trigger] laid_out(rbc, ch, y, c, z) && x == f_start(t, rbc, c, z) by {
        assert(fb[x]);
    }
}

/// Once all runs of `ch` are laid out, the next character begins.
proof fn lemma_layout_next(t: Seq<u64>, s: Seq<u64>, rbc: Seq<Seq<usize>>, ch: int, fb: Seq<bool>)
    requires
        layout_ok(t, s, rbc, ch, rbc[ch].len() as int, fb),
        0 <= ch < rbc.len(),
    ensures
        layout_ok(t, s, rbc, ch + 1, 0, fb),
{
    let y = rbc[ch].len() as int;
    assert forall|c: int, z: int| #[trigger] laid_out(rbc, ch + 1, 0, c, z) implies {
        &&& 0 <= f_start(t, rbc, c, z) < fb.len()
        &&& fb[f_start(t, rbc, c, z)]
        &&& rank1(fb, f_start(t, rbc, c, z)) == count_less(s, c as u64) + z
    } by {
        assert(laid_out(rbc, ch, y, c, z));
    }
    assert forall|x: int| 0 <= x < fb.len() && #[trigger] fb[x] implies exists|c: int, z: int|
        #[trigger] laid_out(rbc, ch + 1, 0, c, z) && x == f_start(t, rbc, c, z) by {
        let (c, z) = choose|c: int, z: int| #[trigger] laid_out(rbc, ch, y, c, z) && x == f_start(t, rbc, c, z);
        assert(laid_out(rbc, ch + 1, 0, c, z));
    }
}

/// Lay out the runs in first-column order: for each character, its runs
/// in text order, each as a set bit followed by a clear bit for each
/// further row. Also gives, for each character, the number of runs of
/// smaller characters.
fn first_column_runs(runs_by_char: &Vec<Vec<usize>>, t: Ghost<Seq<u64>>, s: Ghost<Seq<u64>>) -> (r: (BitVec, Vec<usize>))
    requires
        1 <= runs_by_char.len() <= u64::MAX,
        forall|c: int| 0 <= c < runs_by_char.len() ==> prefix_sum(#[trigger] lengths(runs_by_char@)[c], lengths(runs_by_char@)[c].len() as int) == occ(t@, c as u64),
        forall|c: int| 0 <= c < runs_by_char.len() ==> (#[trigger] lengths(runs_by_char@)[c]).len() == occ(s@, c as u64),
        forall|c: int, y: int| 0 <= c < runs_by_char.len() && 0 <= y < lengths(runs_by_char@)[c].len() ==> #[trigger] lengths(runs_by_char@)[c][y] >= 1,
        count_less(t@, runs_by_char.len() as u64) <= usize::MAX,
        count_less(s@, runs_by_char.len() as u64) <= usize::MAX,
    ensures
        bit_vec_bits(r.0).len() == count_less(t@, runs_by_char.len() as u64),
        count_ones(bit_vec_bits(r.0)) == count_less(s@, runs_by_char.len() as u64),
        r.1.len() == runs_by_char.len(),
        forall|c: int| 0 <= c < r.1.len() ==> #[trigger] r.1[c] == count_less(s@, c as u64),
        layout_ok(t@, s@, lengths(runs_by_char@), runs_by_char.len() as int, 0, bit_vec_bits(r.0)),
{
    let m = runs_by_char.len();
    let ghost rbc = lengths(runs_by_char@);
    let mut bp = bit_vec_new();
    let mut cs: Vec<usize> = Vec::new();
    let mut count: usize = 0;
    proof {
        lemma_count_less_zero(t@);
        lemma_count_less_zero(s@);
        assert(bit_vec_bits(bp).take(0) =~= Seq::<bool>::empty());
    }
    let mut ch: usize = 0;
    while ch < m
        invariant
            m == runs_by_char.len(),
            rbc == lengths(runs_by_char@),
            1 <= m <= u64::MAX,
            ch <= m,
            forall|c: int| 0 <= c < m ==> prefix_sum(#[trigger] rbc[c], rbc[c].len() as int) == occ(t@, c as u64),
            forall|c: int| 0 <= c < m ==> (#[trigger] rbc[c]).len() == occ(s@, c as u64),
            forall|c: int, y: int| 0 <= c < m && 0 <= y < rbc[c].len() ==> #[trigger] rbc[c][y] >= 1,
            count_less(t@, m as u64) <= usize::MAX,
            count_less(s@, m as u64) <= usize::MAX,
            count == count_less(s@, ch as u64),
            cs.len() == ch,
            forall|c: int| 0 <= c < ch ==> #[trigger] cs[c] == count_less(s@, c as u64),
            bit_vec_bits(bp).len() == count_less(t@, ch as u64),
            count_ones(bit_vec_bits(bp)) == count_less(s@, ch as u64),
            layout_ok(t@, s@, rbc, ch as int, 0, bit_vec_bits(bp)),
        decreases m - ch,
    {
        cs.push(count);
        let rs: &Vec<usize> = &runs_by_char[ch];
        proof {
            lemma_count_less_step(s@, ch as u64);
            lemma_count_less_monotone(s@, (ch + 1) as u64, m as u64);
            lemma_count_less_step(t@, ch as u64);
            lemma_count_less_monotone(t@, (ch + 1) as u64, m as u64);
            assert(rs@ == rbc[ch as int]);
        }
        let ghost base_count = count;
        count = count + rs.len();
        let mut y: usize = 0;
        while y < rs.len()
            invariant
                m == runs_by_char.len(),
                rbc == lengths(runs_by_char@),
                ch < m,
                rs@ == rbc[ch as int],
                y <= rs.len(),
                forall|z: int| 0 <= z < rs.len() ==> #[trigger] rs[z] >= 1,
                prefix_sum(rbc[ch as int], rs.len() as int) == occ(t@, ch as u64),
                count_less(t@, ch as u64) + occ(t@, ch as u64) <= usize::MAX,
                base_count == count_less(s@, ch as u64),
                bit_vec_bits(bp).len() == count_less(t@, ch as u64) + prefix_sum(rbc[ch as int], y as int),
                count_ones(bit_vec_bits(bp)) == base_count + y,
                layout_ok(t@, s@, rbc, ch as int, y as int, bit_vec_bits(bp)),
            decreases rs.len() - y,
        {
            proof {
                lemma_layout_start(t@, s@, rbc, ch as int, y as int, bit_vec_bits(bp));
                lemma_rank1_push(bit_vec_bits(bp), true);
                lemma_prefix_sum_element(rbc[ch as int], y as int, rs.len() as int);
            }
            bit_vec_append(&mut bp, true);
            let r = rs[y];
            let mut z: usize = 1;
            while z < r
                invariant
                    1 <= z <= r,
                    r == rbc[ch as int][y as int],
                    prefix_sum(rbc[ch as int], y as int) + r <= occ(t@, ch as u64),
                    count_less(t@, ch as u64) + occ(t@, ch as u64) <= usize::MAX,
                    bit_vec_bits(bp).len() == count_less(t@, ch as u64) + prefix_sum(rbc[ch as int], y as int) + z,
                    count_ones(bit_vec_bits(bp)) == base_count + y + 1,
                    layout_ok(t@, s@, rbc, ch as int, y + 1, bit_vec_bits(bp)),
                decreases r - z,
            {
                proof {
                    lemma_layout_rest(t@, s@, rbc, ch as int, y + 1, bit_vec_bits(bp));
                    lemma_rank1_push(bit_vec_bits(bp), false);
                }
                bit_vec_append(&mut bp, false);
                z = z + 1;
            }
            y = y + 1;
        }
        proof {
            lemma_layout_next(t@, s@, rbc, ch as int, bit_vec_bits(bp));
        }
        ch = ch + 1;
    }
    (bp, cs)
}


/// The flags `fb` mark, for each run of the transform, the row of the
/// first column its first row goes to, and nothing else; that row has as
/// many marks before it as there are runs of smaller characters and earlier
/// runs of its own character.
#[verifier::opaque]
pub open spec fn marks_run_images(t: Seq<u64>, sa: Seq<usize>, runs: Seq<u64>, fb: Seq<bool>) -> bool {
    let l = bwt(t, sa);
    let hb = head_flags(l);
    &&& forall|k: int|
        0 <= k < l.len() && #[trigger] is_head(l, k) ==> {
            &&& fb[lf_row(t, l, k)]
            &&& rank1(fb, lf_row(t, l, k)) == count_less(runs, l[k]) + rank(runs, l[k], rank1(hb, k) as int)
        }
    &&& forall|x: int|
        0 <= x < fb.len() && #[trigger] fb[x] ==> exists|k: int|
            0 <= k < l.len() && #[trigger] is_head(l, k) && lf_row(t, l, k) == x
}

/// The run-length encoding of the transform of `t` under `sa`: `runs` holds
/// the character of each run, `b` flags the rows that start a run, `fb`
/// flags the rows of the first column that start a run, and `cs` counts the
/// runs of the characters below each.
pub open spec fn encodes_runs(t: Seq<u64>, sa: Seq<usize>, runs: Seq<u64>, b: Seq<bool>, fb: Seq<bool>, cs: Seq<usize>) -> bool {
    let l = bwt(t, sa);
    let hb = head_flags(l);
    &&& b == hb
    &&& runs.len() == count_ones(hb)
    &&& forall|k: int| 0 <= k < l.len() && is_head(l, k) ==> runs[#[trigger] rank1(hb, k) as int] == l[k]
    &&& forall|c: int| 0 <= c < cs.len() ==> #[trigger] cs[c] == count_less(runs, c as u64)
    &&& fb.len() == l.len()
    &&& count_ones(fb) == count_ones(hb)
    &&& marks_run_images(t, sa, runs, fb)
}

/// The scan of the transform and the layout of its runs in the first
/// column give its run-length encoding.
proof fn lemma_encodes_runs(t: Seq<u64>, sa: Seq<usize>, runs: Seq<u64>, b: Seq<bool>, rbc: Seq<Seq<usize>>, fb: Seq<bool>, cs: Seq<usize>, m: int)
    requires
        valid_text(t),
        is_suffix_array(t, sa),
        b == head_flags(bwt(t, sa)),
        runs_scanned(bwt(t, sa), t.len() as int, runs, rbc, m),
        layout_ok(t, runs, rbc, m, 0, fb),
        fb.len() == t.len(),
        count_ones(fb) == runs.len(),
        forall|c: int| 0 <= c < cs.len() ==> #[trigger] cs[c] == count_less(runs, c as u64),
        forall|i: int| 0 <= i < t.len() ==> #[trigger] bwt(t, sa)[i] < m,
    ensures
        encodes_runs(t, sa, runs, b, fb, cs),
{
    reveal(marks_run_images);
    let l = bwt(t, sa);
    let hb = head_flags(l);
    let n = t.len() as int;
    lemma_rank1_all(hb);
    assert(l.take(n) =~= l);
    assert forall|k: int| 0 <= k < l.len() && is_head(l, k) implies runs[#[trigger] rank1(hb, k) as int] == l[k] by {
        assert(is_head(l, k));
    }
    assert forall|k: int| 0 <= k < l.len() && #[trigger] is_head(l, k) implies {
        &&& fb[lf_row(t, l, k)]
        &&& rank1(fb, lf_row(t, l, k)) == count_less(runs, l[k]) + rank(runs, l[k], rank1(hb, k) as int)
    } by {
        let c = l[k];
        let z = rank(runs, c, rank1(hb, k) as int) as int;
        lemma_rank1_below_count(hb, k);
        lemma_rank_below_occ(runs, c, rank1(hb, k) as int);
        assert(laid_out(rbc, m, 0, c as int, z));
    }
    assert forall|x: int| 0 <= x < fb.len() && #[trigger] fb[x] implies exists|k: int|
        0 <= k < l.len() && #[trigger] is_head(l, k) && lf_row(t, l, k) == x by {
        let (c, z) = choose|c: int, z: int| #[trigger] laid_out(rbc, m, 0, c, z) && x == f_start(t, rbc, c, z);
        lemma_select_exists(runs, c as u64, z);
        let r = choose|r: int| 0 <= r < runs.len() && #[trigger] runs[r] == c as u64 && rank(runs, c as u64, r) == z;
        lemma_select1_exists(hb, r);
        let k = choose|k: int| 0 <= k < hb.len() && #[trigger] hb[k] && rank1(hb, k) == r;
        assert(is_head(l, k));
        assert(lf_row(t, l, k) == x);
    }
}


/// Counting the characters below `b` adds, to those below `a`, exactly the
/// characters in `a..b`.
proof fn lemma_count_less_gap(s: Seq<u64>, a: u64, b: u64)
    requires
        a <= b,
    ensures
        count_less(s, a) <= count_less(s, b),
        count_less(s, a) < count_less(s, b) <==> exists|i: int| 0 <= i < s.len() && a <= #[trigger] s[i] < b,
    decreases s.len(),
{
    if s.len() > 0 {
        let p = s.drop_last();
        lemma_count_less_gap(p, a, b);
        if count_less(p, a) < count_less(p, b) {
            let i = choose|i: int| 0 <= i < p.len() && a <= #[trigger] p[i] < b;
            assert(a <= s[i] < b);
        }
        if exists|i: int| 0 <= i < s.len() && a <= #[trigger] s[i] < b {
            let i = choose|i: int| 0 <= i < s.len() && a <= #[trigger] s[i] < b;
            if i < s.len() - 1 {
                assert(a <= p[i] < b);
            }
        }
    }
}

/// At most all elements are below `c`; when all are, each is.
proof fn lemma_count_less_full(s: Seq<u64>, c: u64)
    ensures
        count_less(s, c) <= s.len(),
        count_less(s, c) == s.len() ==> forall|i: int| 0 <= i < s.len() ==> #[trigger] s[i] < c,
    decreases s.len(),
{
    if s.len() > 0 {
        let p = s.drop_last();
        lemma_count_less_full(p, c);
        if count_less(s, c) == s.len() {
            assert forall|i: int| 0 <= i < s.len() implies #[trigger] s[i] < c by {
                if i < s.len() - 1 {
                    assert(p[i] == s[i]);
                }
            }
        }
    }
}

/// The transform holds as many characters below `c` as the text.
proof fn lemma_bwt_count_less(t: Seq<u64>, sa: Seq<usize>, c: int)
    requires
        valid_text(t),
        is_suffix_array(t, sa),
        0 <= c <= u64::MAX,
    ensures
        count_less(bwt(t, sa), c as u64) == count_less(t, c as u64),
    decreases c,
{
    if c == 0 {
        lemma_count_less_zero(t);
        lemma_count_less_zero(bwt(t, sa));
    } else {
        lemma_bwt_count_less(t, sa, c - 1);
        lemma_count_less_step(t, (c - 1) as u64);
        lemma_count_less_step(bwt(t, sa), (c - 1) as u64);
        lemma_bwt_occ(t, sa, (c - 1) as u64);
    }
}

/// The rows from the start `p` of run `j` (or the end) up to the start `h`
/// of run `r` (or the end) hold only characters of the runs `j..r`.
proof fn lemma_rows_between(l: Seq<u64>, runs: Seq<u64>, j: int, p: int, r: int, h: int, y: int)
    requires
        runs.len() == count_ones(head_flags(l)),
        forall|k: int| 0 <= k < l.len() && is_head(l, k) ==> runs[#[trigger] rank1(head_flags(l), k) as int] == l[k],
        0 <= j <= r <= runs.len(),
        (j < runs.len() && 0 <= p < l.len() && is_head(l, p) && rank1(head_flags(l), p) == j) || (j == runs.len()
            && p == l.len()),
        (r < runs.len() && 0 <= h < l.len() && is_head(l, h) && rank1(head_flags(l), h) == r) || (r == runs.len()
            && h == l.len()),
        p <= y < h,
    ensures
        j <= rank1(head_flags(l), y + 1) - 1 < r,
        runs[rank1(head_flags(l), y + 1) - 1] == l[y],
{
    let hb = head_flags(l);
    lemma_row_char(l, runs, y);
    lemma_rank1_all(hb);
    lemma_rank1_below_count(hb, p);
    lemma_rank1_monotone(hb, p + 1, y + 1);
    lemma_rank1_monotone(hb, y + 1, h);
}

/// A run boundary comes before the start of any later run.
proof fn lemma_boundary_order(l: Seq<u64>, j: int, p: int, r: int, h: int)
    requires
        0 <= p < l.len(),
        is_head(l, p),
        rank1(head_flags(l), p) == j,
        0 <= h < l.len(),
        is_head(l, h),
        rank1(head_flags(l), h) == r,
        j <= r,
    ensures
        p <= h,
{
    let hb = head_flags(l);
    if h < p {
        lemma_rank1_below_count(hb, h);
        lemma_rank1_monotone(hb, h + 1, p);
    }
}


/// The first-column row of each transform row lies in the block of its
/// character.
pub(crate) proof fn lemma_lf_row_bound(t: Seq<u64>, sa: Seq<usize>, k: int)
    requires
        valid_text(t),
        is_suffix_array(t, sa),
        0 <= k < t.len(),
        forall|i: int| 0 <= i < t.len() ==> #[trigger] t[i] < u64::MAX,
    ensures
        count_less(t, bwt(t, sa)[k]) <= lf_row(t, bwt(t, sa), k) < count_less(t, bwt(t, sa)[k]) + occ(t, bwt(t, sa)[k]),
        count_less(t, bwt(t, sa)[k]) + occ(t, bwt(t, sa)[k]) <= t.len(),
{
    let l = bwt(t, sa);
    let c = l[k];
    lemma_rank_below_occ(l, c, k);
    lemma_bwt_occ(t, sa, c);
    lemma_count_less_step(t, c);
    lemma_count_less_full(t, (c + 1) as u64);
}

/// The first-column row of a run boundary: for the start `p` of run `j`
/// (or the end of the transform) and a character `c`, the set bit of the
/// first-column flags with as many set bits before it as runs of smaller
/// characters and runs of `c` before run `j` is the row after all smaller
/// characters and the occurrences of `c` before `p` (the end of the column
/// when there is no such bit).
#[verifier::spinoff_prover]
#[verifier::rlimit(40)]
proof fn lemma_boundary(t: Seq<u64>, sa: Seq<usize>, runs: Seq<u64>, b: Seq<bool>, fb: Seq<bool>, cs: Seq<usize>, c: u64, j: int, p: int)
    requires
        valid_text(t),
        is_suffix_array(t, sa),
        encodes_runs(t, sa, runs, b, fb, cs),
        forall|i: int| 0 <= i < t.len() ==> #[trigger] t[i] < u64::MAX,
        c < u64::MAX,
        0 <= j <= runs.len(),
        (j < runs.len() && 0 <= p < t.len() && is_head(bwt(t, sa), p) && rank1(head_flags(bwt(t, sa)), p) == j) || (j
            == runs.len() && p == t.len()),
    ensures
        count_less(runs, c) + rank(runs, c, j) <= count_ones(fb),
        count_less(runs, c) + rank(runs, c, j) < count_ones(fb) ==> forall|x: int|
            0 <= x < fb.len() && #[trigger] fb[x] && rank1(fb, x) == count_less(runs, c) + rank(runs, c, j) ==> x
                == count_less(t, c) + rank(bwt(t, sa), c, p),
        count_less(runs, c) + rank(runs, c, j) >= count_ones(fb) ==> count_less(t, c) + rank(bwt(t, sa), c, p) == t.len(),
{
    reveal(marks_run_images);
    let l = bwt(t, sa);
    let hb = head_flags(l);
    let n = t.len() as int;
    let nr = runs.len() as int;
    let k = count_less(runs, c) + rank(runs, c, j);
    lemma_next_occurrence(runs, c, j);
    lemma_rank1_all(hb);
    lemma_count_less_step(runs, c);
    lemma_count_less_full(runs, (c + 1) as u64);
    if rank(runs, c, j) < occ(runs, c) {
        let r2 = choose|x: int| j <= x < runs.len() && #[trigger] runs[x] == c && rank(runs, c, x) == rank(runs, c, j);
        lemma_select1_exists(hb, r2);
        let h = choose|x: int| 0 <= x < hb.len() && #[trigger] hb[x] && rank1(hb, x) == r2;
        assert(is_head(l, h));
        assert(rank1(fb, lf_row(t, l, h)) == k);
        lemma_lf_row_bound(t, sa, h);
        lemma_rank1_below_count(fb, lf_row(t, l, h));
        lemma_boundary_order(l, j, p, r2, h);
        assert forall|y: int| p <= y < h implies #[trigger] l[y] != c by {
            lemma_rows_between(l, runs, j, p, r2, h, y);
            let ry = rank1(hb, y + 1) - 1;
            if runs[ry] == c {
                lemma_rank_monotone(runs, c, j, ry);
                lemma_rank_below_occ(runs, c, ry);
                lemma_rank_monotone(runs, c, ry + 1, r2);
            }
        }
        lemma_rank_flat(l, c, p, h);
        assert forall|x: int|
            0 <= x < fb.len() && #[trigger] fb[x] && rank1(fb, x) == k implies x == count_less(t, c) + rank(l, c, p) by {
            lemma_rank1_unique(fb, x, lf_row(t, l, h));
        }
    } else {
        assert forall|y: int| p <= y < n implies #[trigger] l[y] != c by {
            lemma_rows_between(l, runs, j, p, nr, n, y);
        }
        lemma_rank_flat(l, c, p, n);
        assert(l.take(n) =~= l);
        lemma_bwt_occ(t, sa, c);
        lemma_count_less_step(t, c);
        if k >= count_ones(fb) {
            assert(count_less(runs, (c + 1) as u64) == runs.len());
            assert forall|y: int| 0 <= y < n implies #[trigger] l[y] < c + 1 by {
                lemma_row_char(l, runs, y);
                lemma_rank1_monotone(hb, y + 1, n);
                assert(runs[rank1(hb, y + 1) - 1] < c + 1);
            }
            lemma_count_less_all(l, (c + 1) as u64);
            lemma_bwt_count_less(t, sa, c + 1);
        } else {
            assert forall|x: int|
                0 <= x < fb.len() && #[trigger] fb[x] && rank1(fb, x) == k implies x == count_less(t, c) + rank(l, c, p) by {
                let h2 = choose|h: int| 0 <= h < l.len() && #[trigger] is_head(l, h) && lf_row(t, l, h) == x;
                let c2 = l[h2];
                let r2 = rank1(hb, h2) as int;
                lemma_rank1_below_count(hb, h2);
                lemma_rank_below_occ(runs, c2, r2);
                lemma_count_less_step(runs, c2);
                if c2 <= c {
                    lemma_count_less_monotone(runs, (c2 + 1) as u64, (c + 1) as u64);
                }
                lemma_count_less_monotone(runs, (c + 1) as u64, c2);
                // no run of c2 comes before run r2, so no c2 comes before h2
                assert forall|y: int| 0 <= y < h2 implies #[trigger] l[y] != c2 by {
                    lemma_row_char(l, runs, y);
                    let ry = rank1(hb, y + 1) - 1;
                    lemma_rank1_monotone(hb, y + 1, h2);
                    if runs[ry] == c2 {
                        lemma_rank_below_occ(runs, c2, ry);
                        lemma_rank_monotone(runs, c2, ry + 1, r2);
                    }
                }
                lemma_rank_flat(l, c2, 0, h2);
                assert(l.take(0) =~= Seq::<u64>::empty());
                // no character between c + 1 and c2 occurs
                lemma_count_less_gap(runs, (c + 1) as u64, c2);
                lemma_count_less_gap(l, (c + 1) as u64, c2);
                if count_less(l, (c + 1) as u64) < count_less(l, c2) {
                    let y = choose|y: int| 0 <= y < l.len() && (c + 1) as u64 <= #[trigger] l[y] < c2;
                    lemma_row_char(l, runs, y);
                    lemma_rank1_monotone(hb, y + 1, n);
                    assert((c + 1) as u64 <= runs[rank1(hb, y + 1) - 1] < c2);
                }
                lemma_bwt_count_less(t, sa, c + 1);
                lemma_bwt_count_less(t, sa, c2 as int);
            }
        }
    }
}


/// The last position of `cs` whose entry is at most `r` (a binary search
/// over entries that are at most `r` up to some position and above it
/// after).
fn last_at_most(cs: &Vec<usize>, r: usize) -> (s: usize)
    requires
        cs.len() >= 1,
        cs[0] <= r,
    ensures
        s < cs.len(),
        cs[s as int] <= r,
        s + 1 < cs.len() ==> cs[s + 1] > r,
{
    let mut s: usize = 0;
    let mut e: usize = cs.len();
    while e - s > 1
        invariant
            s < e <= cs.len(),
            cs[s as int] <= r,
            e < cs.len() ==> cs[e as int] > r,
        decreases e - s,
    {
        let m = s + (e - s) / 2;
        if cs[m] <= r {
            s = m;
        } else {
            e = m;
        }
    }
    s
}


/// The start of run `j`: its first row, or the end of the transform when
/// there is no such run.
pub open spec fn run_start(hb: Seq<bool>, j: int) -> int {
    if 0 <= j < count_ones(hb) {
        choose|q: int| 0 <= q < hb.len() && #[trigger] hb[q] && rank1(hb, q) == j
    } else {
        hb.len() as int
    }
}

proof fn lemma_run_start_of(hb: Seq<bool>, j: int)
    requires
        0 <= j <= count_ones(hb),
    ensures
        j < count_ones(hb) ==> {
            &&& 0 <= run_start(hb, j) < hb.len()
            &&& hb[run_start(hb, j)]
            &&& rank1(hb, run_start(hb, j)) == j
        },
        j == count_ones(hb) ==> run_start(hb, j) == hb.len(),
        forall|q: int|
            (j < count_ones(hb) ==> 0 <= q < hb.len() && hb[q] && rank1(hb, q) == j) && (j >= count_ones(hb) ==> q
                == hb.len()) ==> q == run_start(hb, j),
{
    if j < count_ones(hb) {
        lemma_select1_exists(hb, j);
        assert forall|q: int|
            (j < count_ones(hb) ==> 0 <= q < hb.len() && hb[q] && rank1(hb, q) == j) && (j >= count_ones(hb) ==> q
                == hb.len()) implies q == run_start(hb, j) by {
            lemma_rank1_unique(hb, q, run_start(hb, j));
        }
    }
}

/// The blocks of the first column of different characters do not overlap.
proof fn lemma_block_unique(t: Seq<u64>, c1: u64, c2: u64, i: int)
    requires
        c1 < u64::MAX,
        c2 < u64::MAX,
        count_less(t, c1) <= i < count_less(t, c1) + occ(t, c1),
        count_less(t, c2) <= i < count_less(t, c2) + occ(t, c2),
    ensures
        c1 == c2,
{
    lemma_count_less_step(t, c1);
    lemma_count_less_step(t, c2);
    if c1 < c2 {
        lemma_count_less_monotone(t, (c1 + 1) as u64, c2);
    } else if c2 < c1 {
        lemma_count_less_monotone(t, (c2 + 1) as u64, c1);
    }
}

/// The row LF leads to determines the row it leads from.
pub(crate) proof fn lemma_lf_row_injective(t: Seq<u64>, sa: Seq<usize>, i: int, j: int)
    requires
        valid_text(t),
        is_suffix_array(t, sa),
        forall|k: int| 0 <= k < t.len() ==> #[trigger] t[k] < u64::MAX,
        0 <= i < t.len(),
        0 <= j < t.len(),
        lf_row(t, bwt(t, sa), i) == lf_row(t, bwt(t, sa), j),
    ensures
        i == j,
{
    let l = bwt(t, sa);
    lemma_lf_row_bound(t, sa, i);
    lemma_lf_row_bound(t, sa, j);
    lemma_bwt_occ(t, sa, l[i]);
    assert(l.len() == t.len());
    lemma_bwt_bounded(t, sa, (u64::MAX - 1) as u64);
    lemma_block_unique(t, l[i], l[j], lf_row(t, l, i));
    lemma_rank_unique(l, l[i], i, j);
}

impl<C: Character, S: SuffixArraySample> RLFMIndexBackend<C, S> {
    /// A backward step with any character `c`, the zero included, from row
    /// boundary `i`: past the rows of the suffixes that start below `c`, then
    /// past one row for each `c` in the transform above row `i`.
    pub proof fn lemma_step_rows(&self, c: u64, i: int)
        ensures
            self.lf2_spec(c, i) == count_less(self.text(), c) + rank(bwt(self.text(), self.sa()), c, i),
    {
    }

    /// The shapes of the stored structures.
    proof fn lemma_runs_width(&self)
        requires
            self.wf(),
        ensures
            1 <= wavelet_width(self.s) <= 64,
            wavelet_contents(self.s).len() == count_ones(head_flags(bwt(self.text@, self.sa@))),
            wavelet_contents(self.s).len() <= self.text@.len(),
            rs_bits(self.b).len() == self.text@.len(),
            rs_bits(self.bp).len() == self.text@.len(),
            count_ones(rs_bits(self.bp)) == wavelet_contents(self.s).len(),
            self.text@.len() <= usize::MAX / 64,
            self.text@.len() >= 1,
            forall|i: int| 0 <= i < self.text@.len() ==> #[trigger] self.text@[i] < u64::MAX,
            forall|i: int| 0 <= i < self.text@.len() ==> #[trigger] bwt(self.text@, self.sa@)[i] <= self.max_code(),
            forall|c: int| 0 <= c < self.cs.len() ==> #[trigger] self.cs[c] == count_less(wavelet_contents(self.s), c as u64),
            self.max_code() < usize::MAX,
            self.cs.len() == self.max_code() + 1,
    {
        let l = bwt(self.text@, self.sa@);
        let hb = head_flags(l);
        crate::util::lemma_floor_log2_bound(self.max_code() as nat);
        lemma_rank1_all(hb);
        lemma_rank1_monotone(hb, 0, l.len() as int);
        assert(hb.take(0) =~= Seq::<bool>::empty());
        lemma_bwt_bounded(self.text@, self.sa@, self.max_code());
    }

    /// The runs of `c` before run `j`, with the runs of smaller characters,
    /// are at most all runs.
    proof fn lemma_run_counts(&self, c: u64, j: int)
        requires
            self.wf(),
            c <= self.max_code(),
            0 <= j <= wavelet_contents(self.s).len(),
        ensures
            count_less(wavelet_contents(self.s), c) + rank(wavelet_contents(self.s), c, j) <= wavelet_contents(self.s).len(),
    {
        let runs = wavelet_contents(self.s);
        self.lemma_runs_width();
        lemma_rank_bound(runs, c, j);
        lemma_count_less_step(runs, c);
        lemma_count_less_full(runs, (c + 1) as u64);
    }

    /// The result of a backward step with `c` from row boundary `i`: the
    /// first-column row `base` of the run boundary after row `i - 1`, less
    /// the rows of `c` between `i` and that boundary.
    proof fn lemma_lf_result(&self, c: u64, i: int, base: int)
        requires
            self.wf(),
            c <= self.max_code(),
            0 <= i <= self.text@.len(),
            ({
                let runs = wavelet_contents(self.s);
                let fb = rs_bits(self.bp);
                let k = count_less(runs, c) + rank(runs, c, rank1(rs_bits(self.b), i) as int);
                &&& k < count_ones(fb) ==> 0 <= base < fb.len() && fb[base] && rank1(fb, base) == k
                &&& k >= count_ones(fb) ==> base == fb.len()
            }),
        ensures
            ({
                let l = bwt(self.text@, self.sa@);
                let p = run_start(rs_bits(self.b), rank1(rs_bits(self.b), i) as int);
                &&& base <= self.text@.len()
                &&& 0 <= rank1(rs_bits(self.b), i) <= count_ones(rs_bits(self.b))
                &&& (i < l.len() && l[i] == c) ==> i <= p && base + i - p == self.lf2_spec(c, i)
                &&& !(i < l.len() && l[i] == c) ==> base == self.lf2_spec(c, i)
            }),
    {
        let t = self.text@;
        let sa = self.sa@;
        let l = bwt(t, sa);
        let hb = head_flags(l);
        let runs = wavelet_contents(self.s);
        let fb = rs_bits(self.bp);
        let n = t.len() as int;
        self.lemma_runs_width();
        lemma_rank1_all(hb);
        lemma_rank1_monotone(hb, i, n);
        let j = rank1(hb, i) as int;
        lemma_run_start_of(hb, j);
        let p = run_start(hb, j);
        lemma_boundary(t, sa, runs, rs_bits(self.b), fb, self.cs@, c, j, p);
        assert(base == count_less(t, c) + rank(l, c, p));
        assert(base <= n);
        if i < n {
            if hb[i] {
                lemma_rank1_below_count(hb, i);
                lemma_rank1_unique(hb, i, p);
                assert(p == i);
            } else {
                let h = lemma_run_start(l, i);
                lemma_rank1_step(hb, i);
                assert(h < i);
                assert(rank1(hb, i) == rank1(hb, h + 1));
                if j < count_ones(hb) {
                    lemma_rank1_after(hb, i, p);
                }
                assert(p > i);
                lemma_run_span(l, h, p);
                lemma_run_span(l, h, i);
                assert(l[i] == l[h]);
                assert(rank(l, c, p) == rank(l, c, h) + if c == l[h] { p - h } else { 0 });
                assert(rank(l, c, i) == rank(l, c, h) + if c == l[h] { i - h } else { 0 });
            }
        } else {
            assert(p == n);
        }
    }

    /// Row 0 of the first column starts a run: the run of the transform
    /// holding its first zero goes there.
    proof fn lemma_first_mark(&self, i: int)
        requires
            self.wf(),
            0 <= i < self.text@.len(),
        ensures
            1 <= rank1(rs_bits(self.bp), i + 1) <= count_ones(rs_bits(self.bp)),
    {
        let t = self.text@;
        let sa = self.sa@;
        let l = bwt(t, sa);
        let fb = rs_bits(self.bp);
        let n = t.len() as int;
        self.lemma_runs_width();
        reveal(marks_run_images);
        lemma_rank_below_occ(t, 0, n - 1);
        lemma_bwt_occ(t, sa, 0);
        lemma_next_occurrence(l, 0, 0);
        assert(l.take(0) =~= Seq::<u64>::empty());
        let x0 = choose|x: int| 0 <= x < l.len() && #[trigger] l[x] == 0 && rank(l, 0, x) == rank(l, 0, 0);
        if x0 > 0 && l[x0 - 1] == 0 {
            lemma_rank_below_occ(l, 0, x0 - 1);
        }
        assert(is_head(l, x0));
        lemma_count_less_zero(t);
        assert(lf_row(t, l, x0) == 0);
        lemma_rank1_step(fb, 0);
        lemma_rank1_monotone(fb, 1, i + 1);
        lemma_rank1_monotone(fb, i + 1, n);
        lemma_rank1_all(fb);
    }

    /// The last mark of the first column at or before row `i`: the image of
    /// the run of the transform starting at `h`.
    proof fn lemma_mark_before(&self, i: int) -> (h: int)
        requires
            self.wf(),
            0 <= i < self.text@.len(),
        ensures
            ({
                let t = self.text@;
                let l = bwt(t, self.sa@);
                let hb = head_flags(l);
                let runs = wavelet_contents(self.s);
                let fb = rs_bits(self.bp);
                let x = lf_row(t, l, h);
                &&& 0 <= h < l.len()
                &&& is_head(l, h)
                &&& rank1(fb, i + 1) >= 1
                &&& 0 <= x <= i
                &&& fb[x]
                &&& rank1(fb, x) == rank1(fb, i + 1) - 1
                &&& rank1(fb, x) < count_ones(fb)
                &&& rank1(fb, x) == count_less(runs, l[h]) + rank(runs, l[h], rank1(hb, h) as int)
            }),
    {
        let t = self.text@;
        let sa = self.sa@;
        let l = bwt(t, sa);
        let fb = rs_bits(self.bp);
        let n = t.len() as int;
        self.lemma_runs_width();
        self.lemma_first_mark(i);
        reveal(marks_run_images);
        let r = rank1(fb, i + 1) - 1;
        lemma_select1_exists(fb, r);
        let x = choose|x: int| 0 <= x < fb.len() && #[trigger] fb[x] && rank1(fb, x) == r;
        if x > i {
            lemma_rank1_monotone(fb, i + 1, x);
        }
        let h = choose|k: int| 0 <= k < l.len() && #[trigger] is_head(l, k) && lf_row(t, l, k) == x;
        h
    }

    /// The run of the first column that row `i` lies in: it is the image of
    /// the run of the transform starting at `h`.
    proof fn lemma_first_column_run(&self, i: int) -> (h: int)
        requires
            self.wf(),
            0 <= i < self.text@.len(),
        ensures
            ({
                let t = self.text@;
                let l = bwt(t, self.sa@);
                let hb = head_flags(l);
                let runs = wavelet_contents(self.s);
                let fb = rs_bits(self.bp);
                let x = lf_row(t, l, h);
                &&& 0 <= h < l.len()
                &&& is_head(l, h)
                &&& rank1(fb, i + 1) >= 1
                &&& 0 <= x <= i
                &&& fb[x]
                &&& rank1(fb, x) == rank1(fb, i + 1) - 1
                &&& rank1(fb, x) < count_ones(fb)
                &&& rank1(fb, x) == count_less(runs, l[h]) + rank(runs, l[h], rank1(hb, h) as int)
                &&& rank1(hb, h) < runs.len()
                &&& runs[rank1(hb, h) as int] == l[h]
                &&& rank(runs, l[h], rank1(hb, h) as int) < occ(runs, l[h])
                &&& h + (i - x) < l.len()
                &&& rank1(hb, h + (i - x) + 1) == rank1(hb, h + 1)
                &&& l[h] == t[self.sa@[i] as int]
            }),
    {
        let t = self.text@;
        let sa = self.sa@;
        let l = bwt(t, sa);
        let hb = head_flags(l);
        let runs = wavelet_contents(self.s);
        let fb = rs_bits(self.bp);
        let n = t.len() as int;
        self.lemma_runs_width();
        let h = self.lemma_mark_before(i);
        let x = lf_row(t, l, h);
        let r = rank1(fb, i + 1) - 1;
        let c = l[h];
        let rh = rank1(hb, h) as int;
        lemma_rank1_below_count(hb, h);
        lemma_rank_below_occ(runs, c, rh);
        lemma_rank1_all(hb);
        lemma_run_start_of(hb, rh + 1);
        let p = run_start(hb, rh + 1);
        lemma_boundary(t, sa, runs, rs_bits(self.b), fb, self.cs@, c, rh + 1, p);
        let q = count_less(t, c) + rank(l, c, p);
        if count_less(runs, c) + rank(runs, c, rh + 1) < count_ones(fb) {
            lemma_select1_exists(fb, r + 1);
            let y = choose|y: int| 0 <= y < fb.len() && #[trigger] fb[y] && rank1(fb, y) == r + 1;
            lemma_rank1_after(fb, i, y);
        }
        assert(q > i);
        // the run of h spans the rows h..p
        if p < n {
            lemma_boundary_order(l, rh, h, rh + 1, p);
        }
        lemma_run_span(l, h, p);
        assert(rank(l, c, p) == rank(l, c, h) + (p - h));
        assert(h + (i - x) < p);
        lemma_rank1_monotone(hb, h + 1, h + (i - x) + 1);
        lemma_rank1_monotone(hb, h + (i - x) + 1, p);
        // row i lies in the block of c
        lemma_lf_row_bound(t, sa, h);
        lemma_rank_bound(l, c, p);
        lemma_bwt_occ(t, sa, c);
        lemma_first_column(t, sa, i);
        lemma_block_unique(t, c, t[sa[i] as int], i);
        h
    }

    /// The character search over the run counts finds the character of the
    /// run of the first column.
    proof fn lemma_cs_search(&self, h: int, r: int)
        requires
            self.wf(),
            0 <= h < self.text@.len(),
            is_head(bwt(self.text@, self.sa@), h),
            rank1(head_flags(bwt(self.text@, self.sa@)), h) < wavelet_contents(self.s).len(),
            wavelet_contents(self.s)[rank1(head_flags(bwt(self.text@, self.sa@)), h) as int] == bwt(self.text@, self.sa@)[h],
            r == count_less(wavelet_contents(self.s), bwt(self.text@, self.sa@)[h]) + rank(
                wavelet_contents(self.s),
                bwt(self.text@, self.sa@)[h],
                rank1(head_flags(bwt(self.text@, self.sa@)), h) as int,
            ),
        ensures
            self.cs[0] <= r,
            bwt(self.text@, self.sa@)[h] < self.cs.len(),
            forall|s: int|
                0 <= s < self.cs.len() && #[trigger] self.cs[s] <= r && (s + 1 < self.cs.len() ==> self.cs[s + 1] > r) ==> s
                    == bwt(self.text@, self.sa@)[h],
    {
        let l = bwt(self.text@, self.sa@);
        let runs = wavelet_contents(self.s);
        let c = l[h];
        let rh = rank1(head_flags(l), h) as int;
        self.lemma_runs_width();
        lemma_count_less_zero(runs);
        lemma_rank_below_occ(runs, c, rh);
        lemma_count_less_step(runs, c);
        assert forall|s: int|
            0 <= s < self.cs.len() && #[trigger] self.cs[s] <= r && (s + 1 < self.cs.len() ==> self.cs[s + 1] > r) implies s == c by {
            if s < c {
                lemma_count_less_monotone(runs, (s + 1) as u64, c);
            } else if s > c {
                lemma_count_less_monotone(runs, (c + 1) as u64, s as u64);
            }
        }
    }

    /// The row the first-column row `i` comes from: `n` starts the run of
    /// the transform that goes to the run of `i`, which starts at `p`.
    proof fn lemma_follow(&self, i: int, h: int, p: int, m: int, n: int)
        requires
            self.wf(),
            0 <= i < self.text@.len(),
            0 <= h < self.text@.len(),
            ({
                let t = self.text@;
                let l = bwt(t, self.sa@);
                let hb = head_flags(l);
                let runs = wavelet_contents(self.s);
                let fb = rs_bits(self.bp);
                let x = lf_row(t, l, h);
                &&& is_head(l, h)
                &&& 0 <= x <= i
                &&& fb[x]
                &&& rank1(fb, x) == count_less(runs, l[h]) + rank(runs, l[h], rank1(hb, h) as int)
                &&& rank1(hb, h) < runs.len()
                &&& runs[rank1(hb, h) as int] == l[h]
                &&& h + (i - x) < l.len()
                &&& rank1(hb, h + (i - x) + 1) == rank1(hb, h + 1)
                &&& 0 <= p < fb.len() && fb[p] && rank1(fb, p) == rank1(fb, x)
                &&& 0 <= m < runs.len() && runs[m] == l[h] && rank(runs, l[h], m) == rank(runs, l[h], rank1(hb, h) as int)
                &&& 0 <= n < hb.len() && hb[n] && rank1(hb, n) == m
            }),
        ensures
            p <= n + i,
            n + i - p < self.text@.len(),
            self.lf_spec(n + i - p) == i,
            self.steps_exact() ==> self.sa@[n + i - p] == (self.sa@[i] + 1) % (self.text@.len() as int),
    {
        let t = self.text@;
        let l = bwt(t, self.sa@);
        let hb = head_flags(l);
        let runs = wavelet_contents(self.s);
        let fb = rs_bits(self.bp);
        let x = lf_row(t, l, h);
        self.lemma_runs_width();
        lemma_rank1_unique(fb, p, x);
        lemma_rank_unique(runs, l[h], m, rank1(hb, h) as int);
        lemma_rank1_unique(hb, n, h);
        let y = h + (i - x);
        lemma_run_span(l, h, y + 1);
        lemma_rank_step(l, l[h], y);
        if self.steps_exact() {
            self.lemma_lf(y);
            crate::util::lemma_cyclic_prev(self.sa@[y] as int, t.len() as int);
            crate::util::lemma_cyclic_next(self.sa@[i] as int, t.len() as int);
        }
    }
}

impl<C: Character, S: SuffixArraySample> RLFMIndexBackend<C, S> {
    /// The store of suffix-array entries.
    pub closed spec fn samples(&self) -> S {
        self.suffix_array
    }

    /// Build the index of `text`, keeping suffix-array samples according to
    /// `level`.
    ///
    /// Fails with `Error::InvalidText` when the text does not end with a
    /// single zero or holds two consecutive zeros. The text that holds the
    /// terminator alone is left out: it has no run the index could start from.
    pub fn new(text: &Text<C>, level: usize) -> (r: Result<Self, Error>)
        requires
            text.bounded(),
            1 <= text.max_code() < usize::MAX,
            text.codes().len() <= usize::MAX / 64,
            level < usize::BITS,
            text.codes() != seq![0u64],
        ensures
            r is Ok <==> valid_text(text.codes()),
            r matches Ok(b) ==> {
                &&& b.wf()
                &&& b.text() == text.codes()
                &&& b.max_code() == text.max_code()
                &&& b.samples().samples_of(b.sa())
                &&& b.steps_exact() == forall|k: int| 0 <= k < text.codes().len() - 1 ==> #[trigger] text.codes()[k] != 0
            },
    {
        let codes = text.to_codes();
        if !check_text(&codes) {
            return Err(Error::InvalidText("the text must end with a single zero and hold no consecutive zeros"));
        }
        let n = codes.len();
        let max = text.max_character().into_u64();
        proof {
            C::lemma_code(text.max_char());
            if n == 1 {
                assert(codes@ =~= seq![0u64]);
            }
        }
        let sa = sais(&codes, max);
        let (s_vec, b_bits, runs_by_char) = scan_runs(&codes, &sa, max);
        let ghost t = codes@;
        let ghost l = bwt(t, sa@);
        let ghost hb = head_flags(l);
        let ghost m = max + 1;
        proof {
            lemma_bwt_bounded(t, sa@, max);
            lemma_rank1_all(hb);
            lemma_rank1_monotone(hb, 0, n as int);
            assert(hb.take(0) =~= Seq::<bool>::empty());
            assert(l.take(n as int) =~= l);
            assert forall|c: int| 0 <= c < runs_by_char.len() implies prefix_sum(
                #[trigger] lengths(runs_by_char@)[c],
                lengths(runs_by_char@)[c].len() as int,
            ) == occ(t, c as u64) by {
                lemma_bwt_occ(t, sa@, c as u64);
            }
            assert forall|i: int| 0 <= i < t.len() implies #[trigger] t[i] < max + 1 by {}
            lemma_count_less_all(t, (max + 1) as u64);
            lemma_count_less_all(s_vec@, (max + 1) as u64);
        }
        let bits = text.max_bits();
        let s = wavelet_of(&s_vec, max, bits);
        let (bp_bits, cs) = first_column_runs(&runs_by_char, Ghost(t), Ghost(s_vec@));
        proof {
            lemma_encodes_runs(
                t,
                sa@,
                s_vec@,
                bit_vec_bits(b_bits),
                lengths(runs_by_char@),
                bit_vec_bits(bp_bits),
                cs@,
                m as int,
            );
        }
        let b = rs_from_bit_vec(b_bits);
        let bp = rs_from_bit_vec(bp_bits);
        let suffix_array = S::from_suffix_array(&sa, level);
        let r = RLFMIndexBackend {
            suffix_array,
            s,
            b,
            bp,
            cs,
            len: n,
            text: Ghost(codes@),
            sa: Ghost(sa@),
            _c: PhantomData,
        };
        assert(r.wf());
        Ok(r)
    }
}

impl<C: Character, S: SuffixArraySample> SearchIndexBackend for RLFMIndexBackend<C, S> {
    type C = C;

    closed spec fn wf(&self) -> bool {
        let t = self.text@;
        let max = (self.cs.len() - 1) as u64;
        &&& valid_text(t)
        &&& is_suffix_array(t, self.sa@)
        &&& 2 <= self.cs.len() <= usize::MAX
        &&& self.cs.len() - 1 <= C::max_code()
        &&& t.len() <= usize::MAX / 64
        &&& forall|i: int| 0 <= i < t.len() ==> #[trigger] t[i] <= max
        &&& self.len == t.len()
        &&& wavelet_width(self.s) == floor_log2(max as nat) + 1
        &&& encodes_runs(t, self.sa@, wavelet_contents(self.s), rs_bits(self.b), rs_bits(self.bp), self.cs@)
        &&& self.suffix_array.samples_of(self.sa@)
    }

    closed spec fn text(&self) -> Seq<u64> {
        self.text@
    }

    closed spec fn sa(&self) -> Seq<usize> {
        self.sa@
    }

    closed spec fn max_code(&self) -> u64 {
        (self.cs.len() - 1) as u64
    }

    closed spec fn lf2_spec(&self, c: u64, i: int) -> int {
        (count_less(self.text@, c) + rank(bwt(self.text@, self.sa@), c, i)) as int
    }

    closed spec fn lf_spec(&self, i: int) -> int {
        self.lf2_spec(bwt(self.text@, self.sa@)[i], i)
    }

    /// The LF mapping is exact when the terminator is the only zero of the text.
    closed spec fn steps_exact(&self) -> bool {
        forall|k: int| 0 <= k < self.text@.len() - 1 ==> #[trigger] self.text@[k] != 0
    }

    /// Stepping forward never stops.
    open spec fn stops_at_zero(&self) -> bool {
        false
    }

    proof fn lemma_wf(&self) {
        crate::util::lemma_floor_log2_bound(self.max_code() as nat);
    }

    proof fn lemma_step(&self, c: u64, q: Seq<u64>) {
        lemma_lt_step(self.text@, self.sa@, c, q);
        lemma_le_step(self.text@, self.sa@, c, q);
    }

    proof fn lemma_lf(&self, i: int) {
        let t = self.text@;
        let l = bwt(t, self.sa@);
        if l[i] != 0 {
            lemma_lf_nonzero(t, self.sa@, i);
        } else {
            lemma_lf_zero_single(t, self.sa@, i);
        }
        crate::util::lemma_cyclic_prev(self.sa@[i] as int, t.len() as int);
    }

    proof fn lemma_lf_injective(&self, i: int, j: int) {
        lemma_lf_row_injective(self.text@, self.sa@, i, j);
    }

    proof fn lemma_lf_range(&self, i: int) {
        lemma_lf_row_bound(self.text@, self.sa@, i);
    }

    fn len(&self) -> (r: usize) {
        self.len
    }

    fn get_l(&self, i: usize) -> (r: u64) {
        proof {
            self.lemma_runs_width();
            let l = bwt(self.text@, self.sa@);
            lemma_row_char(l, wavelet_contents(self.s), i as int);
            lemma_rank1_all(head_flags(l));
            lemma_rank1_monotone(head_flags(l), i + 1, l.len() as int);
        }
        // the first row always starts a run
        let r = rs_rank1(&self.b, i + 1);
        wavelet_get(&self.s, r - 1)
    }

    fn lf_map(&self, i: usize) -> (r: usize) {
        let c = self.get_l(i);
        proof {
            self.lemma_runs_width();
            lemma_bwt_bounded(self.text@, self.sa@, self.max_code());
            crate::util::lemma_pow2_monotone(c as nat, self.max_code() as nat, wavelet_width(self.s));
            lemma_below_pow2_log2(self.max_code() as nat);
        }
        let j = rs_rank1(&self.b, i);
        proof {
            lemma_rank1_all(rs_bits(self.b));
            lemma_rank1_monotone(rs_bits(self.b), i as int, self.text@.len() as int);
            self.lemma_run_counts(c, j as int);
        }
        let nr = wavelet_rank(&self.s, j, c);
        let base = rs_select1(&self.bp, self.cs[c as usize] + nr);
        proof {
            self.lemma_lf_result(c, i as int, base as int);
            lemma_run_start_of(rs_bits(self.b), j as int);
            lemma_lf_row_bound(self.text@, self.sa@, i as int);
        }
        let p = rs_select1(&self.b, j);
        base + i - p
    }

    fn lf_map2(&self, c: u64, i: usize) -> (r: usize) {
        proof {
            self.lemma_runs_width();
            crate::util::lemma_pow2_monotone(c as nat, self.max_code() as nat, wavelet_width(self.s));
            lemma_below_pow2_log2(self.max_code() as nat);
        }
        let j = rs_rank1(&self.b, i);
        proof {
            lemma_rank1_all(rs_bits(self.b));
            lemma_rank1_monotone(rs_bits(self.b), i as int, self.text@.len() as int);
            self.lemma_run_counts(c, j as int);
        }
        let nr = wavelet_rank(&self.s, j, c);
        let base = rs_select1(&self.bp, self.cs[c as usize] + nr);
        proof {
            self.lemma_lf_result(c, i as int, base as int);
            lemma_run_start_of(rs_bits(self.b), j as int);
        }
        if i < self.len && self.get_l(i) == c {
            let p = rs_select1(&self.b, j);
            base + i - p
        } else {
            base
        }
    }

    fn get_f(&self, i: usize) -> (r: u64) {
        let ghost h = self.lemma_first_column_run(i as int);
        let r = rs_rank1(&self.bp, i + 1) - 1;
        proof {
            self.lemma_cs_search(h, r as int);
        }
        let c = last_at_most(&self.cs, r);
        c as u64
    }

    fn fl_map(&self, i: usize) -> (r: Option<usize>) {
        let ghost h = self.lemma_first_column_run(i as int);
        let c = self.get_f(i);
        proof {
            self.lemma_runs_width();
            crate::util::lemma_pow2_monotone(c as nat, self.max_code() as nat, wavelet_width(self.s));
            lemma_below_pow2_log2(self.max_code() as nat);
        }
        let j = rs_rank1(&self.bp, i + 1) - 1;
        let p = rs_select1(&self.bp, j);
        let m = wavelet_select(&self.s, j - self.cs[c as usize], c);
        let n = rs_select1(&self.b, m);
        proof {
            self.lemma_follow(i as int, h, p as int, m as int, n as int);
        }
        Some(n + i - p)
    }
}

impl<C: Character, S: SuffixArraySample + HeapSize> HeapSize for RLFMIndexBackend<C, S> {
    /// The layers of the wavelet matrix of the run characters, the two
    /// rank/select vectors of run starts, the capacity of the vector of run
    /// counts, and the stored suffix-array entries.
    closed spec fn is_heap_size(&self, bytes: usize) -> bool {
        exists|cap: usize, s: usize|
            #![trigger vec_capacity_bound(cap, self.cs@.len(), vstd::layout::size_of::<usize>()), self.suffix_array.is_heap_size(s)]
            vec_capacity_bound(cap, self.cs@.len(), vstd::layout::size_of::<usize>()) && self.suffix_array.is_heap_size(s) && bytes == sat_add(
                sat_add(
                    sat_add(
                        sat_add(
                            wavelet_heap_bytes(wavelet_contents(self.s), wavelet_width(self.s)) as int,
                            rs_heap_bytes(rs_bits(self.b)) as int,
                        ),
                        rs_heap_bytes(rs_bits(self.bp)) as int,
                    ),
                    sat_mul(cap as int, vstd::layout::size_of::<u64>() as int),
                ),
                s as int,
            )
    }

    fn heap_size(&self) -> (r: usize) {
        let cap = vec_capacity(&self.cs);
        let cs = bytes_of(cap, core::mem::size_of::<u64>());
        let s = self.suffix_array.heap_size();
        let r = wavelet_heap_size(&self.s)
            .saturating_add(rs_heap_size(&self.b))
            .saturating_add(rs_heap_size(&self.bp))
            .saturating_add(cs)
            .saturating_add(s);
        proof {
            assert(vec_capacity_bound(cap, self.cs@.len(), vstd::layout::size_of::<usize>()) && self.suffix_array.is_heap_size(s));
        }
        r
    }
}

impl<C: Character> HasPosition for RLFMIndexBackend<C, SuffixOrderSampledArray> {
    closed spec fn sample_rate(&self) -> nat {
        self.suffix_array.rate()
    }

    fn sample_at(&self, i: usize) -> (r: Option<usize>) {
        assert(self.suffix_array.holds(self.sa@));
        self.suffix_array.get(i)
    }
}

} // verus!
