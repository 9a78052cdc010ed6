//! An FM-index over multiple pieces of text, each ended by a zero character.
use vstd::prelude::*;
use std::marker::PhantomData;
use vers_vecs::{RsVec, WaveletMatrix};
use crate::backend::{
    zeros_before, DiscardedSuffixArray, HasMultiPieces, HasPosition, HeapSize, SearchIndexBackend, SuffixArraySample,
};
use crate::character::Character;
use crate::counting::{lemma_count_monotone, lemma_occ_count, lemma_rank_bound, lemma_rank_count, lemma_rank_step};
use crate::error::Error;
use crate::fm_index::{build_bwt, first_char, lemma_bwt_bounded, wavelet_of};
use crate::model::{count_less, is_suffix_array, occ, rank, valid_text};
use crate::piece::PieceId;
use crate::sample::SuffixOrderSampledArray;
use crate::succinct::{
    bit_vec_bits, bit_vec_from_zeros, bit_vec_set, count_ones, fits, rank1, rs_bits,
    rs_from_bit_vec, rs_rank1, vec_capacity, vec_capacity_bound, wavelet_contents, wavelet_heap_bytes, word_bytes, wavelet_get, wavelet_heap_size,
    wavelet_len, wavelet_rank, wavelet_select, wavelet_width,
};
use crate::sais::sais;
use crate::suffix_array::{check_text, count_codes, get_bucket_start_pos};
use crate::text::Text;
use crate::theory::{
    bwt, lemma_bwt_occ, lemma_count_less_all, lemma_count_less_monotone, lemma_count_less_step,
    lemma_count_less_zero, lemma_first_column, lemma_first_row, lemma_le_step, lemma_lf_nonzero,
    lemma_lf_zero_multi, lemma_lt_step, lemma_prefix_sum_count_less, lemma_rows_distinct, prev_char,
};
use crate::util::{bytes_of, sat_add, sat_mul, floor_log2, lemma_below_pow2_log2, lemma_cyclic_next, lemma_cyclic_prev};

verus! {

/// An FM-Index supporting multiple \0 separated texts.
pub struct FMIndexMultiPiecesBackend<C, S> {
    bw: WaveletMatrix,
    cs: Vec<usize>,
    suffix_array: S,
    doc: Vec<usize>,
    // The row of the first text position in the suffix array
    sa_idx_first_text: usize,
    text: Ghost<Seq<u64>>,
    sa: Ghost<Seq<usize>>,
    _c: PhantomData<C>,
}

/// `(a + b) mod m`.
pub(crate) fn modular_add(a: usize, b: usize, m: usize) -> (r: usize)
    requires
        0 < m,
        a <= m,
        b <= m,
        a + b <= usize::MAX,
    ensures
        r == (a + b) % (m as int),
{
    (a + b) % m
}

/// `(a - b) mod m`.
pub(crate) fn modular_sub(a: usize, b: usize, m: usize) -> (r: usize)
    requires
        a <= m,
        b <= m,
    ensures
        r == if a >= b { a - b } else { m + a - b },
{
    if a >= b {
        a - b
    } else {
        (m - b) + a
    }
}

/// The zero characters of a text counted through its zero flags.
proof fn lemma_flags_rank(t: Seq<u64>, bits: Seq<bool>, p: int)
    requires
        bits.len() == t.len(),
        forall|k: int| 0 <= k < t.len() ==> #[trigger] bits[k] == (t[k] == 0),
        0 <= p <= t.len(),
    ensures
        rank1(bits, p) == zeros_before(t, p),
    decreases p,
{
    if p > 0 {
        lemma_flags_rank(t, bits, p - 1);
        assert(bits.take(p).drop_last() =~= bits.take(p - 1));
        assert(t.take(p).drop_last() =~= t.take(p - 1));
    }
}

/// A zero before the last position has fewer zeros before it than the last.
proof fn lemma_zero_before_last(t: Seq<u64>, idx: int)
    requires
        valid_text(t),
        0 <= idx < t.len() - 1,
        t[idx] == 0,
    ensures
        zeros_before(t, idx) + 1 <= zeros_before(t, t.len() - 1),
{
    let n = t.len() as int;
    lemma_rank_step(t, 0, idx);
    crate::counting::lemma_rank_count(t, 0, idx + 1);
    crate::counting::lemma_rank_count(t, 0, n - 1);
    lemma_count_monotone(n - 1, idx + 1, |k: int| t[k] == 0);
}

/// The piece a position belongs to is one more, cyclically, than that of
/// the zero before it.
proof fn lemma_piece_after_zero(t: Seq<u64>, p: int)
    requires
        valid_text(t),
        0 <= p < t.len(),
        t[(p + t.len() - 1) % (t.len() as int)] == 0,
    ensures
        occ(t, 0) >= 1,
        zeros_before(t, (p + t.len() - 1) % (t.len() as int)) + 1 <= occ(t, 0),
        ((zeros_before(t, (p + t.len() - 1) % (t.len() as int)) + 1) as int) % (occ(t, 0) as int) == zeros_before(t, p),
{
    let n = t.len() as int;
    let q = (p + n - 1) % n;
    lemma_cyclic_prev(p, n);
    assert(t.take(n) =~= t);
    // the last zero ends the text
    lemma_rank_step(t, 0, n - 1);
    lemma_rank_bound(t, 0, n - 1);
    lemma_rank_step(t, 0, q);
    lemma_rank_count(t, 0, q + 1);
    lemma_rank_count(t, 0, n - 1);
    if q + 1 <= n - 1 {
        lemma_count_monotone(n - 1, q + 1, |k: int| t[k] == 0);
    }
    if p >= 1 {
        vstd::arithmetic::div_mod::lemma_small_mod(zeros_before(t, p), occ(t, 0));
    } else {
        assert(zeros_before(t, 0) == 0) by {
            assert(t.take(0) =~= Seq::<u64>::empty());
        }
        vstd::arithmetic::div_mod::lemma_mod_self_0(occ(t, 0) as int);
    }
}

/// Rows holding a zero in the transform have distinct zero ranks.
proof fn lemma_rank_distinct(l: Seq<u64>, a: int, b: int)
    requires
        0 <= a < b < l.len(),
        l[a] == 0,
    ensures
        rank(l, 0, a) < rank(l, 0, b),
{
    lemma_rank_step(l, 0, a);
    lemma_rank_count(l, 0, a + 1);
    lemma_rank_count(l, 0, b);
    lemma_count_monotone(b, a + 1, |k: int| l[k] == 0);
}

impl<C: Character, S: SuffixArraySample> FMIndexMultiPiecesBackend<C, S> {
    /// The row of the suffix that starts the text (position 0).
    pub closed spec fn first_text_row(&self) -> int {
        self.sa_idx_first_text as int
    }

    /// The row of position 0 is a row of the index.
    pub proof fn lemma_first_text_row(&self)
        requires
            self.wf(),
        ensures
            0 <= self.first_text_row() < self.text().len(),
            self.sa()[self.first_text_row()] == 0,
    {
    }

    /// A backward step with character `c` from row boundary `i`. With a
    /// non-zero character: past the rows of the suffixes that start below
    /// `c`, then past one row for each `c` in the transform above row `i`.
    /// With the zero: the zero before position 0 (in the row of position 0)
    /// leads to row 0, and each other zero, ending a piece, leads to the
    /// rows after it in transform order.
    pub proof fn lemma_step_rows(&self, c: u64, i: int)
        ensures
            c != 0 ==> self.lf2_spec(c, i) == count_less(self.text(), c) + rank(bwt(self.text(), self.sa()), c, i),
            c == 0 ==> self.lf2_spec(c, i) == if i < self.first_text_row() {
                rank(bwt(self.text(), self.sa()), 0, i) + 1int
            } else if i == self.first_text_row() {
                0int
            } else {
                rank(bwt(self.text(), self.sa()), 0, i) as int
            },
    {
    }

    /// The table of pieces: for the zero of rank `r` in the transform, the
    /// number of the piece that zero ends.
    spec fn doc_ok(t: Seq<u64>, sa: Seq<usize>, doc: Seq<usize>) -> bool {
        forall|p: int|
            #![trigger bwt(t, sa)[p]]
            0 <= p < sa.len() && bwt(t, sa)[p] == 0 ==> rank(bwt(t, sa), 0, p) < doc.len() && doc[rank(bwt(t, sa), 0, p) as int]
                == zeros_before(t, (sa[p] + t.len() - 1) % (t.len() as int))
    }

    /// Build the index of `text`, keeping suffix-array samples according to `level`.
    pub fn new(text: &Text<C>, level: usize) -> (r: Result<Self, Error>)
        requires
            text.bounded(),
            1 <= text.max_code() < usize::MAX,
            text.codes().len() <= usize::MAX / 64,
            level < usize::BITS,
        ensures
            r is Ok <==> valid_text(text.codes()),
            r matches Ok(b) ==> {
                &&& b.wf()
                &&& b.text() == text.codes()
                &&& b.max_code() == text.max_code()
            },
    {
        let codes = text.to_codes();
        if !check_text(&codes) {
            return Err(Error::InvalidText("the text must end with a single zero and hold no consecutive zeros"));
        }
        let max = text.max_character().into_u64();
        proof {
            C::lemma_code(text.max_char());
        }
        let occs = count_codes(&codes, max);
        proof {
            assert forall|c: int| 0 <= c <= occs.len() implies #[trigger] crate::model::prefix_sum(occs@, c) == count_less(codes@, c as u64) by {
                lemma_prefix_sum_count_less(codes@, occs@, c);
            }
            lemma_count_less_all(codes@, (max + 1) as u64);
        }
        let cs = get_bucket_start_pos(occs.as_slice());
        let sa = sais(&codes, max);
        let bw_vec = build_bwt(&codes, &sa);
        proof {
            lemma_bwt_bounded(codes@, sa@, max);
        }
        let bits = text.max_bits();
        let bw = wavelet_of(&bw_vec, max, bits);
        proof {
            crate::util::lemma_floor_log2_bound(max as nat);
        }
        let (doc, first) = Self::doc(&codes, &bw, &sa);
        let suffix_array = S::from_suffix_array(&sa, level);
        let r = FMIndexMultiPiecesBackend {
            bw,
            cs,
            suffix_array,
            doc,
            sa_idx_first_text: first,
            text: Ghost(codes@),
            sa: Ghost(sa@),
            _c: PhantomData,
        };
        assert(r.wf());
        Ok(r)
    }

    /// The piece numbers of the zeros in transform order, and the row of
    /// the first text position.
    fn doc(codes: &Vec<u64>, bw: &WaveletMatrix, sa: &Vec<usize>) -> (r: (Vec<usize>, usize))
        requires
            valid_text(codes@),
            is_suffix_array(codes@, sa@),
            codes.len() <= usize::MAX / 64,
            wavelet_contents(*bw) == bwt(codes@, sa@),
            1 <= wavelet_width(*bw) <= 64,
        ensures
            r.0.len() == occ(codes@, 0),
            r.1 < codes.len(),
            sa@[r.1 as int] == 0,
            Self::doc_ok(codes@, sa@, r.0@),
    {
        let n = codes.len();
        let ghost t = codes@;
        let ghost l = bwt(t, sa@);
        let mut end_marker_bits = bit_vec_from_zeros(n);
        let mut end_marker_count: usize = 0;
        let mut i: usize = 0;
        while i < n
            invariant
                n == codes.len(),
                t == codes@,
                i <= n,
                end_marker_count == zeros_before(t, i as int),
                end_marker_count <= i,
                bit_vec_bits(end_marker_bits).len() == n,
                forall|k: int| 0 <= k < n ==> #[trigger] bit_vec_bits(end_marker_bits)[k] == (k < i && t[k] == 0),
            decreases n - i,
        {
            proof {
                lemma_rank_step(t, 0, i as int);
            }
            if codes[i] == 0 {
                bit_vec_set(&mut end_marker_bits, i, 1);
                end_marker_count = end_marker_count + 1;
            }
            i = i + 1;
        }
        proof {
            assert(t.take(n as int) =~= t);
            lemma_bwt_occ(t, sa@, 0);
            vstd::arithmetic::power2::lemma_pow2_pos(wavelet_width(*bw));
        }
        let end_marker_flags = rs_from_bit_vec(end_marker_bits);
        let mut doc: Vec<usize> = vec![0; end_marker_count];
        let mut sa_idx_first_text: usize = 0;
        let ghost mut found = false;
        // the row of position 0, whose transform character is a zero
        let ghost fi0 = {
            crate::counting::lemma_suffix_array_onto(t, sa@, 0);
            choose|r: int| 0 <= r < sa@.len() && sa@[r] == 0
        };
        let ghost r0 = rank(l, 0, fi0) as int;
        proof {
            lemma_rank_step(l, 0, fi0);
            lemma_rank_bound(l, 0, fi0 + 1);
        }
        let mut end_marker_rank_l: usize = 0;
        while end_marker_rank_l < end_marker_count
            invariant
                n == codes.len(),
                t == codes@,
                l == bwt(t, sa@),
                valid_text(t),
                is_suffix_array(t, sa@),
                n <= usize::MAX / 64,
                wavelet_contents(*bw) == l,
                1 <= wavelet_width(*bw) <= 64,
                fits(0, wavelet_width(*bw)),
                end_marker_count == occ(l, 0),
                end_marker_count == zeros_before(t, n as int),
                doc.len() == end_marker_count,
                end_marker_rank_l <= end_marker_count,
                rs_bits(end_marker_flags).len() == n,
                forall|k: int| 0 <= k < n ==> #[trigger] rs_bits(end_marker_flags)[k] == (t[k] == 0),
                0 <= fi0 < n,
                sa@[fi0] == 0,
                l[fi0] == 0,
                r0 == rank(l, 0, fi0),
                r0 < end_marker_count,
                sa_idx_first_text < n,
                found ==> sa@[sa_idx_first_text as int] == 0,
                end_marker_rank_l > r0 ==> found,
                forall|p: int|
                    #![trigger l[p]]
                    0 <= p < n && l[p] == 0 && rank(l, 0, p) < end_marker_rank_l ==> doc[rank(l, 0, p) as int] == zeros_before(
                        t,
                        (sa@[p] + n - 1) % (n as int),
                    ),
            decreases end_marker_count - end_marker_rank_l,
        {
            let p = wavelet_select(bw, end_marker_rank_l, 0);
            proof {
                assert(sa@[p as int] < n);
            }
            let end_marker_idx = modular_sub(sa[p], 1, n);
            proof {
                lemma_cyclic_prev(sa@[p as int] as int, n as int);
                lemma_flags_rank(t, rs_bits(end_marker_flags), end_marker_idx as int);
            }
            let piece_id = rs_rank1(&end_marker_flags, end_marker_idx);
            proof {
                // the rank of the last zero is one less than the number of zeros
                lemma_rank_step(t, 0, (n - 1) as int);
                assert(t.take(n as int) =~= t);
                if end_marker_rank_l == r0 {
                    if p != fi0 {
                        if (p as int) < fi0 {
                            lemma_rank_distinct(l, p as int, fi0);
                        } else {
                            lemma_rank_distinct(l, fi0, p as int);
                        }
                    }
                }
            }
            if piece_id == end_marker_count - 1 {
                proof {
                    if sa@[p as int] != 0 {
                        // the zero before a later position is not the last one
                        assert(t[sa@[p as int] - 1] == 0);
                        lemma_zero_before_last(t, sa@[p as int] - 1);
                    }
                    found = true;
                }
                sa_idx_first_text = p;
            }
            proof {
                assert forall|q: int|
                    #![trigger l[q]]
                    0 <= q < n && l[q] == 0 && rank(l, 0, q) == end_marker_rank_l implies q == p by {
                    if q != p {
                        if q < p {
                            lemma_rank_distinct(l, q, p as int);
                        } else {
                            lemma_rank_distinct(l, p as int, q);
                        }
                    }
                }
            }
            doc.set(end_marker_rank_l, piece_id);
            end_marker_rank_l = end_marker_rank_l + 1;
        }
        proof {
            assert forall|p: int|
                #![trigger bwt(t, sa@)[p]]
                0 <= p < sa@.len() && bwt(t, sa@)[p] == 0 implies rank(bwt(t, sa@), 0, p) < doc@.len() && doc@[rank(bwt(t, sa@), 0, p) as int]
                    == zeros_before(t, (sa@[p] + t.len() - 1) % (t.len() as int)) by {
                lemma_rank_step(l, 0, p);
                lemma_rank_bound(l, 0, p + 1);
            }
        }
        (doc, sa_idx_first_text)
    }

    proof fn lemma_counts(&self, c: u64)
        requires
            self.wf(),
            c <= self.max_code(),
        ensures
            count_less(self.text(), c) + occ(self.text(), c) <= self.text().len(),
            occ(bwt(self.text(), self.sa()), c) == occ(self.text(), c),
            fits(c, wavelet_width(self.bw)),
    {
        lemma_count_less_step(self.text(), c);
        lemma_count_less_monotone(self.text(), (c + 1) as u64, (self.max_code() + 1) as u64);
        lemma_count_less_all(self.text(), (self.max_code() + 1) as u64);
        lemma_bwt_occ(self.text(), self.sa(), c);
        lemma_below_pow2_log2(self.max_code() as nat);
        crate::util::lemma_pow2_monotone(c as nat, self.max_code() as nat, wavelet_width(self.bw));
    }
}

impl<C: Character, S: SuffixArraySample> SearchIndexBackend for FMIndexMultiPiecesBackend<C, S> {
    type C = C;

    closed spec fn wf(&self) -> bool {
        let t = self.text@;
        let max = (self.cs.len() - 1) as u64;
        &&& valid_text(t)
        &&& is_suffix_array(t, self.sa@)
        &&& 2 <= self.cs.len() <= usize::MAX
        &&& self.cs.len() - 1 <= C::max_code()
        &&& t.len() <= usize::MAX / 64
        &&& forall|i: int| 0 <= i < t.len() ==> #[trigger] t[i] <= max
        &&& wavelet_contents(self.bw) == bwt(t, self.sa@)
        &&& wavelet_width(self.bw) == floor_log2(max as nat) + 1
        &&& forall|c: int| 0 <= c < self.cs.len() ==> #[trigger] self.cs[c] == count_less(t, c as u64)
        &&& self.suffix_array.samples_of(self.sa@)
        &&& self.doc.len() == occ(t, 0)
        &&& self.sa_idx_first_text < t.len()
        &&& self.sa@[self.sa_idx_first_text as int] == 0
        &&& Self::doc_ok(t, self.sa@, self.doc@)
    }

    closed spec fn text(&self) -> Seq<u64> {
        self.text@
    }

    closed spec fn sa(&self) -> Seq<usize> {
        self.sa@
    }

    closed spec fn max_code(&self) -> u64 {
        (self.cs.len() - 1) as u64
    }

    closed spec fn lf2_spec(&self, c: u64, i: int) -> int {
        let r = rank(bwt(self.text@, self.sa@), c, i) as int;
        if c == 0 {
            if i < self.sa_idx_first_text {
                r + 1
            } else if i == self.sa_idx_first_text {
                0
            } else {
                r
            }
        } else {
            count_less(self.text@, c) + r
        }
    }

    closed spec fn lf_spec(&self, i: int) -> int {
        self.lf2_spec(bwt(self.text@, self.sa@)[i], i)
    }

    /// Every zero of the text ends a piece, so the LF mapping is exact.
    open spec fn steps_exact(&self) -> bool {
        true
    }

    /// Stepping forward stops at the end of each piece.
    open spec fn stops_at_zero(&self) -> bool {
        true
    }

    proof fn lemma_wf(&self) {
        crate::util::lemma_floor_log2_bound(self.max_code() as nat);
    }

    proof fn lemma_step(&self, c: u64, q: Seq<u64>) {
        lemma_lt_step(self.text@, self.sa@, c, q);
        lemma_le_step(self.text@, self.sa@, c, q);
    }

    proof fn lemma_lf(&self, i: int) {
        let t = self.text@;
        let l = bwt(t, self.sa@);
        let n = t.len() as int;
        if l[i] != 0 {
            lemma_lf_nonzero(t, self.sa@, i);
        } else if i == self.sa_idx_first_text {
            lemma_first_row(t, self.sa@);
        } else {
            lemma_lf_zero_multi(t, self.sa@, i, self.sa_idx_first_text as int);
        }
        lemma_cyclic_prev(self.sa@[i] as int, n);
    }

    proof fn lemma_lf_range(&self, i: int) {
        self.lemma_lf(i);
    }

    proof fn lemma_lf_injective(&self, i: int, j: int) {
        let n = self.text@.len() as int;
        self.lemma_lf(i);
        self.lemma_lf(j);
        if i != j {
            crate::theory::lemma_rows_distinct(self.text@, self.sa@, i, j);
            lemma_cyclic_prev(self.sa@[i] as int, n);
            lemma_cyclic_prev(self.sa@[j] as int, n);
        }
    }

    fn len(&self) -> (r: usize) {
        wavelet_len(&self.bw)
    }

    fn get_l(&self, i: usize) -> (r: u64) {
        proof {
            crate::util::lemma_floor_log2_bound(self.max_code() as nat);
        }
        wavelet_get(&self.bw, i)
    }

    fn lf_map(&self, i: usize) -> (r: usize) {
        let c = self.get_l(i);
        proof {
            lemma_bwt_bounded(self.text@, self.sa@, self.max_code());
            if c == 0 && i != self.sa_idx_first_text {
                lemma_lf_zero_multi(self.text@, self.sa@, i as int, self.sa_idx_first_text as int);
            }
            self.lemma_counts(c);
            lemma_rank_step(bwt(self.text@, self.sa@), c, i as int);
            lemma_rank_bound(bwt(self.text@, self.sa@), c, i as int + 1);
        }
        self.lf_map2(c, i)
    }

    fn lf_map2(&self, c: u64, i: usize) -> (r: usize) {
        proof {
            self.lemma_counts(c);
            lemma_rank_bound(bwt(self.text@, self.sa@), c, i as int);
            crate::util::lemma_floor_log2_bound(self.max_code() as nat);
            lemma_count_less_zero(self.text@);
        }
        let rank = wavelet_rank(&self.bw, i, c);
        if c == 0 {
            if i < self.sa_idx_first_text {
                proof {
                    // the row of position 0 holds a zero after row i
                    lemma_rank_step(bwt(self.text@, self.sa@), 0, self.sa_idx_first_text as int);
                    lemma_rank_count(bwt(self.text@, self.sa@), 0, i as int);
                    lemma_rank_count(bwt(self.text@, self.sa@), 0, self.sa_idx_first_text as int);
                    lemma_count_monotone(self.sa_idx_first_text as int, i as int, |k: int| bwt(self.text@, self.sa@)[k] == 0);
                    lemma_rank_bound(bwt(self.text@, self.sa@), 0, self.sa_idx_first_text as int + 1);
                }
                rank + 1
            } else if i == self.sa_idx_first_text {
                0
            } else {
                rank
            }
        } else {
            self.cs[c as usize] + rank
        }
    }

    fn get_f(&self, i: usize) -> (r: u64) {
        first_char(&self.cs, i, Ghost(self.text@), Ghost(self.sa@))
    }

    fn fl_map(&self, i: usize) -> (r: Option<usize>) {
        let c = self.get_f(i);
        if c == 0 {
            None
        } else {
            proof {
                let t = self.text@;
                lemma_first_column(t, self.sa@, i as int);
                self.lemma_counts(c);
                crate::util::lemma_floor_log2_bound(self.max_code() as nat);
            }
            let k = i - self.cs[c as usize];
            let j = wavelet_select(&self.bw, k, c);
            proof {
                assert(self.lf_spec(j as int) == i);
                self.lemma_lf(j as int);
                lemma_cyclic_prev(self.sa@[j as int] as int, self.text@.len() as int);
                lemma_cyclic_next(self.sa@[i as int] as int, self.text@.len() as int);
            }
            Some(j)
        }
    }
}

impl<C: Character> HeapSize for FMIndexMultiPiecesBackend<C, DiscardedSuffixArray> {
    /// The layers of the wavelet matrix of the transform and the capacity of
    /// the vector of character counts.
    closed spec fn is_heap_size(&self, bytes: usize) -> bool {
        exists|cap: usize|
            #![trigger vec_capacity_bound(cap, self.cs@.len(), vstd::layout::size_of::<usize>())]
            vec_capacity_bound(cap, self.cs@.len(), vstd::layout::size_of::<usize>()) && bytes == sat_add(
                wavelet_heap_bytes(wavelet_contents(self.bw), wavelet_width(self.bw)) as int,
                sat_mul(cap as int, vstd::layout::size_of::<u64>() as int),
            )
    }

    fn heap_size(&self) -> (r: usize) {
        let cap = vec_capacity(&self.cs);
        let cs = bytes_of(cap, core::mem::size_of::<u64>());
        let r = wavelet_heap_size(&self.bw).saturating_add(cs);
        proof {
            assert(vec_capacity_bound(cap, self.cs@.len(), vstd::layout::size_of::<usize>()));
        }
        r
    }
}

impl<C: Character> HeapSize for FMIndexMultiPiecesBackend<C, SuffixOrderSampledArray> {
    /// The layers of the wavelet matrix of the transform, the capacity of
    /// the vector of character counts, the stored suffix-array entries and
    /// the capacity of the vector of piece rows.
    closed spec fn is_heap_size(&self, bytes: usize) -> bool {
        exists|cap: usize, dcap: usize|
            #![trigger vec_capacity_bound(cap, self.cs@.len(), vstd::layout::size_of::<usize>()), vec_capacity_bound(dcap, self.doc@.len(), vstd::layout::size_of::<usize>())]
            vec_capacity_bound(cap, self.cs@.len(), vstd::layout::size_of::<usize>()) && vec_capacity_bound(dcap, self.doc@.len(), vstd::layout::size_of::<usize>()) && bytes == sat_add(
                sat_add(
                    sat_add(
                        wavelet_heap_bytes(wavelet_contents(self.bw), wavelet_width(self.bw)) as int,
                        sat_mul(cap as int, vstd::layout::size_of::<u64>() as int),
                    ),
                    word_bytes(self.suffix_array.stored_bits()),
                ),
                sat_mul(dcap as int, vstd::layout::size_of::<usize>() as int),
            )
    }

    fn heap_size(&self) -> (r: usize) {
        let cap = vec_capacity(&self.cs);
        let dcap = vec_capacity(&self.doc);
        let cs = bytes_of(cap, core::mem::size_of::<u64>());
        let doc = bytes_of(dcap, core::mem::size_of::<usize>());
        let r = wavelet_heap_size(&self.bw).saturating_add(cs).saturating_add(self.suffix_array.heap_size()).saturating_add(doc);
        proof {
            assert(vec_capacity_bound(cap, self.cs@.len(), vstd::layout::size_of::<usize>()) && vec_capacity_bound(dcap, self.doc@.len(), vstd::layout::size_of::<usize>()));
        }
        r
    }
}

impl<C: Character> HasPosition for FMIndexMultiPiecesBackend<C, SuffixOrderSampledArray> {
    closed spec fn sample_rate(&self) -> nat {
        self.suffix_array.rate()
    }

    fn sample_at(&self, i: usize) -> (r: Option<usize>) {
        assert(self.suffix_array.holds(self.sa@));
        self.suffix_array.get(i)
    }
}

impl<C: Character, S: SuffixArraySample> HasMultiPieces for FMIndexMultiPiecesBackend<C, S> {
    fn piece_id(&self, i: usize) -> (r: PieceId) {
        let ghost t = self.text@;
        let ghost l = bwt(t, self.sa@);
        let n = self.len();
        let ghost a = self.sa@[i as int] as int;
        let mut k = i;
        let mut steps: usize = 0;
        while steps < n
            invariant
                self.wf(),
                t == self.text@,
                l == bwt(t, self.sa@),
                n == t.len(),
                k < n,
                i < n,
                a == self.sa@[i as int],
                0 <= a < n,
                steps <= a,
                self.sa@[k as int] == a - steps,
                zeros_before(t, self.sa@[k as int] as int) == zeros_before(t, a),
            decreases n - steps,
        {
            let c = self.get_l(k);
            if c == 0 {
                proof {
                    lemma_rank_step(l, 0, k as int);
                    lemma_rank_bound(l, 0, k as int + 1);
                    crate::util::lemma_floor_log2_bound(self.max_code() as nat);
                    vstd::arithmetic::power2::lemma_pow2_pos(wavelet_width(self.bw));
                    lemma_cyclic_prev(self.sa@[k as int] as int, n as int);
                    assert(l[k as int] == 0);
                    lemma_piece_after_zero(t, self.sa@[k as int] as int);
                }
                let r = wavelet_rank(&self.bw, k, 0);
                let prev = self.doc[r];
                let id = modular_add(prev, 1, self.doc.len());
                return PieceId::new(id);
            }
            proof {
                let p = self.sa@[k as int] as int;
                assert(p >= 1);
                assert(t[p - 1] != 0);
                lemma_rank_step(t, 0, p - 1);
                self.lemma_lf(k as int);
                lemma_cyclic_prev(p, n as int);
            }
            k = self.lf_map(k);
            steps = steps + 1;
        }
        proof {
            assert(false);
        }
        PieceId::new(0)
    }

    fn pieces_count(&self) -> (r: usize) {
        self.doc.len()
    }
}

} // verus!
