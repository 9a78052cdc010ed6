//! The FM-index: the Burrows-Wheeler transform in a wavelet matrix, with the
//! bucket starts of each character.
use vstd::prelude::*;
use vstd::arithmetic::power2::pow2;
use std::marker::PhantomData;
use vers_vecs::WaveletMatrix;
use crate::backend::{HasPosition, HeapSize, SearchIndexBackend, SuffixArraySample};
use crate::character::Character;
use crate::counting::{lemma_rank_bound, lemma_rank_step};
use crate::error::Error;
use crate::model::{count_less, is_suffix_array, occ, rank, valid_text};
use crate::sample::SuffixOrderSampledArray;
use crate::succinct::{
    fits, vec_capacity, vec_capacity_bound, wavelet_contents, wavelet_heap_bytes, wavelet_from_slice, wavelet_get, wavelet_heap_size,
    wavelet_len, wavelet_rank, wavelet_select, wavelet_width,
};
use crate::sais::sais;
use crate::suffix_array::{check_text, count_codes, get_bucket_start_pos};
use crate::text::Text;
use crate::theory::{
    bwt, lemma_bwt_occ, lemma_count_less_all, lemma_count_less_monotone, lemma_count_less_step,
    lemma_first_column, lemma_le_step, lemma_lf_nonzero, lemma_lf_zero_single, lemma_lt_step,
    lemma_prefix_sum_count_less,
};
use crate::util::{bytes_of, floor_log2, lemma_below_pow2_log2, sat_add, sat_mul};

verus! {

/// An FM-index, a succinct full-text index.
pub struct FMIndexBackend<C, S> {
    bw: WaveletMatrix,
    cs: Vec<usize>,
    suffix_array: S,
    text: Ghost<Seq<u64>>,
    sa: Ghost<Seq<usize>>,
    _c: PhantomData<C>,
}

/// The transform of `codes` under the suffix array `sa`.
pub(crate) fn build_bwt(codes: &Vec<u64>, sa: &Vec<usize>) -> (r: Vec<u64>)
    requires
        is_suffix_array(codes@, sa@),
    ensures
        r@ == bwt(codes@, sa@),
{
    let n = codes.len();
    let mut bw: Vec<u64> = Vec::with_capacity(n);
    let mut i: usize = 0;
    while i < n
        invariant
            n == codes.len(),
            is_suffix_array(codes@, sa@),
            i <= n,
            bw.len() == i,
            forall|k: int| 0 <= k < i ==> #[trigger] bw[k] == bwt(codes@, sa@)[k],
        decreases n - i,
    {
        let k = sa[i];
        if k > 0 {
            bw.push(codes[k - 1]);
        } else {
            bw.push(0);
        }
        i = i + 1;
    }
    assert(bw@ =~= bwt(codes@, sa@));
    bw
}

/// The first character of the suffix of row `i`: the greatest character
/// whose bucket starts at or before `i`.
pub(crate) fn first_char(cs: &Vec<usize>, i: usize, t: Ghost<Seq<u64>>, sa: Ghost<Seq<usize>>) -> (r: u64)
    requires
        is_suffix_array(t@, sa@),
        i < t@.len(),
        1 <= cs.len() <= usize::MAX,
        forall|k: int| 0 <= k < t@.len() ==> #[trigger] t@[k] < cs.len(),
        forall|c: int| 0 <= c < cs.len() ==> #[trigger] cs[c] == count_less(t@, c as u64),
    ensures
        r == t@[sa@[i as int] as int],
{
    // binary search for the greatest c with cs[c] <= i
    let mut s: usize = 0;
    let mut e: usize = cs.len();
    proof {
        lemma_count_less_zero_is_zero(t@);
    }
    while e - s > 1
        invariant
            i < t@.len(),
            s < e <= cs.len(),
            cs[s as int] <= i,
            e < cs.len() ==> cs[e as int] > i,
        decreases e - s,
    {
        let m = s + (e - s) / 2;
        if cs[m] <= i {
            s = m;
        } else {
            e = m;
        }
    }
    proof {
        let c = t@[sa@[i as int] as int];
        lemma_first_column(t@, sa@, i as int);
        lemma_count_less_step(t@, c);
        if (s as int) < c {
            lemma_count_less_monotone(t@, e as u64, c);
        } else if (s as int) > c {
            lemma_count_less_monotone(t@, (c + 1) as u64, s as u64);
        }
    }
    s as u64
}

/// Every character of the transform is a character of the text (or zero).
pub(crate) proof fn lemma_bwt_bounded(t: Seq<u64>, sa: Seq<usize>, max: u64)
    requires
        is_suffix_array(t, sa),
        forall|i: int| 0 <= i < t.len() ==> #[trigger] t[i] <= max,
    ensures
        forall|i: int| 0 <= i < sa.len() ==> #[trigger] bwt(t, sa)[i] <= max,
{
}

/// A wavelet matrix holding `bw`, each character in `bits` bits.
pub(crate) fn wavelet_of(bw: &Vec<u64>, max: u64, bits: usize) -> (r: WaveletMatrix)
    requires
        1 <= max,
        bits == floor_log2(max as nat) + 1,
        bits <= 64,
        forall|i: int| 0 <= i < bw.len() ==> #[trigger] bw[i] <= max,
    ensures
        wavelet_contents(r) == bw@,
        wavelet_width(r) == bits,
{
    proof {
        lemma_below_pow2_log2(max as nat);
        assert forall|i: int| 0 <= i < bw.len() implies fits(#[trigger] bw@[i], bits as nat) by {
        }
    }
    wavelet_from_slice(bw.as_slice(), bits as u16)
}

impl<C: Character, S: SuffixArraySample> FMIndexBackend<C, S> {
    /// A backward step with any character `c`, the zero included, from row
    /// boundary `i`: past the rows of the suffixes that start below `c`, then
    /// past one row for each `c` in the transform above row `i`.
    pub proof fn lemma_step_rows(&self, c: u64, i: int)
        ensures
            self.lf2_spec(c, i) == count_less(self.text(), c) + rank(bwt(self.text(), self.sa()), c, i),
    {
    }

    /// The store of suffix-array entries.
    pub closed spec fn samples(&self) -> S {
        self.suffix_array
    }

    /// Build the index of `text`, keeping suffix-array samples according to `level`.
    ///
    /// Fails with `Error::InvalidText` when the text does not end with a
    /// single zero or holds two consecutive zeros.
    pub fn new(text: &Text<C>, level: usize) -> (r: Result<Self, Error>)
        requires
            text.bounded(),
            1 <= text.max_code() < usize::MAX,
            text.codes().len() <= usize::MAX / 64,
            level < usize::BITS,
        ensures
            r is Ok <==> valid_text(text.codes()),
            r matches Ok(b) ==> {
                &&& b.wf()
                &&& b.text() == text.codes()
                &&& b.max_code() == text.max_code()
                &&& b.samples().samples_of(b.sa())
                &&& b.steps_exact() == forall|k: int| 0 <= k < text.codes().len() - 1 ==> #[trigger] text.codes()[k] != 0
            },
    {
        let codes = text.to_codes();
        if !check_text(&codes) {
            return Err(Error::InvalidText("the text must end with a single zero and hold no consecutive zeros"));
        }
        let max = text.max_character().into_u64();
        proof {
            C::lemma_code(text.max_char());
        }
        let occs = count_codes(&codes, max);
        proof {
            assert forall|c: int| 0 <= c <= occs.len() implies #[trigger] crate::model::prefix_sum(occs@, c) == count_less(codes@, c as u64) by {
                lemma_prefix_sum_count_less(codes@, occs@, c);
            }
            assert forall|i: int| 0 <= i < codes.len() implies #[trigger] codes@[i] < max + 1 by {
            }
            lemma_count_less_all(codes@, (max + 1) as u64);
        }
        let cs = get_bucket_start_pos(occs.as_slice());
        let sa = sais(&codes, max);
        let bw_vec = build_bwt(&codes, &sa);
        proof {
            lemma_bwt_bounded(codes@, sa@, max);
        }
        let bits = text.max_bits();
        let bw = wavelet_of(&bw_vec, max, bits);
        let suffix_array = S::from_suffix_array(&sa, level);
        let r = FMIndexBackend { bw, cs, suffix_array, text: Ghost(codes@), sa: Ghost(sa@), _c: PhantomData };
        assert(r.text@ == text.codes());
        assert(r.steps_exact() == forall|k: int| 0 <= k < text.codes().len() - 1 ==> #[trigger] text.codes()[k] != 0);
        assert(r.wf());
        Ok(r)
    }

    proof fn lemma_counts(&self, c: u64)
        requires
            self.wf(),
            c <= self.max_code(),
        ensures
            count_less(self.text(), c) + occ(self.text(), c) <= self.text().len(),
            occ(bwt(self.text(), self.sa()), c) == occ(self.text(), c),
            fits(c, wavelet_width(self.bw)),
    {
        lemma_count_less_step(self.text(), c);
        lemma_count_less_monotone(self.text(), (c + 1) as u64, (self.max_code() + 1) as u64);
        lemma_count_less_all(self.text(), (self.max_code() + 1) as u64);
        lemma_bwt_occ(self.text(), self.sa(), c);
        lemma_below_pow2_log2(self.max_code() as nat);
        crate::util::lemma_pow2_monotone(c as nat, self.max_code() as nat, wavelet_width(self.bw));
    }
}

impl<C: Character, S: SuffixArraySample> SearchIndexBackend for FMIndexBackend<C, S> {
    type C = C;

    closed spec fn wf(&self) -> bool {
        let t = self.text@;
        let max = (self.cs.len() - 1) as u64;
        &&& valid_text(t)
        &&& is_suffix_array(t, self.sa@)
        &&& 2 <= self.cs.len() <= usize::MAX
        &&& self.cs.len() - 1 <= C::max_code()
        &&& t.len() <= usize::MAX / 64
        &&& forall|i: int| 0 <= i < t.len() ==> #[trigger] t[i] <= max
        &&& wavelet_contents(self.bw) == bwt(t, self.sa@)
        &&& wavelet_width(self.bw) == floor_log2(max as nat) + 1
        &&& forall|c: int| 0 <= c < self.cs.len() ==> #[trigger] self.cs[c] == count_less(t, c as u64)
        &&& self.suffix_array.samples_of(self.sa@)
    }

    closed spec fn text(&self) -> Seq<u64> {
        self.text@
    }

    closed spec fn sa(&self) -> Seq<usize> {
        self.sa@
    }

    closed spec fn max_code(&self) -> u64 {
        (self.cs.len() - 1) as u64
    }

    closed spec fn lf2_spec(&self, c: u64, i: int) -> int {
        (count_less(self.text@, c) + rank(bwt(self.text@, self.sa@), c, i)) as int
    }

    closed spec fn lf_spec(&self, i: int) -> int {
        self.lf2_spec(bwt(self.text@, self.sa@)[i], i)
    }

    /// The LF mapping is exact when the terminator is the only zero of the text.
    closed spec fn steps_exact(&self) -> bool {
        forall|k: int| 0 <= k < self.text@.len() - 1 ==> #[trigger] self.text@[k] != 0
    }

    /// Stepping forward never stops.
    open spec fn stops_at_zero(&self) -> bool {
        false
    }

    proof fn lemma_wf(&self) {
        crate::util::lemma_floor_log2_bound(self.max_code() as nat);
    }

    proof fn lemma_step(&self, c: u64, q: Seq<u64>) {
        lemma_lt_step(self.text@, self.sa@, c, q);
        lemma_le_step(self.text@, self.sa@, c, q);
    }

    proof fn lemma_lf(&self, i: int) {
        let t = self.text@;
        let l = bwt(t, self.sa@);
        if l[i] != 0 {
            lemma_lf_nonzero(t, self.sa@, i);
        } else {
            lemma_lf_zero_single(t, self.sa@, i);
        }
        crate::util::lemma_cyclic_prev(self.sa@[i] as int, t.len() as int);
    }

    proof fn lemma_lf_injective(&self, i: int, j: int) {
        crate::rlfmi::lemma_lf_row_injective(self.text@, self.sa@, i, j);
    }

    proof fn lemma_lf_range(&self, i: int) {
        crate::rlfmi::lemma_lf_row_bound(self.text@, self.sa@, i);
    }

    fn len(&self) -> (r: usize) {
        wavelet_len(&self.bw)
    }

    fn get_l(&self, i: usize) -> (r: u64) {
        proof {
            crate::util::lemma_floor_log2_bound(self.max_code() as nat);
        }
        wavelet_get(&self.bw, i)
    }

    fn lf_map(&self, i: usize) -> (r: usize) {
        let c = self.get_l(i);
        proof {
            lemma_bwt_bounded(self.text@, self.sa@, self.max_code());
            self.lemma_counts(c);
            lemma_rank_step(bwt(self.text@, self.sa@), c, i as int);
            lemma_rank_bound(bwt(self.text@, self.sa@), c, i as int + 1);
        }
        self.lf_map2(c, i)
    }

    fn lf_map2(&self, c: u64, i: usize) -> (r: usize) {
        proof {
            self.lemma_counts(c);
            lemma_rank_bound(bwt(self.text@, self.sa@), c, i as int);
            crate::util::lemma_floor_log2_bound(self.max_code() as nat);
        }
        self.cs[c as usize] + wavelet_rank(&self.bw, i, c)
    }

    fn get_f(&self, i: usize) -> (r: u64) {
        first_char(&self.cs, i, Ghost(self.text@), Ghost(self.sa@))
    }

    fn fl_map(&self, i: usize) -> (r: Option<usize>) {
        let c = self.get_f(i);
        proof {
            let t = self.text@;
            lemma_first_column(t, self.sa@, i as int);
            self.lemma_counts(c);
            crate::util::lemma_floor_log2_bound(self.max_code() as nat);
        }
        let k = i - self.cs[c as usize];
        let j = wavelet_select(&self.bw, k, c);
        proof {
            assert(self.lf_spec(j as int) == i);
            if self.steps_exact() {
                self.lemma_lf(j as int);
                crate::util::lemma_cyclic_prev(self.sa@[j as int] as int, self.text@.len() as int);
                crate::util::lemma_cyclic_next(self.sa@[i as int] as int, self.text@.len() as int);
            }
        }
        Some(j)
    }
}

proof fn lemma_count_less_zero_is_zero(t: Seq<u64>)
    ensures
        count_less(t, 0) == 0,
    decreases t.len(),
{
    if t.len() > 0 {
        lemma_count_less_zero_is_zero(t.drop_last());
    }
}

impl<C: Character, S: SuffixArraySample + HeapSize> HeapSize for FMIndexBackend<C, S> {
    /// The layers of the wavelet matrix of the transform, the capacity of
    /// the vector of character counts, and the stored suffix-array entries.
    closed spec fn is_heap_size(&self, bytes: usize) -> bool {
        exists|cap: usize, s: usize|
            #![trigger vec_capacity_bound(cap, self.cs@.len(), vstd::layout::size_of::<usize>()), self.suffix_array.is_heap_size(s)]
            vec_capacity_bound(cap, self.cs@.len(), vstd::layout::size_of::<usize>()) && self.suffix_array.is_heap_size(s) && bytes == sat_add(
                sat_add(
                    wavelet_heap_bytes(wavelet_contents(self.bw), wavelet_width(self.bw)) as int,
                    sat_mul(cap as int, vstd::layout::size_of::<u64>() as int),
                ),
                s as int,
            )
    }

    fn heap_size(&self) -> (r: usize) {
        let cap = vec_capacity(&self.cs);
        let cs = bytes_of(cap, core::mem::size_of::<u64>());
        let s = self.suffix_array.heap_size();
        let r = wavelet_heap_size(&self.bw).saturating_add(cs).saturating_add(s);
        proof {
            assert(vec_capacity_bound(cap, self.cs@.len(), vstd::layout::size_of::<usize>()) && self.suffix_array.is_heap_size(s));
        }
        r
    }
}

impl<C: Character> HasPosition for FMIndexBackend<C, SuffixOrderSampledArray> {
    closed spec fn sample_rate(&self) -> nat {
        self.suffix_array.rate()
    }

    fn sample_at(&self, i: usize) -> (r: Option<usize>) {
        assert(self.suffix_array.holds(self.sa@));
        self.suffix_array.get(i)
    }
}

} // verus!
