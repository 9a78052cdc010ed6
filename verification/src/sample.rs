//! Sampled suffix arrays, kept in an index to answer locate queries.
use vstd::prelude::*;
use vstd::arithmetic::power2::{lemma_pow2_pos, lemma_pow2_unfold, pow2};
use vstd::arithmetic::div_mod::{lemma_div_denominator, lemma_div_is_ordered, lemma_fundamental_div_mod, lemma_mod_breakdown};
use vstd::bits::{lemma_usize_low_bits_mask_is_mod, lemma_usize_pow2_no_overflow, lemma_usize_shl_is_mul, lemma_usize_shr_is_div, low_bits_mask};
use vers_vecs::BitVec;
use crate::backend::HeapSize;
use crate::succinct::{
    bit_vec_append_bits, bit_vec_bits, bit_vec_get_bits, bit_vec_heap_size, bit_vec_new, bits_of, value_of, word_bytes,
};
use crate::util::{floor_log2, lemma_below_pow2_log2, log2_usize};

verus! {

/// A suffix array of which only every `2^level`-th entry is stored.
pub struct SuffixOrderSampledArray {
    level: usize,
    word_size: usize,
    sa: BitVec,
    len: usize,
    samples: Ghost<Seq<usize>>,
}

/// The bits of `vals`, each value in `w` bits, one after the other.
pub open spec fn packed(vals: Seq<usize>, w: nat) -> Seq<bool>
    decreases vals.len(),
{
    if vals.len() == 0 {
        Seq::empty()
    } else {
        packed(vals.drop_last(), w) + bits_of(vals.last() as u64, w)
    }
}

/// The number of entries kept when sampling a suffix array of `n` entries
/// at level `level`: every `2^level`-th entry, or every entry when there are
/// no more than `2^level` of them.
pub open spec fn sample_entries(n: nat, level: nat) -> nat {
    if n == 0 {
        0
    } else if n <= pow2(level) {
        n
    } else {
        (n - 1) as nat / pow2(level) + 1
    }
}

impl SuffixOrderSampledArray {
    /// The number of entries stored: `get` answers one row for each.
    pub closed spec fn entries(&self) -> nat {
        self.samples@.len()
    }

    /// The number of rows between two stored entries.
    pub closed spec fn rate(&self) -> nat {
        pow2(self.level as nat)
    }

    /// This array holds the samples of the suffix array `sa`.
    pub closed spec fn holds(&self, sa: Seq<usize>) -> bool {
        &&& self.len == sa.len()
        &&& self.level < usize::BITS
        &&& sa.len() > 0 ==> {
            &&& 1 <= self.word_size <= 64
            &&& forall|i: int| 0 <= i < sa.len() ==> (#[trigger] sa[i] as nat) < pow2(self.word_size as nat)
            &&& self.samples@.len() == (sa.len() - 1) as nat / pow2(self.level as nat) + 1
            &&& forall|k: int|
                0 <= k < self.samples@.len() ==> #[trigger] self.samples@[k] == sa[k * pow2(self.level as nat)]
            &&& bit_vec_bits(self.sa) == packed(self.samples@, self.word_size as nat)
            &&& self.samples@.len() * self.word_size <= usize::MAX
        }
    }

    /// The number of bits the stored entries take, one fixed-width word each.
    pub closed spec fn stored_bits(&self) -> nat {
        bit_vec_bits(self.sa).len()
    }

    /// The stored entry for row `i`, if it is stored.
    pub fn get(&self, i: usize) -> (r: Option<usize>)
        requires
            exists|sa: Seq<usize>| self.holds(sa),
        ensures
            self.rate() >= 1,
            forall|sa: Seq<usize>|
                #[trigger] self.holds(sa) ==> r == if i < sa.len() && i as nat % self.rate() == 0 {
                    Some(sa[i as int])
                } else {
                    None
                },
    {
        let ghost sa = choose|sa: Seq<usize>| self.holds(sa);
        proof {
            lemma_pow2_pos(self.level as nat);
        }
        if i >= self.len {
            return None;
        }
        proof {
            lemma_usize_pow2_no_overflow(self.level as nat);
            lemma_usize_shl_is_mul(1, self.level);
            lemma_usize_low_bits_mask_is_mod(i, self.level as nat);
            lemma_usize_shr_is_div(i, self.level);
            lemma_pow2_pos(self.level as nat);
        }
        let mask: usize = (1usize << self.level) - 1;
        assert(mask == low_bits_mask(self.level as nat) as usize);
        if i & mask == 0 {
            let k = i >> self.level;
            let ghost p = pow2(self.level as nat) as int;
            proof {
                lemma_div_is_ordered(i as int, (self.len - 1) as int, p);
                assert(k < self.samples@.len());
                lemma_mul_le(k as int, self.samples@.len() - 1, self.word_size as int);
                assert((self.samples@.len() - 1) * self.word_size + self.word_size == self.samples@.len() * self.word_size) by (nonlinear_arith);
                lemma_packed_extract(self.samples@, self.word_size as nat, k as int);
                lemma_fundamental_div_mod(i as int, p);
            }
            let v = bit_vec_get_bits(&self.sa, k * self.word_size, self.word_size);
            proof {
                lemma_value_of_bits(self.samples@[k as int] as u64, self.word_size as nat);
                assert(k * p == i);
                assert(self.samples@[k as int] == sa[i as int]);
                assert(sa[i as int] < pow2(self.word_size as nat));
                vstd::arithmetic::div_mod::lemma_small_mod(sa[i as int] as nat, pow2(self.word_size as nat));
                assert forall|sa2: Seq<usize>| #[trigger] self.holds(sa2) implies sa2[i as int] == sa[i as int] by {
                    assert(self.samples@[k as int] == sa2[k * p]);
                }
            }
            Some(v as usize)
        } else {
            None
        }
    }

    /// Sample the suffix array `sa`, keeping every `2^level`-th entry (every
    /// entry when the array is not longer than `2^level`).
    pub fn sample(sa: &Vec<usize>, level: usize) -> (r: Self)
        requires
            level < usize::BITS,
            sa.len() <= usize::MAX / 64,
            forall|i: int| 0 <= i < sa.len() ==> #[trigger] sa[i] < sa.len(),
        ensures
            r.holds(sa@),
            r.entries() == sample_entries(sa.len() as nat, level as nat),
            r.rate() == if sa.len() == 0 || sa.len() <= pow2(level as nat) {
                1
            } else {
                pow2(level as nat)
            },
    {
        if sa.len() == 0 {
            let r = Self::default();
            proof {
                vstd::arithmetic::power2::lemma2_to64();
            }
            return r;
        }
        let n = sa.len();
        let word_size = log2_usize(n) + 1;
        proof {
            lemma_below_pow2_log2(n as nat);
            lemma_usize_pow2_no_overflow(level as nat);
            lemma_usize_shl_is_mul(1, level);
            vstd::arithmetic::power2::lemma2_to64();
        }
        let mut level = level;
        if n <= (1usize << level) {
            level = 0;
        }
        let ghost p = pow2(level as nat) as int;
        proof {
            lemma_usize_pow2_no_overflow(level as nat);
            lemma_usize_shr_is_div((n - 1) as usize, level);
            lemma_pow2_pos(level as nat);
        }
        let sa_samples_len = ((n - 1) >> level) + 1;
        proof {
            vstd::arithmetic::div_mod::lemma_div_is_ordered_by_denominator((n - 1) as int, 1, p);
            assert(sa_samples_len <= n);
        }
        let mut bits = bit_vec_new();
        let ghost mut samples: Seq<usize> = Seq::empty();
        let mut i: usize = 0;
        while i < sa_samples_len
            invariant
                n == sa.len(),
                1 <= word_size <= 64,
                n < pow2(word_size as nat),
                level < usize::BITS,
                p == pow2(level as nat),
                p > 0,
                sa_samples_len == (n - 1) as nat / p as nat + 1,
                sa_samples_len <= n,
                n <= usize::MAX / 64,
                i <= sa_samples_len,
                samples.len() == i,
                forall|k: int| 0 <= k < i ==> #[trigger] samples[k] == sa@[k * p],
                bit_vec_bits(bits) == packed(samples, word_size as nat),
                forall|k: int| 0 <= k < sa.len() ==> #[trigger] sa[k] < sa.len(),
            decreases sa_samples_len - i,
        {
            proof {
                vstd::arithmetic::div_mod::lemma_fundamental_div_mod((n - 1) as int, p);
                lemma_mul_le(i as int, ((n - 1) as nat / p as nat) as int, p);
                assert(i * p <= n - 1);
                lemma_usize_shl_is_mul(i, level);
            }
            let j = i << level;
            bit_vec_append_bits(&mut bits, sa[j] as u64, word_size);
            proof {
                let old_samples = samples;
                samples = samples.push(sa[j as int]);
                assert(samples.drop_last() =~= old_samples);
            }
            i = i + 1;
        }
        proof {
            lemma_mul_le(sa_samples_len as int, n as int, word_size as int);
            assert(n * word_size <= n * 64) by (nonlinear_arith)
                requires word_size <= 64;
            assert forall|k: int| 0 <= k < n implies (#[trigger] sa@[k] as nat) < pow2(word_size as nat) by {
                assert(sa[k] < n);
            }
        }
        SuffixOrderSampledArray { level, word_size, sa: bits, len: n, samples: Ghost(samples) }
    }
}

proof fn lemma_mul_le(a: int, b: int, c: int)
    requires
        0 <= a <= b,
        0 <= c,
    ensures
        a * c <= b * c,
{
    assert(a * c <= b * c) by (nonlinear_arith)
        requires
            0 <= a <= b,
            0 <= c,
    ;
}

/// Reading back the bits of `v` gives `v` modulo `2^w`.
proof fn lemma_value_of_bits(v: u64, w: nat)
    ensures
        value_of(bits_of(v, w)) == (v as nat) % pow2(w),
    decreases w,
{
    if w == 0 {
        vstd::arithmetic::power2::lemma2_to64();
        assert(bits_of(v, 0) =~= Seq::<bool>::empty());
    } else {
        let b = bits_of(v, w);
        let v2 = (v as nat / 2) as u64;
        assert(b.drop_first() =~= bits_of(v2, (w - 1) as nat)) by {
            assert forall|k: int| 0 <= k < w - 1 implies #[trigger] b.drop_first()[k] == bits_of(v2, (w - 1) as nat)[k] by {
                lemma_pow2_pos(k as nat);
                lemma_div_denominator(v as int, 2, pow2(k as nat) as int);
                lemma_pow2_unfold((k + 1) as nat);
            }
        }
        vstd::arithmetic::power2::lemma2_to64();
        assert(v as nat / pow2(0) == v as nat);
        assert(b[0] == ((v as nat) % 2 == 1));
        lemma_value_of_bits(v2, (w - 1) as nat);
        lemma_pow2_pos((w - 1) as nat);
        lemma_pow2_unfold(w);
        lemma_mod_breakdown(v as int, 2, pow2((w - 1) as nat) as int);
    }
}

/// The `k`-th value of a packed sequence occupies bits `k*w .. k*w + w`.
proof fn lemma_packed_extract(vals: Seq<usize>, w: nat, k: int)
    requires
        0 <= k < vals.len(),
    ensures
        packed(vals, w).len() == vals.len() * w,
        packed(vals, w).subrange(k * w, k * w + w) == bits_of(vals[k] as u64, w),
    decreases vals.len(),
{
    lemma_packed_len(vals, w);
    let init = packed(vals.drop_last(), w);
    lemma_packed_len(vals.drop_last(), w);
    assert((vals.len() - 1) * w + w == vals.len() * w) by (nonlinear_arith);
    if k == vals.len() - 1 {
        assert(packed(vals, w).subrange(k * w, k * w + w) =~= bits_of(vals[k] as u64, w));
    } else {
        lemma_packed_extract(vals.drop_last(), w, k);
        lemma_mul_le(k + 1, vals.len() - 1, w as int);
        assert((k + 1) * w == k * w + w) by (nonlinear_arith);
        assert(packed(vals, w).subrange(k * w, k * w + w) =~= init.subrange(k * w, k * w + w));
    }
}

proof fn lemma_packed_len(vals: Seq<usize>, w: nat)
    ensures
        packed(vals, w).len() == vals.len() * w,
    decreases vals.len(),
{
    if vals.len() > 0 {
        lemma_packed_len(vals.drop_last(), w);
        assert((vals.len() - 1) * w + w == vals.len() * w) by (nonlinear_arith);
    }
}

impl HeapSize for SuffixOrderSampledArray {
    /// The 64-bit words that hold the stored entries.
    open spec fn is_heap_size(&self, bytes: usize) -> bool {
        bytes == word_bytes(self.stored_bits())
    }

    fn heap_size(&self) -> (r: usize) {
        bit_vec_heap_size(&self.sa)
    }
}

impl Default for SuffixOrderSampledArray {
    /// The samples of an empty suffix array.
    fn default() -> (r: Self)
        ensures
            r.holds(Seq::empty()),
            r.entries() == 0,
            r.rate() == 1,
    {
        proof {
            vstd::arithmetic::power2::lemma2_to64();
        }
        SuffixOrderSampledArray { level: 0, word_size: 0, sa: bit_vec_new(), len: 0, samples: Ghost(Seq::empty()) }
    }
}

} // verus!
