//! The succinct data structures of `vers_vecs` that the indexes are built on:
//! bit vectors, bit vectors with rank and select, and wavelet matrices.
//!
//! Each structure is modelled by what it holds; the functions below are the
//! calls into `vers_vecs` that the indexes make, with what its documentation
//! and source say of them.
use vstd::prelude::*;
use vstd::arithmetic::power2::pow2;
use vers_vecs::{BitVec, RsVec, WaveletMatrix};

verus! {

#[verifier::external_type_specification]
#[verifier::external_body]
pub struct ExWaveletMatrix(WaveletMatrix);

#[verifier::external_type_specification]
#[verifier::external_body]
pub struct ExRsVec(RsVec);

#[verifier::external_type_specification]
#[verifier::external_body]
pub struct ExBitVec(BitVec);

/// The sequence of words a wavelet matrix encodes.
pub uninterp spec fn wavelet_contents(wm: WaveletMatrix) -> Seq<u64>;

/// The number of bits per word a wavelet matrix was built with.
pub uninterp spec fn wavelet_width(wm: WaveletMatrix) -> nat;

/// The bits a rank/select bit vector holds.
pub uninterp spec fn rs_bits(v: RsVec) -> Seq<bool>;

/// The bits a bit vector holds.
pub uninterp spec fn bit_vec_bits(v: BitVec) -> Seq<bool>;

/// The number of set bits in `s`.
pub open spec fn count_ones(s: Seq<bool>) -> nat
    decreases s.len(),
{
    if s.len() == 0 {
        0
    } else {
        count_ones(s.drop_last()) + if s.last() {
            1nat
        } else {
            0nat
        }
    }
}

/// The number of set bits among the first `i` bits of `s`.
pub open spec fn rank1(s: Seq<bool>, i: int) -> nat {
    count_ones(s.take(i))
}

/// The lowest `len` bits of `v`, least significant first.
pub open spec fn bits_of(v: u64, len: nat) -> Seq<bool> {
    Seq::new(len, |k: int| (v as nat / pow2(k as nat)) % 2 == 1)
}

/// The number whose bits, least significant first, are `s`.
pub open spec fn value_of(s: Seq<bool>) -> nat
    decreases s.len(),
{
    if s.len() == 0 {
        0
    } else {
        (if s[0] {
            1nat
        } else {
            0nat
        }) + 2 * value_of(s.drop_first())
    }
}

/// `x` fits in `width` bits.
pub open spec fn fits(x: u64, width: nat) -> bool {
    x < pow2(width)
}

/// The number of occurrences of `c` among the first `i` words of `s`.
pub open spec fn word_rank(s: Seq<u64>, c: u64, i: int) -> nat {
    crate::model::rank(s, c, i)
}

/// `WaveletMatrix::from_slice`: the matrix encodes `sequence`, each word in
/// `bits_per_element` bits. Words must fit in that width (wider words are
/// truncated by the crate); at least one bit per word is asked for, since a
/// matrix of zero-bit words reports length zero.
#[verifier::external_body]
pub(crate) fn wavelet_from_slice(sequence: &[u64], bits_per_element: u16) -> (r: WaveletMatrix)
    requires
        1 <= bits_per_element <= 64,
        forall|i: int| 0 <= i < sequence.len() ==> fits(#[trigger] sequence[i], bits_per_element as nat),
    ensures
        wavelet_contents(r) == sequence@,
        wavelet_width(r) == bits_per_element,
{
    WaveletMatrix::from_slice(sequence, bits_per_element)
}

/// `WaveletMatrix::len`: the number of encoded words (for a matrix with at
/// least one bit per word).
#[verifier::external_body]
pub(crate) fn wavelet_len(wm: &WaveletMatrix) -> (r: usize)
    requires
        wavelet_width(*wm) >= 1,
    ensures
        r == wavelet_contents(*wm).len(),
{
    wm.len()
}

/// `WaveletMatrix::get_u64_unchecked`: the `i`-th encoded word.
#[verifier::external_body]
pub(crate) fn wavelet_get(wm: &WaveletMatrix, i: usize) -> (r: u64)
    requires
        1 <= wavelet_width(*wm) <= 64,
        i < wavelet_contents(*wm).len(),
    ensures
        r == wavelet_contents(*wm)[i as int],
{
    wm.get_u64_unchecked(i)
}

/// `WaveletMatrix::rank_u64_unchecked`: the number of occurrences of
/// `symbol` among the first `i` words.
#[verifier::external_body]
pub(crate) fn wavelet_rank(wm: &WaveletMatrix, i: usize, symbol: u64) -> (r: usize)
    requires
        1 <= wavelet_width(*wm) <= 64,
        i <= wavelet_contents(*wm).len(),
        fits(symbol, wavelet_width(*wm)),
    ensures
        r == word_rank(wavelet_contents(*wm), symbol, i as int),
{
    wm.rank_u64_unchecked(i, symbol)
}

/// `WaveletMatrix::select_u64_unchecked`: the position of the occurrence of
/// `symbol` that has `rank` occurrences before it (asked only when it exists).
#[verifier::external_body]
pub(crate) fn wavelet_select(wm: &WaveletMatrix, rank: usize, symbol: u64) -> (r: usize)
    requires
        1 <= wavelet_width(*wm) <= 64,
        fits(symbol, wavelet_width(*wm)),
        rank < crate::model::occ(wavelet_contents(*wm), symbol),
    ensures
        r < wavelet_contents(*wm).len(),
        wavelet_contents(*wm)[r as int] == symbol,
        word_rank(wavelet_contents(*wm), symbol, r as int) == rank,
{
    wm.select_u64_unchecked(rank, symbol)
}

/// `BitVec::new`: an empty bit vector.
#[verifier::external_body]
pub(crate) fn bit_vec_new() -> (r: BitVec)
    ensures
        bit_vec_bits(r) == Seq::<bool>::empty(),
{
    BitVec::new()
}

/// `BitVec::from_zeros`: `len` cleared bits.
#[verifier::external_body]
pub(crate) fn bit_vec_from_zeros(len: usize) -> (r: BitVec)
    ensures
        bit_vec_bits(r) == Seq::new(len as nat, |i: int| false),
{
    BitVec::from_zeros(len)
}

/// `BitVec::append`: appends one bit.
#[verifier::external_body]
pub(crate) fn bit_vec_append(bv: &mut BitVec, bit: bool)
    ensures
        bit_vec_bits(*final(bv)) == bit_vec_bits(*old(bv)).push(bit),
{
    bv.append(bit)
}

/// `BitVec::append_bits`: appends the lowest `len` bits of `bits`, least
/// significant first.
#[verifier::external_body]
pub(crate) fn bit_vec_append_bits(bv: &mut BitVec, bits: u64, len: usize)
    requires
        len <= 64,
    ensures
        bit_vec_bits(*final(bv)) == bit_vec_bits(*old(bv)) + bits_of(bits, len as nat),
{
    bv.append_bits(bits, len)
}

/// `BitVec::set`: sets the bit at `pos` to the lowest bit of `value`; fails
/// (and changes nothing) when `pos` is out of range.
#[verifier::external_body]
pub(crate) fn bit_vec_set(bv: &mut BitVec, pos: usize, value: u64) -> (r: bool)
    ensures
        r == (pos < bit_vec_bits(*old(bv)).len()),
        r ==> bit_vec_bits(*final(bv)) == bit_vec_bits(*old(bv)).update(pos as int, value % 2 == 1),
        !r ==> bit_vec_bits(*final(bv)) == bit_vec_bits(*old(bv)),
{
    bv.set(pos, value).is_ok()
}

/// `BitVec::is_bit_set`: the bit at `pos`, or nothing when `pos` is out of
/// range.
#[verifier::external_body]
pub(crate) fn bit_vec_is_bit_set(bv: &BitVec, pos: usize) -> (r: Option<bool>)
    ensures
        r == (if pos < bit_vec_bits(*bv).len() {
            Some(bit_vec_bits(*bv)[pos as int])
        } else {
            None
        }),
{
    bv.is_bit_set(pos)
}

/// `BitVec::get_bits_unchecked`: the number formed by the `len` bits from
/// `pos` on, the bit at `pos` being the least significant.
#[verifier::external_body]
pub(crate) fn bit_vec_get_bits(bv: &BitVec, pos: usize, len: usize) -> (r: u64)
    requires
        1 <= len <= 64,
        pos + len <= bit_vec_bits(*bv).len(),
    ensures
        r == value_of(bit_vec_bits(*bv).subrange(pos as int, pos + len)),
{
    bv.get_bits_unchecked(pos, len)
}

/// `RsVec::from_bit_vec`: a rank/select structure over the same bits.
#[verifier::external_body]
pub(crate) fn rs_from_bit_vec(bv: BitVec) -> (r: RsVec)
    ensures
        rs_bits(r) == bit_vec_bits(bv),
{
    RsVec::from_bit_vec(bv)
}

/// `RsVec::rank1`: the number of set bits before position `pos`.
#[verifier::external_body]
pub(crate) fn rs_rank1(v: &RsVec, pos: usize) -> (r: usize)
    requires
        pos <= rs_bits(*v).len(),
    ensures
        r == rank1(rs_bits(*v), pos as int),
{
    v.rank1(pos)
}

/// `RsVec::select1`: the position of the set bit with `rank` set bits
/// before it, or the length of the vector when there are not that many set
/// bits.
#[verifier::external_body]
pub(crate) fn rs_select1(v: &RsVec, rank: usize) -> (r: usize)
    ensures
        rank < count_ones(rs_bits(*v)) ==> {
            &&& r < rs_bits(*v).len()
            &&& rs_bits(*v)[r as int]
            &&& rank1(rs_bits(*v), r as int) == rank
        },
        rank >= count_ones(rs_bits(*v)) ==> r == rs_bits(*v).len(),
{
    v.select1(rank)
}

/// The bytes that the layers of a wavelet matrix encoding `contents`, each
/// word in `width` bits, hold on the heap (the sum over its rank/select
/// layers; the layers are determined by the contents and the width).
pub uninterp spec fn wavelet_heap_bytes(contents: Seq<u64>, width: nat) -> usize;

/// The bytes that a rank/select vector over `bits` holds on the heap (its
/// words and the rank and select blocks computed from them).
pub uninterp spec fn rs_heap_bytes(bits: Seq<bool>) -> usize;

/// The bytes taken by `len` bits stored in 64-bit words.
pub open spec fn word_bytes(len: nat) -> int {
    (((len + 63) / 64) * 8) as int
}

/// `WaveletMatrix::heap_size`: the bytes its layers hold on the heap, a
/// function of what the matrix encodes and of its width.
#[verifier::external_body]
pub(crate) fn wavelet_heap_size(wm: &WaveletMatrix) -> (r: usize)
    ensures
        r == wavelet_heap_bytes(wavelet_contents(*wm), wavelet_width(*wm)),
{
    wm.heap_size()
}

/// `RsVec::heap_size`: the bytes the vector and its rank/select blocks hold
/// on the heap, a function of its bits.
#[verifier::external_body]
pub(crate) fn rs_heap_size(v: &RsVec) -> (r: usize)
    ensures
        r == rs_heap_bytes(rs_bits(*v)),
{
    v.heap_size()
}

/// `BitVec::heap_size`: the bytes of the 64-bit words that hold the bits
/// (`data.len() * size_of::<u64>()`, the vector keeping one word per 64
/// bits begun).
#[verifier::external_body]
pub(crate) fn bit_vec_heap_size(bv: &BitVec) -> (r: usize)
    ensures
        r == word_bytes(bit_vec_bits(*bv).len()),
{
    bv.heap_size()
}

/// `cap` is a capacity a vector of `len` elements of `elem` bytes each may
/// report: never less than its length, and never more than an allocation
/// can hold (`isize::MAX` bytes).
pub open spec fn vec_capacity_bound(cap: usize, len: nat, elem: nat) -> bool {
    &&& cap >= len
    &&& cap * elem <= isize::MAX
}

/// `Vec::capacity`: the number of elements the vector can hold without
/// reallocating. It is never less than the length, and a vector never
/// allocates more than `isize::MAX` bytes (std documents that allocating
/// more panics); the rest depends on the allocation and is not stated.
#[verifier::external_body]
pub(crate) fn vec_capacity<T>(v: &Vec<T>) -> (r: usize)
    ensures
        vec_capacity_bound(r, v@.len(), vstd::layout::size_of::<T>()),
{
    v.capacity()
}

} // verus!
