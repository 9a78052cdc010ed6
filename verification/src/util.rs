//! Integer helpers.
use vstd::prelude::*;
use vstd::std_specs::bits::u64_leading_zeros;
use vstd::arithmetic::power2::{lemma_pow2_unfold, pow2};

verus! {

/// The floor of the base-2 logarithm of a positive number.
pub open spec fn floor_log2(x: nat) -> nat
    decreases x,
{
    if x <= 1 {
        0
    } else {
        1 + floor_log2(x / 2)
    }
}

proof fn lemma_leading_zeros_log2(x: u64)
    requires
        x > 0,
    ensures
        63 - u64_leading_zeros(x) == floor_log2(x as nat),
    decreases x,
{
    reveal(u64_leading_zeros);
    if x == 1 {
        assert(u64_leading_zeros(0) == 64);
        assert(u64_leading_zeros(1) == u64_leading_zeros(0) - 1);
    } else {
        lemma_leading_zeros_log2(x / 2);
    }
}

/// The floor of the base-2 logarithm of `x`, that is, the position of its
/// highest set bit.
pub fn log2_usize(x: usize) -> (r: usize)
    requires
        x > 0,
    ensures
        r == floor_log2(x as nat),
        r < 64,
{
    let y: u64 = x as u64;
    let lz: u32 = y.leading_zeros();
    proof {
        lemma_leading_zeros_log2(y);
        vstd::std_specs::bits::axiom_u64_leading_zeros(y);
    }
    (63 - lz) as usize
}

/// A positive number is below 2 to the power of one more than its logarithm.
pub proof fn lemma_below_pow2_log2(x: nat)
    requires
        x >= 1,
    ensures
        x < pow2(floor_log2(x) + 1),
    decreases x,
{
    lemma_pow2_unfold(floor_log2(x) + 1);
    if x >= 2 {
        lemma_below_pow2_log2(x / 2);
        lemma_pow2_unfold(floor_log2(x / 2) + 1);
    } else {
        vstd::arithmetic::power2::lemma2_to64();
    }
}

/// The logarithm of a number below 2^64 is below 64.
pub proof fn lemma_floor_log2_bound(x: nat)
    requires
        1 <= x < 0x1_0000_0000_0000_0000,
    ensures
        floor_log2(x) < 64,
{
    lemma_below_pow2_log2(x);
    if floor_log2(x) >= 64 {
        lemma_pow2_monotone_exp(64, floor_log2(x));
        vstd::arithmetic::power2::lemma2_to64_rest();
        lemma_pow2_monotone_exp(64, floor_log2(x) + 1);
        lemma_floor_log2_le(x);
    }
}

proof fn lemma_floor_log2_le(x: nat)
    requires
        x >= 1,
    ensures
        pow2(floor_log2(x)) <= x,
    decreases x,
{
    vstd::arithmetic::power2::lemma2_to64();
    if x >= 2 {
        lemma_floor_log2_le(x / 2);
        lemma_pow2_unfold(floor_log2(x / 2) + 1);
    }
}

proof fn lemma_pow2_monotone_exp(a: nat, b: nat)
    requires
        a <= b,
    ensures
        pow2(a) <= pow2(b),
    decreases b - a,
{
    if a < b {
        lemma_pow2_monotone_exp(a, (b - 1) as nat);
        lemma_pow2_unfold(b);
        vstd::arithmetic::power2::lemma_pow2_pos((b - 1) as nat);
    }
}

/// A number at most `y` fits where one more than the logarithm of `y` bits fit.
pub proof fn lemma_pow2_monotone(x: nat, y: nat, w: nat)
    requires
        x <= y,
        y >= 1,
        w == floor_log2(y) + 1,
    ensures
        x < pow2(w),
{
    lemma_below_pow2_log2(y);
}

/// Stepping back one position, cyclically.
pub proof fn lemma_cyclic_prev(a: int, n: int)
    requires
        0 <= a < n,
    ensures
        (a + n - 1) % n == if a == 0 { n - 1 } else { a - 1 },
{
    if a == 0 {
        vstd::arithmetic::div_mod::lemma_small_mod((n - 1) as nat, n as nat);
    } else {
        vstd::arithmetic::div_mod::lemma_mod_add_multiples_vanish(a - 1, n);
        vstd::arithmetic::div_mod::lemma_small_mod((a - 1) as nat, n as nat);
    }
}

/// Stepping forward one position, cyclically.
pub proof fn lemma_cyclic_next(a: int, n: int)
    requires
        0 <= a < n,
    ensures
        (a + 1) % n == if a == n - 1 { 0 } else { a + 1 },
{
    if a == n - 1 {
        vstd::arithmetic::div_mod::lemma_mod_self_0(n);
    } else {
        vstd::arithmetic::div_mod::lemma_small_mod((a + 1) as nat, n as nat);
    }
}

/// `a + b`, saturating at the largest `usize`.
pub open spec fn sat_add(a: int, b: int) -> int {
    if a + b > usize::MAX {
        usize::MAX as int
    } else {
        a + b
    }
}

/// `a * b`, saturating at the largest `usize`.
pub open spec fn sat_mul(a: int, b: int) -> int {
    if a * b > usize::MAX {
        usize::MAX as int
    } else {
        a * b
    }
}

/// The bytes taken by `count` items of `size` bytes each, saturating at the
/// largest `usize`.
pub(crate) fn bytes_of(count: usize, size: usize) -> (r: usize)
    ensures
        r == sat_mul(count as int, size as int),
{
    match count.checked_mul(size) {
        Some(b) => b,
        None => usize::MAX,
    }
}

} // verus!
