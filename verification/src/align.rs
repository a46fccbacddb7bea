//! Address and size alignment helpers.
use vstd::prelude::*;
use vstd::arithmetic::power2::{pow2, lemma_pow2_pos, lemma2_to64};
use vstd::bits::lemma_usize_low_bits_mask_is_mod;
use vstd::arithmetic::div_mod::lemma_fundamental_div_mod;

verus! {

/// `n` is a power of two that fits in a machine word.
pub open spec fn is_power_of_two(n: usize) -> bool {
    exists|k: nat| k < usize::BITS && n == #[trigger] pow2(k)
}

/// `x` rounded down to a multiple of `n`.
pub open spec fn spec_align_down(x: int, n: int) -> int {
    (x / n) * n
}

/// `x` rounded up to a multiple of `n`.
pub open spec fn spec_align_up(x: int, n: int) -> int {
    ((x + n - 1) / n) * n
}

proof fn lemma_mask_is_mod(x: usize, n: usize)
    requires
        is_power_of_two(n),
    ensures
        n > 0,
        x & !((n - 1) as usize) == x - x % n,
        x - x % n == (x as int / n as int) * n,
        x & ((n - 1) as usize) == x % n,
{
    let k = choose|k: nat| k < usize::BITS && n == #[trigger] pow2(k);
    lemma_pow2_pos(k);
    lemma_usize_low_bits_mask_is_mod(x, k);
    lemma_fundamental_div_mod(x as int, n as int);
    let m = (n - 1) as usize;
    assert(x & !m == (x - (x & m)) as usize) by (bit_vector);
    assert(x & m <= x) by (bit_vector);
}

/// Rounds `addr` down to a multiple of `align`, a power of two.
pub fn align_down(addr: usize, align: usize) -> (r: usize)
    requires
        is_power_of_two(align),
    ensures
        r == spec_align_down(addr as int, align as int),
{
    proof {
        lemma_mask_is_mod(addr, align);
    }
    addr & !(align - 1)
}

/// Rounds `x` up to a multiple of `align`, a power of two.
pub fn round_up(x: usize, align: usize) -> (r: usize)
    requires
        is_power_of_two(align),
        x + align - 1 <= usize::MAX,
    ensures
        r == spec_align_up(x as int, align as int),
{
    proof {
        lemma_mask_is_mod((x + align - 1) as usize, align);
    }
    (x + (align - 1)) & !(align - 1)
}

/// Rounds `x` down to a multiple of `align`, a power of two.
pub fn round_down(x: usize, align: usize) -> (r: usize)
    requires
        is_power_of_two(align),
    ensures
        r == spec_align_down(x as int, align as int),
{
    align_down(x, align)
}

/// Whether `x` is a multiple of `align`, a power of two.
pub fn is_aligned(x: usize, align: usize) -> (r: bool)
    requires
        is_power_of_two(align),
    ensures
        r == (x % align == 0),
{
    proof {
        lemma_mask_is_mod(x, align);
    }
    (x & (align - 1)) == 0
}

} // verus!

verus! {

/// `pow2(k)` is a power of two in the sense of [is_power_of_two].
pub proof fn lemma_power_of_two(n: usize, k: nat)
    requires
        k < 32,
        n == pow2(k),
    ensures
        is_power_of_two(n),
{
    assert(k < usize::BITS);
}

/// The allocation granule of eight bytes is a power of two.
pub proof fn lemma_eight_is_power_of_two()
    ensures
        is_power_of_two(8),
{
    lemma2_to64();
    lemma_power_of_two(8, 3);
}

} // verus!
