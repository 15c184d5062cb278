//! Facts that tie shifts and trailing zero bits to powers of two.

use vstd::arithmetic::power2::{lemma2_to64, lemma_pow2_pos, lemma_pow2_strictly_increases, lemma_pow2_unfold, pow2};
use vstd::bits::{lemma_u64_low_bits_mask_is_mod, lemma_u64_pow2_no_overflow, lemma_u64_shl_is_mul, low_bits_mask};
use vstd::arithmetic::div_mod::{lemma_fundamental_div_mod, lemma_mod_multiples_basic};
use vstd::prelude::*;
use vstd::std_specs::bits::{axiom_u64_trailing_zeros, u64_trailing_zeros};

verus! {

/// `pos` is a multiple of `2^shift`.
pub open spec fn aligned(pos: int, shift: nat) -> bool {
    pos % (pow2(shift) as int) == 0
}

/// Powers of two up to `2^32` stay within `u64`, and grow with the exponent.
pub proof fn lemma_pow2_le_32(shift: nat)
    requires
        shift <= 32,
    ensures
        1 <= pow2(shift) <= 0x1_0000_0000,
{
    lemma_pow2_pos(shift);
    lemma2_to64();
    if shift < 32 {
        lemma_pow2_strictly_increases(shift, 32);
    }
}

/// A left shift of one is a power of two.
pub proof fn lemma_shl_one(shift: u64)
    requires
        shift <= 32,
    ensures
        1u64 << shift == pow2(shift as nat),
{
    lemma_pow2_le_32(shift as nat);
    lemma_u64_shl_is_mul(1u64, shift);
}

/// A multiple of `2^(shift + 1)` is a multiple of `2^shift`.
pub proof fn lemma_aligned_step(pos: int, shift: nat)
    requires
        aligned(pos, shift + 1),
    ensures
        aligned(pos, shift),
{
    lemma_pow2_unfold(shift + 1);
    lemma_pow2_pos(shift);
    let m: int = pow2(shift) as int;
    let q: int = pos / (2 * m);
    lemma_fundamental_div_mod(pos, 2 * m);
    assert(pos == (2 * q) * m) by (nonlinear_arith)
        requires
            pos == (2 * m) * q,
    ;
    lemma_mod_multiples_basic(2 * q, m);
}

/// Alignment to a larger power of two implies alignment to every smaller one.
pub proof fn lemma_aligned_down(pos: int, high: nat, low: nat)
    requires
        low <= high,
        aligned(pos, high),
    ensures
        aligned(pos, low),
    decreases high - low,
{
    if low < high {
        lemma_aligned_step(pos, (high - 1) as nat);
        lemma_aligned_down(pos, (high - 1) as nat, low);
    }
}

/// Blocks of powers of two nest: a block of `2^small` addresses that is
/// aligned to its size and begins inside an aligned block of `2^large`
/// addresses, with `small <= large`, ends inside it too.
pub proof fn lemma_blocks_nest(inner: int, small: nat, outer: int, large: nat)
    requires
        small <= large,
        aligned(inner, small),
        aligned(outer, large),
        outer <= inner < outer + pow2(large),
    ensures
        inner + pow2(small) <= outer + pow2(large),
{
    let unit: int = pow2(small) as int;
    let many: int = pow2((large - small) as nat) as int;
    let whole: int = pow2(large) as int;
    lemma_pow2_pos(small);
    lemma_pow2_pos((large - small) as nat);
    vstd::arithmetic::power2::lemma_pow2_adds(small, (large - small) as nat);
    assert(whole == unit * many);
    let qi: int = inner / unit;
    let qo: int = outer / whole;
    lemma_fundamental_div_mod(inner, unit);
    lemma_fundamental_div_mod(outer, whole);
    assert(inner == unit * qi);
    assert(outer == whole * qo);
    assert(outer + whole == unit * (many * qo + many)) by (nonlinear_arith)
        requires
            outer == whole * qo,
            whole == unit * many,
    ;
    assert(qi < many * qo + many) by (nonlinear_arith)
        requires
            unit * qi < unit * (many * qo + many),
            unit > 0,
    ;
    assert(unit * qi + unit <= unit * (many * qo + many)) by (nonlinear_arith)
        requires
            qi + 1 <= many * qo + many,
            unit > 0,
    ;
}

/// Two multiples of `2^shift` less than `2^shift` apart are the same number.
pub proof fn lemma_aligned_close(a: int, b: int, shift: nat)
    requires
        aligned(a, shift),
        aligned(b, shift),
        b <= a < b + pow2(shift),
    ensures
        a == b,
{
    let unit: int = pow2(shift) as int;
    lemma_pow2_pos(shift);
    let qa: int = a / unit;
    let qb: int = b / unit;
    lemma_fundamental_div_mod(a, unit);
    lemma_fundamental_div_mod(b, unit);
    assert(qa == qb) by (nonlinear_arith)
        requires
            a == unit * qa,
            b == unit * qb,
            b <= a < b + unit,
            unit > 0,
    ;
}

/// The number of trailing zero bits of a nonzero `x` is the largest exponent
/// of two that divides `x`.
pub proof fn lemma_trailing_zeros_aligned(x: u64)
    requires
        x != 0,
    ensures
        u64_trailing_zeros(x) < 64,
        aligned(x as int, u64_trailing_zeros(x) as nat),
        u64_trailing_zeros(x) < 63 ==> !aligned(x as int, (u64_trailing_zeros(x) + 1) as nat),
{
    axiom_u64_trailing_zeros(x);
    let t: u64 = u64_trailing_zeros(x) as u64;
    assert(t < 64);
    let gone: u64 = (64 - t) as u64;
    assert(x << gone == 0);
    assert((x >> t) & 1u64 == 1u64);
    lemma_u64_pow2_no_overflow(t as nat);
    lemma_u64_shl_is_mul(1u64, t);
    let low: u64 = (1u64 << t);
    assert(low == pow2(t as nat));
    let mask: u64 = (low - 1) as u64;
    assert(mask == low_bits_mask(t as nat));
    assert(x & mask == 0) by (bit_vector)
        requires
            t < 64,
            gone == 64 - t,
            x << gone == 0,
            low == 1u64 << t,
            mask == low - 1,
    ;
    lemma_u64_low_bits_mask_is_mod(x, t as nat);
    assert(x % (pow2(t as nat) as u64) == 0);
    if t < 63 {
        let t1: u64 = (t + 1) as u64;
        lemma_u64_pow2_no_overflow(t1 as nat);
        lemma_u64_shl_is_mul(1u64, t1);
        let low1: u64 = (1u64 << t1);
        assert(low1 == pow2(t1 as nat));
        let mask1: u64 = (low1 - 1) as u64;
        assert(mask1 == low_bits_mask(t1 as nat));
        assert(x & mask1 != 0) by (bit_vector)
            requires
                t < 63,
                t1 == t + 1,
                (x >> t) & 1u64 == 1u64,
                low1 == 1u64 << t1,
                mask1 == low1 - 1,
        ;
        lemma_u64_low_bits_mask_is_mod(x, t1 as nat);
        assert(x % (pow2(t1 as nat) as u64) != 0);
    }
}

} // verus!
