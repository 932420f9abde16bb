//! Arithmetic readings of the bit operations the codec uses: masking the low
//! seven bits is a remainder, shifting is a division or a multiplication by a
//! power of two, and or-ing disjoint bit ranges is an addition.

use vstd::prelude::*;
use vstd::arithmetic::power2::{
    pow2, lemma_pow2_adds, lemma_pow2_pos, lemma_pow2_strictly_increases, lemma2_to64,
    lemma2_to64_rest,
};

verus! {

/// Masking the low seven bits takes the remainder by 128, and shifting right
/// by seven divides by 128.
pub proof fn lemma_u128_low7(v: u128)
    ensures
        v & 0x7f == v % 128,
        v >> 7 == v / 128,
{
    assert(v & 0x7f == v % 128) by (bit_vector);
    assert(v >> 7 == v / 128) by (bit_vector);
}

/// Setting the high bit of a byte below 128 adds 128.
pub proof fn lemma_u8_set_high_bit(b: u8)
    requires
        b < 128,
    ensures
        b | 0x80 == b + 128,
{
    assert(b < 128 ==> (b | 0x80) == b + 128) by (bit_vector);
}

/// A byte's high bit is clear exactly when the byte is below 128.
pub proof fn lemma_u8_high_bit(b: u8)
    ensures
        (b & 0x80 == 0) <==> b < 128,
        b & 0x7f == b % 128,
        b >> 7 == if b < 128 { 0u8 } else { 1u8 },
{
    assert((b & 0x80 == 0) <==> b < 128) by (bit_vector);
    assert(b & 0x7f == b % 128) by (bit_vector);
    assert(b >> 7 == if b < 128 { 0u8 } else { 1u8 }) by (bit_vector);
}

/// Powers of two up to the 127th fit in 128 bits.
pub proof fn lemma_pow2_fits_u128(e: nat)
    requires
        e < 128,
    ensures
        pow2(e) <= u128::MAX,
{
    lemma_pow2_128();
    if e < 127 {
        lemma_pow2_strictly_increases(e, 128);
    } else {
        lemma_pow2_adds(127, 1);
        lemma_pow2_strictly_increases(127, 128);
    }
}

/// The value of the 128th power of two.
pub proof fn lemma_pow2_128()
    ensures
        pow2(128) == 0x100000000000000000000000000000000,
{
    lemma_pow2_adds(64, 64);
    lemma2_to64_rest();
}

/// Shifting left by `shift` multiplies by `pow2(shift)` when the product
/// stays representable.
pub proof fn lemma_u128_shl_is_mul(x: u128, shift: u128)
    requires
        shift < 128,
        x * pow2(shift as nat) <= u128::MAX,
    ensures
        x << shift == x * pow2(shift as nat),
    decreases shift,
{
    lemma_pow2_pos(shift as nat);
    if shift == 0 {
        assert(x << 0 == x) by (bit_vector);
        lemma2_to64();
    } else {
        let s1 = (shift - 1) as u128;
        assert(x << shift == vstd::prelude::mul(x << s1, 2)) by (bit_vector)
            requires
                shift < 128,
                shift == s1 + 1,
        ;
        assert(pow2(s1 as nat) * 2 == pow2(shift as nat)) by {
            lemma_pow2_adds(s1 as nat, 1);
            lemma2_to64();
        }
        lemma_pow2_strictly_increases(s1 as nat, shift as nat);
        assert(x * pow2(s1 as nat) <= x * pow2(shift as nat)) by (nonlinear_arith)
            requires
                pow2(s1 as nat) <= pow2(shift as nat),
        ;
        lemma_u128_shl_is_mul(x, s1);
        assert((x * pow2(s1 as nat)) * 2 == x * pow2(shift as nat)) by (nonlinear_arith)
            requires
                pow2(s1 as nat) * 2 == pow2(shift as nat),
        ;
    }
}

/// Masking the low eight bits takes the remainder by 256.
pub proof fn lemma_u128_low8(v: u128)
    ensures
        v & 0xff == v % 256,
{
    assert(v & 0xff == v % 256) by (bit_vector);
}

/// Or-ing the same value in twice changes nothing after the first time.
pub proof fn lemma_u128_or_idempotent(a: u128, b: u128)
    ensures
        (a | b) | b == a | b,
{
    assert((a | b) | b == a | b) by (bit_vector);
}

/// Or-ing a value below `pow2(shift)` with one shifted left by `shift` adds
/// the two: the bit ranges do not overlap.
pub proof fn lemma_u128_or_shl_is_add(r: u128, x: u128, shift: u128)
    requires
        shift < 128,
        r < pow2(shift as nat),
        r + x * pow2(shift as nat) <= u128::MAX,
    ensures
        r | (x << shift) == r + x * pow2(shift as nat),
{
    lemma_pow2_pos(shift as nat);
    assert(x * pow2(shift as nat) <= u128::MAX) by (nonlinear_arith)
        requires
            r + x * pow2(shift as nat) <= u128::MAX,
            0 <= r,
    ;
    lemma_u128_shl_is_mul(x, shift);
    lemma_pow2_fits_u128(shift as nat);
    lemma_u128_shl_is_mul(1, shift);
    assert(r < (1u128 << shift) ==> (r | (x << shift)) == vstd::prelude::add(
        r,
        x << shift,
    )) by (bit_vector)
        requires
            shift < 128,
    ;
}

} // verus!
