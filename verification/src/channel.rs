//! Quantising one colour channel: clamp the intensity to the unit interval,
//! multiply by 255, and drop the fractional part.

use crate::binary32::{
    clamp_unit, clamped, exponent_field, fraction_field, in_unit_interval, lemma_unit_threshold,
    magnitude, unit, ONE,
};
use crate::rounding::{
    lemma_rounded_scales, lemma_rounded_upper, lemma_spacing_exponent_in_binade, rounded,
};
use vstd::arithmetic::div_mod::*;
use vstd::arithmetic::mul::*;
use vstd::arithmetic::power2::*;
use vstd::bits::lemma_u32_shr_is_div;
use vstd::prelude::*;

verus! {

/// The whole part of 255 times the encoded magnitude.
pub open spec fn scaled(bits: u32) -> nat
    recommends
        exponent_field(bits) < 255,
{
    (255 * magnitude(bits)) / unit()
}

/// The byte that stands for an intensity on the wire: the intensity is
/// clamped to the unit interval, multiplied by 255 and truncated.
pub open spec fn quantized(bits: u32) -> u8 {
    scaled(clamped(bits)) as u8
}

/// An intensity of at most `1.0` scales to at most 255.
pub proof fn lemma_scaled_fits_byte(bits: u32)
    requires
        exponent_field(bits) < 255,
        magnitude(bits) <= unit(),
    ensures
        scaled(bits) <= 255,
{
    lemma_pow2_pos(149);
    lemma_div_is_ordered(
        (255 * magnitude(bits)) as int,
        (255 * pow2(149)) as int,
        pow2(149) as int,
    );
    lemma_div_by_multiple(255, pow2(149) as int);
}

/// An intensity below 2^-8 has a magnitude of at most `pow2(141)`, so that 255
/// times it stays below `1.0`.
proof fn lemma_faint_magnitude(bits: u32)
    requires
        exponent_field(bits) < 119,
    ensures
        magnitude(bits) <= pow2(141),
        255 * pow2(141) < unit(),
{
    let e = exponent_field(bits);
    lemma2_to64();
    lemma_pow2_pos(141);
    lemma_pow2_adds(8, 141);
    if e == 0 {
        lemma_pow2_strictly_increases(23, 141);
    } else {
        let j = (e - 1) as nat;
        let s: nat = 0x80_0000 + fraction_field(bits);
        if j < 117 {
            lemma_pow2_strictly_increases(j, 117);
        }
        lemma_pow2_adds(24, 117);
        assert(s * pow2(j) <= pow2(24) * pow2(117)) by (nonlinear_arith)
            requires
                s <= pow2(24),
                pow2(j) <= pow2(117),
        ;
    }
}

/// From 2^-8 upwards, 255 times the magnitude is 255 times the 24-bit
/// significand, doubled as often as the exponent field exceeds 1, and `1.0` is
/// a power of two doubled as often.
proof fn lemma_product_by_significand(bits: u32)
    requires
        119 <= exponent_field(bits) < 255,
    ensures
        255 * magnitude(bits) == (255 * (0x80_0000 + fraction_field(bits))) * pow2(
            (exponent_field(bits) - 1) as nat,
        ),
        exponent_field(bits) <= 150 ==> unit() == pow2((150 - exponent_field(bits)) as nat) * pow2(
            (exponent_field(bits) - 1) as nat,
        ),
{
    let e = exponent_field(bits);
    let j = (e - 1) as nat;
    let significand: nat = 0x80_0000 + fraction_field(bits);
    assert(255 * (significand * pow2(j)) == (255 * significand) * pow2(j)) by (nonlinear_arith);
    if e <= 150 {
        lemma_pow2_adds((150 - e) as nat, j);
    }
}

/// Scales an intensity between `+0.0` and `1.0` to a byte.
fn scale_unit(bits: u32) -> (byte: u8)
    requires
        bits <= ONE,
    ensures
        byte == scaled(bits),
{
    let exponent: u32 = bits / 0x80_0000;
    if exponent < 119 {
        proof {
            lemma_faint_magnitude(bits);
            lemma_basic_div((255 * magnitude(bits)) as int, unit() as int);
        }
        return 0;
    }
    let significand: u32 = 0x80_0000 + bits % 0x80_0000;
    let product: u32 = 255 * significand;
    let shift: u32 = 150 - exponent;
    let whole: u32 = product >> shift;
    proof {
        let j = (exponent - 1) as nat;
        lemma_product_by_significand(bits);
        lemma_pow2_pos(j);
        lemma_pow2_pos(shift as nat);
        lemma_div_multiples_vanish_quotient(
            pow2(j) as int,
            product as int,
            pow2(shift as nat) as int,
        );
        lemma_mul_is_commutative(pow2(j) as int, product as int);
        lemma_mul_is_commutative(pow2(j) as int, pow2(shift as nat) as int);
        lemma_u32_shr_is_div(product, shift);
        lemma_unit_threshold(bits);
        lemma_scaled_fits_byte(bits);
    }
    whole as u8
}

/// Quantises one channel: the intensity is clamped to the unit interval,
/// multiplied by 255 and truncated.
pub fn encode_channel(bits: u32) -> (byte: u8)
    ensures
        byte == quantized(bits),
        byte == scaled(clamped(bits)),
{
    scale_unit(clamp_unit(bits))
}

/// Whatever the encoding, its clamped form lies in the unit interval and
/// scales to at most 255, so the byte is the scaled value itself.
pub proof fn lemma_quantized_is_scaled_clamped(bits: u32)
    ensures
        in_unit_interval(clamped(bits)),
        quantized(bits) == scaled(clamped(bits)),
{
    lemma_pow2_pos(149);
    lemma_unit_threshold(ONE);
    lemma_scaled_fits_byte(clamped(bits));
}

/// Clamping first changes nothing: an intensity and its clamped form give the
/// same byte.
pub proof fn lemma_clamping_is_absorbed(bits: u32)
    ensures
        quantized(clamped(bits)) == quantized(bits),
{
    lemma_pow2_pos(149);
    lemma_unit_threshold(ONE);
    assert(clamped(clamped(bits)) == clamped(bits));
}

/// Inside the unit interval clamping plays no part: the byte is the
/// truncated product of the intensity itself and 255.
pub proof fn lemma_quantized_in_unit_interval(bits: u32)
    requires
        in_unit_interval(bits),
    ensures
        quantized(bits) == scaled(bits),
        scaled(bits) <= 255,
{
    lemma_pow2_pos(149);
    lemma_unit_threshold(ONE);
    lemma_scaled_fits_byte(bits);
    assert(magnitude(clamped(bits)) == magnitude(bits));
}

/// The product of 255 and a normal significand, rounded to 24 significant
/// bits.
spec fn rounded_product(significand: u32) -> u32 {
    let product: u32 = (255 * significand) as u32;
    let step: u32 = if product < 0x8000_0000 {
        0x80
    } else {
        0x100
    };
    let below: u32 = product / step;
    let rest: u32 = product % step;
    if 2 * rest < step || (2 * rest == step && below % 2 == 0) {
        (product - rest) as u32
    } else {
        (product - rest + step) as u32
    }
}

proof fn lemma_rounded_product(significand: u32)
    requires
        0x80_0000 <= significand < 0x100_0000,
    ensures
        rounded_product(significand) == rounded((255 * significand) as nat),
{
    let product: nat = (255 * significand) as nat;
    lemma2_to64();
    if product < 0x8000_0000 {
        lemma_spacing_exponent_in_binade(product, 7);
    } else {
        lemma_spacing_exponent_in_binade(product, 8);
    }
}

/// Rounding the product of 255 and a normal significand to 24 significant
/// bits never carries into the bits that survive a shift by 24 or more.
proof fn lemma_rounding_stays_below_shift(significand: u32, shift: u32)
    by (bit_vector)
    requires
        0x80_0000 <= significand < 0x100_0000,
        24 <= shift < 32,
    ensures
        rounded_product(significand) >> shift == ((255 * significand) as u32) >> shift,
{
}

/// Multiplying in binary32 gives the same byte as multiplying exactly: for an
/// intensity of at most `1.0`, rounding the product with 255 to the nearest
/// binary32 value, ties to even, does not change its whole part.
pub proof fn lemma_binary32_product_truncates_alike(bits: u32)
    requires
        exponent_field(bits) < 255,
        magnitude(bits) <= unit(),
    ensures
        rounded(255 * magnitude(bits)) / unit() == scaled(bits),
{
    let e = exponent_field(bits);
    let n = 255 * magnitude(bits);
    lemma2_to64();
    lemma_pow2_pos(149);
    lemma_unit_threshold(bits);
    if e < 119 {
        lemma_faint_magnitude(bits);
        lemma_pow2_strictly_increases(149, 24 + 141);
        lemma_rounded_upper(n, 255, 141);
        lemma_basic_div(rounded(n) as int, unit() as int);
        lemma_basic_div(n as int, unit() as int);
    } else {
        let j = (e - 1) as nat;
        let significand: u32 = (0x80_0000 + fraction_field(bits)) as u32;
        let product: u32 = (255 * significand) as u32;
        lemma_product_by_significand(bits);
        lemma_rounded_product(significand);
        if product < 0x8000_0000 {
            lemma_rounded_scales(product as nat, 7, j);
        } else {
            lemma_rounded_scales(product as nat, 8, j);
        }
        if e < 127 {
            let shift: u32 = (150 - e) as u32;
            let nearest = rounded_product(significand);
            lemma_rounding_stays_below_shift(significand, shift);
            lemma_u32_shr_is_div(nearest, shift);
            lemma_u32_shr_is_div(product, shift);
            lemma_pow2_pos(j);
            lemma_pow2_pos(shift as nat);
            lemma_div_multiples_vanish_quotient(
                pow2(j) as int,
                product as int,
                pow2(shift as nat) as int,
            );
            lemma_div_multiples_vanish_quotient(
                pow2(j) as int,
                nearest as int,
                pow2(shift as nat) as int,
            );
            lemma_mul_is_commutative(pow2(j) as int, product as int);
            lemma_mul_is_commutative(pow2(j) as int, nearest as int);
            lemma_mul_is_commutative(pow2(j) as int, pow2(shift as nat) as int);
        }
    }
}

} // verus!
