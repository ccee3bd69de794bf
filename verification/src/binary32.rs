//! IEEE 754 binary32 intensities, read from their 32-bit encodings.
//!
//! An encoding has a sign bit, an 8-bit exponent field and a 23-bit fraction
//! field. Every finite binary32 value is a whole multiple of 2^-149, so the
//! model measures magnitudes in that unit: the natural number `n` stands for
//! `n * 2^-149`, and `1.0` is `pow2(149)`.

use vstd::arithmetic::div_mod::*;
use vstd::arithmetic::mul::*;
use vstd::arithmetic::power2::*;
use vstd::prelude::*;

verus! {

/// The encoding of `+0.0`.
pub const POSITIVE_ZERO: u32 = 0;

/// The encoding of `1.0`.
pub const ONE: u32 = 0x3f80_0000;

/// The sign bit is set.
pub open spec fn is_negative(bits: u32) -> bool {
    bits >= 0x8000_0000
}

/// The biased exponent, bits 23 to 30.
pub open spec fn exponent_field(bits: u32) -> nat {
    ((bits / 0x80_0000) % 0x100) as nat
}

/// The fraction, bits 0 to 22.
pub open spec fn fraction_field(bits: u32) -> nat {
    (bits % 0x80_0000) as nat
}

/// The encoding is a NaN.
pub open spec fn is_nan(bits: u32) -> bool {
    exponent_field(bits) == 255 && fraction_field(bits) != 0
}

/// The encoding is an infinity.
pub open spec fn is_infinite(bits: u32) -> bool {
    exponent_field(bits) == 255 && fraction_field(bits) == 0
}

/// The absolute value of a finite encoding, in units of 2^-149.
///
/// A subnormal (exponent field 0) is its fraction; a normal value has an
/// implicit leading one above the fraction and doubles with every step of the
/// exponent field.
pub open spec fn magnitude(bits: u32) -> nat
    recommends
        exponent_field(bits) < 255,
{
    if exponent_field(bits) == 0 {
        fraction_field(bits)
    } else {
        (0x80_0000 + fraction_field(bits)) * pow2((exponent_field(bits) - 1) as nat)
    }
}

/// `1.0` in units of 2^-149.
pub open spec fn unit() -> nat {
    pow2(149)
}

/// The encoded value lies in the closed interval from 0.0 to 1.0. Negative
/// zero is zero.
pub open spec fn in_unit_interval(bits: u32) -> bool {
    &&& exponent_field(bits) < 255
    &&& magnitude(bits) <= unit()
    &&& is_negative(bits) ==> magnitude(bits) == 0
}

/// The encoding after clamping to the unit interval: NaN and everything
/// negative become `+0.0`, everything from `1.0` upwards becomes `1.0`, and
/// the values in between stay as they are.
pub open spec fn clamped(bits: u32) -> u32 {
    if is_nan(bits) || is_negative(bits) {
        POSITIVE_ZERO
    } else if is_infinite(bits) || magnitude(bits) >= unit() {
        ONE
    } else {
        bits
    }
}

/// A finite magnitude reaches `1.0` exactly when its exponent field reaches
/// 127, and equals `1.0` exactly when in addition the fraction is zero.
pub proof fn lemma_unit_threshold(bits: u32)
    requires
        exponent_field(bits) < 255,
    ensures
        magnitude(bits) >= unit() <==> exponent_field(bits) >= 127,
        magnitude(bits) == unit() <==> exponent_field(bits) == 127 && fraction_field(bits) == 0,
{
    let e = exponent_field(bits);
    let f = fraction_field(bits);
    lemma2_to64();
    lemma_pow2_pos(149);
    if e == 0 {
        lemma_pow2_strictly_increases(23, 149);
    } else {
        let j = (e - 1) as nat;
        let s: nat = 0x80_0000 + f;
        lemma_pow2_pos(j);
        if e >= 127 {
            if e > 127 {
                lemma_pow2_strictly_increases(126, j);
            }
            lemma_pow2_adds(23, 126);
            assert(s * pow2(j) >= pow2(23) * pow2(126)) by (nonlinear_arith)
                requires
                    s >= pow2(23),
                    pow2(j) >= pow2(126),
            ;
            if e > 127 || f > 0 {
                assert(s * pow2(j) > pow2(23) * pow2(126)) by (nonlinear_arith)
                    requires
                        s >= pow2(23),
                        pow2(j) >= pow2(126),
                        s > pow2(23) || pow2(j) > pow2(126),
                        pow2(23) > 0,
                        pow2(126) > 0,
                ;
            }
        } else {
            if e < 126 {
                lemma_pow2_strictly_increases(j, 125);
            }
            lemma_pow2_pos(125);
            lemma_pow2_adds(24, 125);
            assert(s * pow2(j) < pow2(24) * pow2(125)) by (nonlinear_arith)
                requires
                    0 < s < pow2(24),
                    0 < pow2(j) <= pow2(125),
            ;
        }
    }
}

/// Clamps an encoding to the unit interval.
pub fn clamp_unit(bits: u32) -> (result: u32)
    ensures
        result == clamped(bits),
        result <= ONE,
{
    proof {
        lemma_unit_threshold(ONE);
        lemma_pow2_pos(149);
        if bits < 0x7f80_0000 {
            lemma_unit_threshold(bits);
        }
    }
    if bits > 0x7f80_0000 {
        POSITIVE_ZERO
    } else if bits >= ONE {
        ONE
    } else {
        bits
    }
}

} // verus!
