//! Rounding to binary32 precision: to the nearest representable value, ties to
//! the one with an even significand.
//!
//! Magnitudes are natural numbers in units of 2^-149. In these units the
//! representable values are the numbers below 2^24 and, above that, the
//! multiples of growing powers of two that keep 24 significant bits.

use vstd::arithmetic::div_mod::*;
use vstd::arithmetic::mul::*;
use vstd::arithmetic::power2::*;
use vstd::prelude::*;

verus! {

/// The spacing between neighbouring representable values around `n` is
/// `pow2(spacing_exponent(n))`: one below 2^24, doubling with each further bit
/// of `n`.
pub open spec fn spacing_exponent(n: nat) -> nat
    decreases n,
{
    if n < 0x100_0000 {
        0
    } else {
        1 + spacing_exponent(n / 2)
    }
}

/// The multiple of `step` nearest to `n`. Halfway between two multiples, the
/// even multiple wins.
pub open spec fn nearest_multiple(n: nat, step: nat) -> nat
    recommends
        step > 0,
{
    let below = n / step;
    let rest = n % step;
    if 2 * rest < step || (2 * rest == step && below % 2 == 0) {
        below * step
    } else {
        (below + 1) * step
    }
}

/// `n` rounded to binary32 precision.
pub open spec fn rounded(n: nat) -> nat {
    nearest_multiple(n, pow2(spacing_exponent(n)))
}

/// A number with `24 + k` significant bits has spacing exponent `k`.
pub proof fn lemma_spacing_exponent_in_binade(n: nat, k: nat)
    requires
        pow2(23 + k) <= n < pow2(24 + k),
    ensures
        spacing_exponent(n) == k,
    decreases k,
{
    lemma2_to64();
    if k == 0 {
    } else {
        if k > 1 {
            lemma_pow2_strictly_increases(24, 23 + k);
        }
        lemma_pow2_unfold(23 + k);
        lemma_pow2_unfold(24 + k);
        lemma_spacing_exponent_in_binade(n / 2, (k - 1) as nat);
    }
}

/// A number below `pow2(24 + k)` has spacing exponent at most `k`.
proof fn lemma_spacing_exponent_bound(n: nat, k: nat)
    requires
        n < pow2(24 + k),
    ensures
        spacing_exponent(n) <= k,
    decreases k,
{
    lemma2_to64();
    if n < 0x100_0000 {
    } else {
        if k == 0 {
        } else {
            lemma_pow2_unfold(24 + k);
            lemma_spacing_exponent_bound(n / 2, (k - 1) as nat);
        }
    }
}

/// Scaling the number and the step by the same factor scales the nearest
/// multiple by that factor.
proof fn lemma_nearest_multiple_scales(n: nat, step: nat, c: nat)
    requires
        step > 0,
        c > 0,
    ensures
        nearest_multiple(n * c, step * c) == nearest_multiple(n, step) * c,
{
    let below = n / step;
    let rest = n % step;
    lemma_mul_strictly_positive(step as int, c as int);
    lemma_fundamental_div_mod(n as int, step as int);
    assert(n * c == below * (step * c) + rest * c) by (nonlinear_arith)
        requires
            n == step * below + rest,
    ;
    assert(0 <= rest * c < step * c) by (nonlinear_arith)
        requires
            0 <= rest < step,
            c > 0,
    ;
    lemma_fundamental_div_mod_converse(
        (n * c) as int,
        (step * c) as int,
        below as int,
        (rest * c) as int,
    );
    assert((n * c) / (step * c) == below);
    assert((n * c) % (step * c) == rest * c);
    assert(2 * (rest * c) < step * c <==> 2 * rest < step) by (nonlinear_arith)
        requires
            c > 0,
    ;
    assert(2 * (rest * c) == step * c <==> 2 * rest == step) by (nonlinear_arith)
        requires
            c > 0,
    ;
    assert(below * (step * c) == (below * step) * c) by (nonlinear_arith);
    assert((below + 1) * (step * c) == ((below + 1) * step) * c) by (nonlinear_arith);
}

/// Doubling a number with at least 24 significant bits any number of times
/// doubles its rounding as often.
pub proof fn lemma_rounded_scales(n: nat, k: nat, j: nat)
    requires
        pow2(23 + k) <= n < pow2(24 + k),
    ensures
        rounded(n * pow2(j)) == rounded(n) * pow2(j),
{
    lemma_pow2_pos(j);
    lemma_pow2_pos(k);
    lemma_pow2_adds(23 + k, j);
    lemma_pow2_adds(24 + k, j);
    lemma_pow2_adds(k, j);
    assert(pow2(23 + k) * pow2(j) <= n * pow2(j) < pow2(24 + k) * pow2(j)) by (nonlinear_arith)
        requires
            pow2(23 + k) <= n < pow2(24 + k),
            pow2(j) > 0,
    ;
    assert(23 + k + j == 23 + (k + j) && 24 + k + j == 24 + (k + j));
    lemma_spacing_exponent_in_binade(n, k);
    lemma_spacing_exponent_in_binade(n * pow2(j), k + j);
    lemma_nearest_multiple_scales(n, pow2(k), pow2(j));
}

/// Rounding to a multiple of `step` does not pass a multiple of `step` that
/// the number itself does not pass.
proof fn lemma_nearest_multiple_upper(n: nat, step: nat, m: nat)
    requires
        step > 0,
        n <= m * step,
    ensures
        nearest_multiple(n, step) <= m * step,
{
    let below = n / step;
    let rest = n % step;
    lemma_fundamental_div_mod(n as int, step as int);
    if below >= m {
        assert(step * below >= m * step) by (nonlinear_arith)
            requires
                below >= m,
        ;
        assert(below * step == step * below) by (nonlinear_arith);
    } else {
        assert((below + 1) * step <= m * step) by (nonlinear_arith)
            requires
                below + 1 <= m,
        ;
        assert(below * step <= (below + 1) * step) by (nonlinear_arith);
    }
}

/// Rounding does not pass `m * pow2(j)` from below, as long as the spacing
/// around the number is no coarser than `pow2(j)`.
pub proof fn lemma_rounded_upper(n: nat, m: nat, j: nat)
    requires
        n <= m * pow2(j),
        n < pow2(24 + j),
    ensures
        rounded(n) <= m * pow2(j),
{
    let s = spacing_exponent(n);
    lemma_spacing_exponent_bound(n, j);
    let d = (j - s) as nat;
    lemma_pow2_adds(d, s);
    lemma_pow2_pos(s);
    assert(m * pow2(j) == (m * pow2(d)) * pow2(s)) by (nonlinear_arith)
        requires
            pow2(j) == pow2(d) * pow2(s),
    ;
    lemma_nearest_multiple_upper(n, pow2(s), m * pow2(d));
}

} // verus!
