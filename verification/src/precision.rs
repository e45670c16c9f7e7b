//! How far a rounded result lies from the exact one.

use crate::pixels::lemma_encoded_value;
use crate::pixels::lemma_rounded_significand;
use crate::rounding::last_place;
use crate::rounding::lemma_last_place_bounds;
use crate::rounding::nearest;
use crate::rounding::rounded;
use crate::rounding::INFINITE;
use crate::rounding::STEP;
use crate::single::one;
use crate::single::units_of;
use vstd::arithmetic::div_mod::lemma_fundamental_div_mod;
use vstd::arithmetic::power2::lemma2_to64;
use vstd::arithmetic::power2::lemma_pow2_adds;
use vstd::arithmetic::power2::lemma_pow2_pos;
use vstd::arithmetic::power2::lemma_pow2_strictly_increases;
use vstd::arithmetic::power2::pow2;
use vstd::prelude::*;

verus! {

/// The nearest whole number lies within a half.
proof fn lemma_nearest_error(p: nat, q: nat)
    requires
        q > 0,
    ensures
        2 * (nearest(p, q) * q - p) <= q,
        2 * (p - nearest(p, q) * q) <= q,
{
    lemma_fundamental_div_mod(p as int, q as int);
    let whole = p / q;
    let rest = p % q;
    assert((whole + 1) * q == whole * q + q && q * whole == whole * q) by (nonlinear_arith);
}

/// The nearest whole number grows with the quotient.
proof fn lemma_nearest_monotone(p: nat, r: nat, q: nat)
    requires
        q > 0,
        p <= r,
    ensures
        nearest(p, q) <= nearest(r, q),
{
    lemma_fundamental_div_mod(p as int, q as int);
    lemma_fundamental_div_mod(r as int, q as int);
    let (w, v) = (p / q, r / q);
    assert(w <= v) by (nonlinear_arith)
        requires
            p == q * w + p % q,
            r == q * v + r % q,
            p <= r,
            p % q >= 0,
            r % q < q,
            q > 0,
    ;
    if w == v {
        assert(p % q <= r % q);
    }
}

/// Rounding keeps the order of quotients.
pub proof fn lemma_rounded_monotone(p: nat, r: nat, q: nat)
    requires
        q > 0,
        p <= r,
    ensures
        rounded(p, q) <= rounded(r, q),
{
    let (e, f) = (last_place(p, q), last_place(r, q));
    lemma_rounded_significand(p, q);
    lemma_rounded_significand(r, q);
    lemma_last_place_bounds(p, q);
    lemma_last_place_bounds(r, q);
    lemma_pow2_pos(e);
    if e == f {
        assert(q * pow2(e) > 0) by (nonlinear_arith)
            requires
                q > 0,
                pow2(e) > 0,
        ;
        lemma_nearest_monotone(p, r, q * pow2(e));
    } else if e > f {
        if 24 + f < 23 + e {
            lemma_pow2_strictly_increases(24 + f, (23 + e) as nat);
        }
        assert(q * pow2(24 + f) <= q * pow2((23 + e) as nat)) by (nonlinear_arith)
            requires
                pow2(24 + f) <= pow2((23 + e) as nat),
        ;
    } else {
        assert(e * STEP + 0x100_0000 <= f * STEP + STEP);
    }
}

/// Quotients below 2^24 do not round to infinity.
pub proof fn lemma_rounded_finite(p: nat, q: nat)
    requires
        q > 0,
        p < (q * 0x100_0000) * one(),
    ensures
        0 <= rounded(p, q) < INFINITE,
{
    let e = last_place(p, q);
    lemma2_to64();
    lemma_last_place_bounds(p, q);
    lemma_rounded_significand(p, q);
    if e > 149 {
        lemma_pow2_adds(24, 149);
        if e > 150 {
            lemma_pow2_strictly_increases(173, (23 + e) as nat);
        }
        assert((q * 0x100_0000) * one() == q * pow2(173)) by (nonlinear_arith)
            requires
                pow2(173) == 0x100_0000 * one(),
        ;
        assert(q * pow2(173) <= q * pow2((23 + e) as nat)) by (nonlinear_arith)
            requires
                pow2(173) <= pow2((23 + e) as nat),
        ;
    }
    assert(e * STEP + 0x100_0000 < INFINITE);
}

/// A quotient of 2^23 units or more is rounded by at most its 2^24th part.
pub proof fn lemma_rounding_error(p: nat, q: nat)
    requires
        q > 0,
        p >= q * 0x80_0000,
        0 <= rounded(p, q) < INFINITE,
    ensures
        0x100_0000 * (units_of(rounded(p, q) as nat) * q - p) <= p,
        0x100_0000 * (p - units_of(rounded(p, q) as nat) * q) <= p,
{
    lemma2_to64();
    let e = last_place(p, q);
    let unit = pow2(e);
    let d = q * unit;
    let n = nearest(p, d);
    lemma_pow2_pos(e);
    lemma_rounded_significand(p, q);
    lemma_encoded_value(e, n);
    lemma_last_place_bounds(p, q);
    assert(d > 0) by (nonlinear_arith)
        requires
            d == q * unit,
            q > 0,
            unit > 0,
    ;
    lemma_nearest_error(p, d);
    let u = units_of(rounded(p, q) as nat);
    assert(u * q == n * d) by (nonlinear_arith)
        requires
            u == n * unit,
            d == q * unit,
    ;
    assert(0x80_0000 * d <= p) by {
        if e > 0 {
            lemma_pow2_adds(23, e);
            assert(0x80_0000 * d == q * pow2((23 + e) as nat)) by (nonlinear_arith)
                requires
                    d == q * unit,
                    pow2((23 + e) as nat) == 0x80_0000 * unit,
            ;
        } else {
            assert(q * 1 == q);
        }
    }
}

} // verus!
