//! What the operations on single-precision numbers mean for the values of the numbers.

use crate::pixels::exact_limit;
use crate::pixels::lemma_encoded_value;
use crate::pixels::lemma_from_whole;
use crate::pixels::lemma_rounded_significand;
use crate::pixels::measures;
use crate::rounding::last_place;
use crate::rounding::lemma_last_place_bounds;
use crate::rounding::nearest;
use crate::rounding::rounded;
use crate::rounding::INFINITE;
use crate::rounding::STEP;
use crate::single::exponent_of;
use crate::single::lemma_from_own_units;
use crate::single::lemma_order;
use crate::single::lemma_parts;
use crate::single::lemma_units_increase;
use crate::single::one;
use crate::single::significand_of;
use crate::single::units_of;
use crate::single::Single;
use crate::single::EPSILON;
use crate::single::FOUR;
use crate::single::HALF;
use crate::single::MAX;
use crate::single::MINUS_HALF;
use crate::single::NAN;
use crate::single::ONE;
use crate::single::TWO;
use crate::single::ZERO;
use crate::tiling::lemma_constants;
use vstd::arithmetic::div_mod::lemma_fundamental_div_mod;
use vstd::arithmetic::div_mod::lemma_fundamental_div_mod_converse;
use vstd::arithmetic::power2::lemma2_to64;
use vstd::arithmetic::power2::lemma_pow2_adds;
use vstd::arithmetic::power2::lemma_pow2_pos;
use vstd::arithmetic::power2::lemma_pow2_strictly_increases;
use vstd::arithmetic::power2::lemma_pow2_unfold;
use vstd::arithmetic::power2::pow2;
use vstd::prelude::*;

verus! {

/// The size of a number of units.
pub open spec fn size_of_units(units: int) -> int {
    if units < 0 {
        -units
    } else {
        units
    }
}

/// The named numbers have the values of their names; no finite number is larger than the largest.
pub proof fn law_named_numbers(x: Single)
    ensures
        Single::from_bits(ZERO).finite() && Single::from_bits(ZERO).units() == 0,
        Single::from_bits(HALF).finite() && 2 * Single::from_bits(HALF).units() == one(),
        Single::from_bits(MINUS_HALF).finite() && -2 * Single::from_bits(MINUS_HALF).units()
            == one(),
        Single::from_bits(ONE).finite() && Single::from_bits(ONE).units() == one(),
        Single::from_bits(TWO).finite() && Single::from_bits(TWO).units() == 2 * one(),
        Single::from_bits(FOUR).finite() && Single::from_bits(FOUR).units() == 4 * one(),
        Single::from_bits(EPSILON).finite() && 0x80_0000 * Single::from_bits(EPSILON).units()
            == one(),
        Single::from_bits(MAX).finite(),
        x.finite() ==> x.units() <= Single::from_bits(MAX).units(),
        Single::from_bits(NAN).nan(),
{
    lemma_constants();
    lemma2_to64();
    // 1/2 is 2^23 units of 2^125, and 1 is 2^23 units of 2^126.
    lemma_pow2_adds(23, 125);
    lemma_pow2_adds(23, 126);
    lemma_pow2_adds(1, 148);
    assert(exponent_of(0x3f00_0000) == 125 && significand_of(0x3f00_0000) == 0x80_0000);
    assert(exponent_of(0x3f80_0000) == 126 && significand_of(0x3f80_0000) == 0x80_0000);
    assert(Single::from_bits(HALF).magnitude() == 0x3f00_0000);
    assert(Single::from_bits(MINUS_HALF).magnitude() == 0x3f00_0000);
    assert(Single::from_bits(ONE).magnitude() == 0x3f80_0000);
    // 2^-23 is 2^23 units of 2^103.
    lemma_pow2_adds(23, 103);
    assert(exponent_of(0x3400_0000) == 103 && significand_of(0x3400_0000) == 0x80_0000);
    assert(Single::from_bits(EPSILON).magnitude() == 0x3400_0000);
    let largest = Single::from_bits(MAX);
    assert(largest.magnitude() == 0x7f7f_ffff);
    if x.finite() {
        lemma_order(largest, x);
    }
}

/// Comparisons of finite numbers are comparisons of their values; an infinity lies beyond all
/// finite numbers; nothing compares with what is no number.
pub proof fn law_comparisons_order_values(a: Single, b: Single)
    ensures
        a.finite() && b.finite() ==> {
            &&& a.lt(b) <==> a.units() < b.units()
            &&& a.le(b) <==> a.units() <= b.units()
            &&& a.equals(b) <==> a.units() == b.units()
        },
        a.finite() && b.infinite() ==> {
            &&& a.lt(b) == !b.negative()
            &&& a.le(b) == !b.negative()
            &&& !a.equals(b)
            &&& b.lt(a) == b.negative()
            &&& b.le(a) == b.negative()
            &&& !b.equals(a)
        },
        a.infinite() && b.infinite() ==> {
            &&& a.lt(b) == (a.negative() && !b.negative())
            &&& a.le(b) == (a.negative() || !b.negative())
            &&& a.equals(b) == (a.negative() == b.negative())
        },
        a.nan() || b.nan() ==> !a.lt(b) && !a.le(b) && !a.equals(b),
{
    if a.finite() && b.finite() {
        lemma_order(a, b);
    }
}

/// The larger and the smaller of two numbers are the two numbers, in order; where one is no number,
/// both are the other.
pub proof fn law_larger_and_smaller(a: Single, b: Single)
    ensures
        !a.nan() && !b.nan() ==> {
            let (high, low) = (a.max(b), a.min(b));
            &&& high == a || high == b
            &&& low == a || low == b
            &&& a.le(high) && b.le(high)
            &&& low.le(a) && low.le(b)
        },
        a.nan() ==> a.max(b) == b && a.min(b) == b,
        b.nan() && !a.nan() ==> a.max(b) == a && a.min(b) == a,
{
}

/// A number that is restricted to a range lies in it; it is the same number where it lay there
/// already, and otherwise the end of the range next to it. What is no number stays so.
pub proof fn law_clamp_lies_in_range(x: Single, low: Single, high: Single)
    requires
        low.le(high),
    ensures
        x.nan() ==> x.clamp(low, high) == x,
        !x.nan() ==> low.le(x.clamp(low, high)) && x.clamp(low, high).le(high),
        low.le(x) && x.le(high) ==> x.clamp(low, high) == x,
        x.lt(low) ==> x.clamp(low, high) == low,
        high.lt(x) ==> x.clamp(low, high) == high,
{
}

/// Changing the sign changes the sign of the value, and nothing else; without its sign a number has
/// the size of its value.
pub proof fn law_signs(x: Single)
    ensures
        x.negated().finite() == x.finite(),
        x.negated().nan() == x.nan(),
        x.negated().negative() == !x.negative(),
        x.finite() ==> x.negated().units() == -x.units(),
        x.abs().finite() == x.finite(),
        x.abs().nan() == x.nan(),
        !x.abs().negative(),
        x.finite() ==> x.abs().units() == size_of_units(x.units()),
{
}

/// The whole number nearest to a quotient is at least as near as any other, and even where another
/// is equally near.
proof fn lemma_nearest_whole(p: nat, q: nat, k: int)
    requires
        q > 0,
    ensures
        size_of_units(nearest(p, q) * q - p) <= size_of_units(k * q - p),
        size_of_units(nearest(p, q) * q - p) == size_of_units(k * q - p) && k != nearest(p, q)
            ==> nearest(p, q) % 2 == 0,
{
    lemma_fundamental_div_mod(p as int, q as int);
    let (w, r) = (p / q, p % q);
    assert(q * w == w * q && (w + 1) * q == w * q + q) by (nonlinear_arith);
    if k < w {
        assert(k * q <= w * q - q) by (nonlinear_arith)
            requires
                k <= w - 1,
                q > 0,
        ;
    } else if k > w + 1 {
        assert(k * q >= w * q + 2 * q) by (nonlinear_arith)
            requires
                k >= w + 2,
                q > 0,
        ;
    }
}

/// A finite magnitude is a multiple of every smaller power of two.
proof fn lemma_multiple(magnitude: nat, e: nat) -> (k: int)
    requires
        e <= exponent_of(magnitude),
    ensures
        units_of(magnitude) == k * pow2(e),
{
    let f = exponent_of(magnitude);
    let m = significand_of(magnitude);
    lemma_pow2_adds(e, (f - e) as nat);
    let (u, v) = (pow2(e), pow2((f - e) as nat));
    assert(m * (u * v) == (m * v) * u) by (nonlinear_arith);
    (m * v) as int
}

/// Rounding gives the nearest of all finite magnitudes, and an even one where another is equally
/// near.
pub proof fn law_rounds_to_nearest(p: nat, q: nat, other: nat)
    requires
        q > 0,
        rounded(p, q) < INFINITE,
        other < INFINITE,
    ensures
        ({
            let off = size_of_units(units_of(rounded(p, q) as nat) * q - p);
            let off_other = size_of_units(units_of(other) * q - p);
            &&& off <= off_other
            &&& off == off_other && other != rounded(p, q) ==> rounded(p, q) % 2 == 0
        }),
{
    let e = last_place(p, q);
    let unit = pow2(e);
    let d = q * unit;
    let n = nearest(p, d);
    lemma_pow2_pos(e);
    lemma_rounded_significand(p, q);
    lemma_encoded_value(e, n);
    lemma_last_place_bounds(p, q);
    assert(d > 0) by (nonlinear_arith)
        requires
            d == q * unit,
            q > 0,
            unit > 0,
    ;
    let r = rounded(p, q) as nat;
    let u = units_of(r);
    assert(u * q == n * d) by (nonlinear_arith)
        requires
            u == n * unit,
            d == q * unit,
    ;
    let v = units_of(other);
    if exponent_of(other) >= e {
        let k = lemma_multiple(other, e);
        assert(v * q == k * d) by (nonlinear_arith)
            requires
                v == k * unit,
                d == q * unit,
        ;
        lemma_nearest_whole(p, d, k);
        if other != r {
            if other < r {
                lemma_units_increase(other, r);
            } else {
                lemma_units_increase(r, other);
            }
            assert(k != n);
        }
    } else {
        let f = exponent_of(other);
        let m = significand_of(other);
        lemma_parts(other);
        lemma2_to64();
        lemma_pow2_adds(23, e);
        lemma_pow2_unfold(f + 1);
        if f + 1 < e {
            lemma_pow2_strictly_increases(f + 1, e);
        }
        lemma_pow2_pos(f);
        assert(v < 0x80_0000 * unit) by (nonlinear_arith)
            requires
                v == m * pow2(f),
                m < 0x100_0000,
                2 * pow2(f) <= unit,
                pow2(f) > 0,
        ;
        assert(0x80_0000 * d <= p && v * q < 0x80_0000 * d) by (nonlinear_arith)
            requires
                v < 0x80_0000 * unit,
                d == q * unit,
                q > 0,
                p >= q * pow2((23 + e) as nat),
                pow2((23 + e) as nat) == 0x80_0000 * unit,
        ;
        lemma_nearest_whole(p, d, 0x80_0000);
    }
}

/// Rounding gives infinity exactly from halfway between the largest finite number and the number
/// that would follow it.
pub proof fn law_rounds_to_infinity(p: nat, q: nat)
    requires
        q > 0,
    ensures
        rounded(p, q) <= INFINITE,
        rounded(p, q) == INFINITE <==> 2 * p >= (0x1ff_ffff * pow2(253)) * q,
{
    let e = last_place(p, q);
    let unit = pow2(e);
    let d = q * unit;
    let n = nearest(p, d);
    lemma2_to64();
    lemma_pow2_pos(e);
    lemma_rounded_significand(p, q);
    lemma_last_place_bounds(p, q);
    lemma_pow2_adds(24, e);
    lemma_pow2_pos(253);
    let top = pow2(253);
    assert(d > 0) by (nonlinear_arith)
        requires
            d == q * unit,
            q > 0,
            unit > 0,
    ;
    if e < 253 {
        assert(e * STEP + 0x100_0000 < INFINITE);
        lemma_pow2_unfold(e + 1);
        if e + 1 < 253 {
            lemma_pow2_strictly_increases(e + 1, 253);
        }
        assert(2 * p < (0x1ff_ffff * top) * q) by (nonlinear_arith)
            requires
                p < q * (0x100_0000 * unit),
                2 * unit <= top,
                q > 0,
                unit > 0,
        ;
    } else if e == 253 {
        lemma_nearest_whole(p, d, 0x100_0000);
        lemma_nearest_whole(p, d, 0xff_ffff);
        assert((0x1ff_ffff * top) * q == 0x1ff_ffff * d) by (nonlinear_arith)
            requires
                d == q * top,
        ;
        if n >= 0x100_0000 {
            assert(n == 0x100_0000);
            assert(2 * p >= 0x1ff_ffff * d);
            assert(253 * STEP + n == INFINITE);
        } else if n == 0xff_ffff {
            assert(2 * p < 0x1ff_ffff * d);
        } else {
            assert(n * d <= 0xff_fffe * d) by (nonlinear_arith)
                requires
                    n <= 0xff_fffe,
                    d > 0,
            ;
            assert(2 * p < 0x1ff_ffff * d);
        }
    } else {
        lemma_pow2_adds(23, e);
        lemma_pow2_unfold((253 + 1) as nat);
        if e > 254 {
            lemma_pow2_strictly_increases(254, e);
        }
        assert(2 * p >= (0x1ff_ffff * top) * q) by (nonlinear_arith)
            requires
                p >= q * (0x80_0000 * unit),
                unit >= 2 * top,
                q > 0,
                top > 0,
        ;
        lemma_nearest_whole(p, d, 0x80_0000);
        assert(p >= 0x80_0000 * d) by (nonlinear_arith)
            requires
                p >= q * (0x80_0000 * unit),
                d == q * unit,
        ;
        if n < 0x80_0000 {
            assert(n * d <= 0x80_0000 * d - d) by (nonlinear_arith)
                requires
                    n <= 0x80_0000 - 1,
                    d > 0,
            ;
        }
        assert(e * STEP + n >= INFINITE);
    }
}

/// What rounding with a sign gives: the nearest of all finite numbers, or an infinity beyond them.
proof fn lemma_signed_nearest(negative: bool, p: nat, q: nat, other: Single)
    requires
        q > 0,
        other.finite(),
    ensures
        ({
            let result = Single::signed(negative, rounded(p, q));
            let exact = if negative {
                -(p as int)
            } else {
                p as int
            };
            let off = size_of_units(result.units() * q - exact);
            let off_other = size_of_units(other.units() * q - exact);
            &&& !result.nan()
            &&& result.negative() == negative
            &&& result.infinite() <==> 2 * p >= (0x1ff_ffff * pow2(253)) * q
            &&& result.finite() ==> off <= off_other
            &&& result.finite() && off == off_other && result.units() != other.units()
                ==> result.magnitude() % 2 == 0
        }),
{
    let result = Single::signed(negative, rounded(p, q));
    law_rounds_to_infinity(p, q);
    assert(result.magnitude() == rounded(p, q));
    if result.finite() {
        let m = other.magnitude();
        let (u, v) = (units_of(result.magnitude()) as int, units_of(m) as int);
        law_rounds_to_nearest(p, q, m);
        assert((-u) * q == -(u * q) && (-v) * q == -(v * q)) by (nonlinear_arith);
        if other.negative() != negative {
            law_rounds_to_nearest(p, q, 0);
            let zero = Single::from_bits(ZERO);
            lemma_order(zero, zero);
            assert(units_of(0) == 0);
            assert(0 * q == 0);
            assert(v * q >= 0) by (nonlinear_arith)
                requires
                    v >= 0,
                    q > 0,
            ;
            if result.units() != other.units() && size_of_units(u * q - p) == p {
                if result.magnitude() == 0 {
                } else {
                    lemma_units_increase(0, result.magnitude());
                }
            }
        }
    }
}

/// A number of units is rounded to the nearest of all finite numbers, or to an infinity beyond
/// them.
proof fn lemma_units_nearest(units: int, negative: bool, other: Single)
    requires
        other.finite(),
    ensures
        ({
            let result = Single::from_units(units, negative);
            let off = size_of_units(result.units() - units);
            let off_other = size_of_units(other.units() - units);
            &&& !result.nan()
            &&& units < 0 ==> result.negative()
            &&& units > 0 ==> !result.negative()
            &&& units == 0 ==> result.zero() && result.negative() == negative
            &&& result.infinite() <==> 2 * size_of_units(units) >= 0x1ff_ffff * pow2(253)
            &&& result.finite() ==> off <= off_other
            &&& result.finite() && off == off_other && result.units() != other.units()
                ==> result.magnitude() % 2 == 0
        }),
{
    lemma_pow2_pos(253);
    if units == 0 {
        let result = Single::from_units(units, negative);
        lemma_order(result, result);
    } else {
        lemma_signed_nearest(units < 0, size_of_units(units) as nat, 1, other);
    }
}

/// The sum of two finite numbers is as near to the exact sum as any finite number, and even in its
/// last place where another is equally near; it is infinite exactly where the exact sum lies beyond
/// the largest number by half a last place or more. A sum of 0 is negative only where both numbers
/// are.
pub proof fn law_sum_is_nearest(a: Single, b: Single, other: Single)
    requires
        a.finite(),
        b.finite(),
        other.finite(),
    ensures
        ({
            let sum = a.plus(b);
            let exact = a.units() + b.units();
            let (off, off_other) = (
                size_of_units(sum.units() - exact),
                size_of_units(other.units() - exact),
            );
            &&& !sum.nan()
            &&& exact < 0 ==> sum.negative()
            &&& exact > 0 ==> !sum.negative()
            &&& exact == 0 ==> sum.zero() && sum.negative() == (a.negative() && b.negative())
            &&& sum.infinite() <==> 2 * size_of_units(exact) >= 0x1ff_ffff * pow2(253)
            &&& sum.finite() ==> off <= off_other
            &&& sum.finite() && off == off_other && sum.units() != other.units()
                ==> sum.magnitude() % 2 == 0
        }),
{
    reveal(Single::spec_plus);
    lemma_units_nearest(a.units() + b.units(), a.negative() && b.negative(), other);
}

/// The difference of two finite numbers is as near to the exact difference as any finite number.
pub proof fn law_difference_is_nearest(a: Single, b: Single, other: Single)
    requires
        a.finite(),
        b.finite(),
        other.finite(),
    ensures
        ({
            let difference = a.minus(b);
            let exact = a.units() - b.units();
            &&& !difference.nan()
            &&& exact < 0 ==> difference.negative()
            &&& exact > 0 ==> !difference.negative()
            &&& exact == 0 ==> difference.zero()
            &&& difference.infinite() <==> 2 * size_of_units(exact) >= 0x1ff_ffff * pow2(253)
            &&& difference.finite() ==> size_of_units(difference.units() - exact)
                <= size_of_units(other.units() - exact)
        }),
{
    law_signs(b);
    law_sum_is_nearest(a, b.negated(), other);
}

/// The product of two finite numbers is as near to the exact product as any finite number, and even
/// in its last place where another is equally near; it is infinite exactly where the exact product
/// lies beyond the largest number by half a last place or more.
pub proof fn law_product_is_nearest(a: Single, b: Single, other: Single)
    requires
        a.finite(),
        b.finite(),
        other.finite(),
    ensures
        ({
            let product = a.times(b);
            let exact = a.units() * b.units();
            let (off, off_other) = (
                size_of_units(product.units() * one() - exact),
                size_of_units(other.units() * one() - exact),
            );
            &&& !product.nan()
            &&& product.negative() == (a.negative() != b.negative())
            &&& product.infinite() <==> 2 * size_of_units(exact) >= (0x1ff_ffff * pow2(253))
                * one()
            &&& product.finite() ==> off <= off_other
            &&& product.finite() && off == off_other && product.units() != other.units()
                ==> product.magnitude() % 2 == 0
        }),
{
    reveal(Single::spec_times);
    lemma_pow2_pos(149);
    let (u, v) = (units_of(a.magnitude()), units_of(b.magnitude()));
    let (i, j) = (u as int, v as int);
    assert((-i) * j == -(i * j) && i * (-j) == -(i * j) && (-i) * (-j) == i * j && i * j >= 0)
        by (nonlinear_arith)
        requires
            i >= 0,
            j >= 0,
    ;
    lemma_signed_nearest(a.negative() != b.negative(), u * v, one(), other);
}

/// The quotient of two finite numbers is as near to the exact quotient as any finite number; both
/// are compared as multiples of the divisor.
pub proof fn law_quotient_is_nearest(a: Single, b: Single, other: Single)
    requires
        a.finite(),
        b.finite(),
        !b.zero(),
        other.finite(),
    ensures
        ({
            let quotient = a.over(b);
            let exact = a.units() * one();
            let (off, off_other) = (
                size_of_units(quotient.units() * b.units() - exact),
                size_of_units(other.units() * b.units() - exact),
            );
            &&& !quotient.nan()
            &&& quotient.negative() == (a.negative() != b.negative())
            &&& quotient.infinite() <==> 2 * size_of_units(exact) >= (0x1ff_ffff * pow2(253))
                * size_of_units(b.units())
            &&& quotient.finite() ==> off <= off_other
            &&& quotient.finite() && off == off_other && quotient.units() != other.units()
                ==> quotient.magnitude() % 2 == 0
        }),
{
    reveal(Single::spec_over);
    lemma_pow2_pos(149);
    lemma_order(b, b);
    let (u, v) = (units_of(a.magnitude()), units_of(b.magnitude()));
    let (i, w) = (u as int, one() as int);
    assert((-i) * w == -(i * w) && i * w >= 0) by (nonlinear_arith)
        requires
            i >= 0,
            w >= 0,
    ;
    lemma_signed_nearest(a.negative() != b.negative(), u * one(), v, other);
    let (r, c, j) = (a.over(b).units(), other.units(), v as int);
    assert(r * (-j) == -(r * j) && c * (-j) == -(c * j)) by (nonlinear_arith);
}

/// Beyond the finite numbers: what is no number gives no number; an infinity outweighs every finite
/// number, and two of them add up where they agree in sign.
pub proof fn law_sums_beyond_numbers(a: Single, b: Single)
    ensures
        a.nan() || b.nan() ==> a.plus(b).nan(),
        a.infinite() && b.finite() ==> a.plus(b) == a && b.plus(a) == a,
        a.infinite() && b.infinite() && a.negative() == b.negative() ==> a.plus(b) == a,
        a.infinite() && b.infinite() && a.negative() != b.negative() ==> a.plus(b).nan(),
{
    reveal(Single::spec_plus);
}

/// Beyond the finite numbers: an infinity times a number other than 0 is an infinity, with the sign
/// of a product, and times 0 it is no number.
pub proof fn law_products_beyond_numbers(a: Single, b: Single)
    ensures
        a.nan() || b.nan() ==> a.times(b).nan(),
        a.infinite() && b.zero() ==> a.times(b).nan() && b.times(a).nan(),
        a.infinite() && !b.nan() && !b.zero() ==> {
            &&& a.times(b).infinite() && a.times(b).negative() == (a.negative() != b.negative())
            &&& b.times(a).infinite() && b.times(a).negative() == (a.negative() != b.negative())
        },
{
    reveal(Single::spec_times);
}

/// Beyond the finite numbers: what is divided by 0 is an infinity, what is divided by an infinity
/// is 0, with the sign of a quotient; 0 by 0 and an infinity by an infinity are no numbers.
pub proof fn law_quotients_beyond_numbers(a: Single, b: Single)
    ensures
        a.nan() || b.nan() ==> a.over(b).nan(),
        a.zero() && b.zero() ==> a.over(b).nan(),
        a.infinite() && b.infinite() ==> a.over(b).nan(),
        !a.nan() && !a.zero() && b.zero() ==> a.over(b).infinite() && a.over(b).negative() == (
        a.negative() != b.negative()),
        a.infinite() && b.finite() ==> a.over(b).infinite() && a.over(b).negative() == (
        a.negative() != b.negative()),
        a.finite() && b.infinite() ==> a.over(b).zero() && a.over(b).negative() == (a.negative()
            != b.negative()),
{
    reveal(Single::spec_over);
}

/// A finite number is whole, or lies below 2^23 in size.
proof fn lemma_whole_or_small(x: Single) -> (n: int)
    requires
        x.finite(),
    ensures
        measures(x, n) || -0x80_0000 * one() < x.units() < 0x80_0000 * one(),
{
    let m = x.magnitude();
    let e = exponent_of(m);
    if e >= 149 {
        let k = lemma_multiple(m, 149);
        assert((-k) * one() == -(k * one())) by (nonlinear_arith);
        if x.negative() {
            -k
        } else {
            k
        }
    } else {
        lemma_parts(m);
        lemma_pow2_unfold(e + 1);
        if e + 1 < 149 {
            lemma_pow2_strictly_increases(e + 1, 149);
        }
        lemma_pow2_pos(e);
        let s = significand_of(m);
        assert(s * pow2(e) < 0x80_0000 * one()) by (nonlinear_arith)
            requires
                s < 0x100_0000,
                2 * pow2(e) <= one(),
                pow2(e) > 0,
        ;
        0
    }
}

/// The floor of a finite number is the whole number at it or next below it.
pub proof fn law_floor_is_next_below(x: Single)
    requires
        x.finite(),
    ensures
        x.floor().finite(),
        x.floor().units() % one() as int == 0,
        x.floor().units() <= x.units() < x.floor().units() + one(),
{
    reveal(Single::spec_floor);
    lemma_pow2_pos(149);
    let w = one() as int;
    let u = x.units();
    let n = u / w;
    lemma_fundamental_div_mod(u, w);
    assert(w * n == n * w) by (nonlinear_arith);
    let k = lemma_whole_or_small(x);
    if measures(x, k) {
        lemma_fundamental_div_mod_converse(u, w, k, 0);
        lemma_from_own_units(x);
    } else {
        assert(-0x80_0000 <= n < 0x80_0000) by (nonlinear_arith)
            requires
                -0x80_0000 * w < u < 0x80_0000 * w,
                u == n * w + u % w,
                0 <= u % w < w,
                w > 0,
        ;
        lemma_from_whole(n, x.negative());
    }
    lemma_fundamental_div_mod_converse(n * w, w, n, 0);
}

/// A finite number is rounded to a whole number at most a half away, and to the one farther from 0
/// where two are.
pub proof fn law_round_is_nearest_whole(x: Single)
    requires
        x.finite(),
    ensures
        x.round().finite(),
        x.round().units() % one() as int == 0,
        2 * size_of_units(x.round().units() - x.units()) <= one(),
        2 * size_of_units(x.round().units() - x.units()) == one() ==> size_of_units(
            x.round().units(),
        ) > size_of_units(x.units()),
{
    reveal(Single::spec_round);
    lemma_pow2_pos(149);
    let w = one() as int;
    let u = units_of(x.magnitude()) as int;
    let n = (2 * u + w) / (2 * w);
    lemma_fundamental_div_mod(2 * u + w, 2 * w);
    assert((2 * w) * n == 2 * (n * w)) by (nonlinear_arith);
    let signed = if x.negative() {
        -n
    } else {
        n
    };
    assert((-n) * w == -(n * w)) by (nonlinear_arith);
    let k = lemma_whole_or_small(x);
    if measures(x, k) {
        let j = if x.negative() {
            -k
        } else {
            k
        };
        assert((-k) * w == -(k * w)) by (nonlinear_arith);
        assert(u == j * w);
        assert(2 * (j * w) == (2 * w) * j) by (nonlinear_arith);
        lemma_fundamental_div_mod_converse(2 * u + w, 2 * w, j, w);
        lemma_from_own_units(x);
    } else {
        assert(0 <= n <= 0x80_0000) by (nonlinear_arith)
            requires
                0 <= u < 0x80_0000 * w,
                2 * u + w == 2 * (n * w) + (2 * u + w) % (2 * w),
                0 <= (2 * u + w) % (2 * w) < 2 * w,
                w > 0,
        ;
        lemma_from_whole(signed, x.negative());
    }
    lemma_fundamental_div_mod_converse(signed * w, w, signed, 0);
}

/// A number becomes the whole number that it has before its fraction; one below 0 becomes 0, one
/// that is too large the largest, and what is no number becomes 0.
pub proof fn law_size_is_cut_off(x: Single)
    ensures
        x.nan() ==> x.to_usize() == 0,
        x.negative() ==> x.to_usize() == 0,
        x.infinite() && !x.negative() ==> x.to_usize() == usize::MAX,
        x.finite() && !x.negative() ==> {
            let n = x.to_usize();
            &&& n * one() <= x.units()
            &&& n < usize::MAX ==> x.units() < (n + 1) * one()
        },
{
    reveal(Single::spec_to_usize);
    lemma_pow2_pos(149);
    if x.finite() && !x.negative() {
        let (u, w) = (x.units(), one() as int);
        let k = u / w;
        let n = x.to_usize() as int;
        lemma_fundamental_div_mod(u, w);
        assert(k >= 0) by (nonlinear_arith)
            requires
                u == w * k + u % w,
                u >= 0,
                u % w < w,
                w > 0,
        ;
        assert(n * w <= w * k) by (nonlinear_arith)
            requires
                n <= k,
                w > 0,
        ;
        assert((k + 1) * w == w * k + w) by (nonlinear_arith);
    }
}

/// A number becomes the whole number that it has before its fraction, toward 0; one that is too
/// large or too small becomes the largest or the smallest, and what is no number becomes 0.
pub proof fn law_whole_is_cut_off(x: Single)
    ensures
        x.nan() ==> x.to_i32() == 0,
        x.infinite() ==> x.to_i32() == if x.negative() {
            i32::MIN
        } else {
            i32::MAX
        },
        x.finite() ==> {
            let n = x.to_i32();
            &&& x.negative() ==> n <= 0 && x.units() <= n * one() && (n > i32::MIN ==> (n - 1)
                * one() < x.units())
            &&& !x.negative() ==> n >= 0 && n * one() <= x.units() && (n < i32::MAX ==> x.units()
                < (n + 1) * one())
        },
{
    reveal(Single::spec_to_i32);
    lemma_pow2_pos(149);
    if x.finite() {
        let (u, w) = (units_of(x.magnitude()) as int, one() as int);
        let k = u / w;
        let n = size_of_units(x.to_i32() as int);
        lemma_fundamental_div_mod(u, w);
        assert(k >= 0) by (nonlinear_arith)
            requires
                u == w * k + u % w,
                u >= 0,
                u % w < w,
                w > 0,
        ;
        assert(n * w <= w * k) by (nonlinear_arith)
            requires
                n <= k,
                w > 0,
        ;
        assert((k + 1) * w == w * k + w) by (nonlinear_arith);
        assert((-n) * w == -(n * w) && (-n - 1) * w == -((n + 1) * w)) by (nonlinear_arith);
    }
}

/// A whole number of 64 bits lies far below the largest number.
proof fn lemma_words_are_finite(n: int)
    requires
        -0x1_0000_0000_0000_0000 <= n <= 0x1_0000_0000_0000_0000,
    ensures
        2 * size_of_units(n * one()) < 0x1ff_ffff * pow2(253),
{
    lemma2_to64();
    lemma_pow2_pos(149);
    lemma_pow2_adds(64, 149);
    lemma_pow2_strictly_increases(213, 253);
    let w = one() as int;
    assert(-(pow2(64) * w) <= n * w <= pow2(64) * w) by (nonlinear_arith)
        requires
            -pow2(64) <= n <= pow2(64),
            w > 0,
    ;
}

/// A whole number becomes the nearest number, and itself below 2^24 in size.
pub proof fn law_whole_is_nearest(n: i32, other: Single)
    requires
        other.finite(),
    ensures
        ({
            let x = Single::from_i32(n);
            &&& x.finite()
            &&& size_of_units(x.units() - n * one()) <= size_of_units(other.units() - n * one())
            &&& -exact_limit() < n < exact_limit() ==> measures(x, n as int)
        }),
{
    reveal(Single::spec_from_i32);
    lemma_words_are_finite(n as int);
    lemma_units_nearest(n * one(), false, other);
    if -exact_limit() < n < exact_limit() {
        lemma_from_whole(n as int, false);
    }
}

/// A size becomes the nearest number, and itself below 2^24.
pub proof fn law_size_is_nearest(n: usize, other: Single)
    requires
        other.finite(),
    ensures
        ({
            let x = Single::from_usize(n);
            &&& x.finite()
            &&& size_of_units(x.units() - n * one()) <= size_of_units(other.units() - n * one())
            &&& n < exact_limit() ==> measures(x, n as int)
        }),
{
    reveal(Single::spec_from_usize);
    lemma_words_are_finite(n as int);
    lemma_units_nearest(n * one(), false, other);
    if n < exact_limit() {
        lemma_from_whole(n as int, false);
    }
}

} // verus!
