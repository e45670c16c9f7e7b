//! Whole numbers of pixels, on which the arithmetic is exact.

use crate::rounding::last_place;
use crate::rounding::lemma_last_place_bounds;
use crate::rounding::lemma_nearest_parts;
use crate::rounding::lemma_rounded_scaled;
use crate::rounding::nearest;
use crate::rounding::rounded;
use crate::rounding::INFINITE;
use crate::rounding::STEP;
use crate::single::exponent_of;
use crate::single::lemma_order;
use crate::single::lemma_parts;
use crate::single::one;
use crate::single::significand_of;
use crate::single::units_of;
use crate::single::Single;
use vstd::arithmetic::div_mod::lemma_fundamental_div_mod;
use vstd::arithmetic::power2::lemma2_to64;
use vstd::arithmetic::power2::lemma_pow2_adds;
use vstd::arithmetic::power2::lemma_pow2_pos;
use vstd::arithmetic::power2::lemma_pow2_strictly_increases;
use vstd::arithmetic::power2::lemma_pow2_unfold;
use vstd::arithmetic::power2::pow2;
use vstd::prelude::*;

verus! {

/// Whether a number is the whole number `n`.
pub open spec fn measures(x: Single, n: int) -> bool {
    x.finite() && x.units() == n * one()
}

/// The numbers below this size are exact.
pub open spec fn exact_limit() -> int {
    0x100_0000
}

/// Whether a number is whole, of whatever size, or infinite.
pub open spec fn whole_or_infinite(x: Single) -> bool {
    x.infinite() || (x.finite() && exists|n: int| measures(x, n))
}

/// The value of an encoding with significand `k` and unit exponent `e`, also where the significand
/// carries.
pub proof fn lemma_encoded_value(e: nat, k: nat)
    requires
        k <= 0x100_0000,
        e == 0 || k >= STEP,
    ensures
        units_of((e * STEP + k) as nat) == k * pow2(e),
{
    let magnitude = (e * STEP + k) as nat;
    if k == 0x100_0000 {
        assert(magnitude == (e + 2) * 0x80_0000);
        assert(exponent_of(magnitude) == e + 1);
        assert(significand_of(magnitude) == 0x80_0000);
        lemma_pow2_unfold(e + 1);
        assert(0x80_0000 * (2 * pow2(e)) == 0x100_0000 * pow2(e)) by (nonlinear_arith);
    } else if k >= STEP {
        assert(exponent_of(magnitude) == e);
        assert(significand_of(magnitude) == k);
    } else {
        assert(exponent_of(magnitude) == 0);
    }
}

/// A significand that was rounded from its last place fits the encoding.
pub proof fn lemma_rounded_significand(p: nat, q: nat)
    requires
        q > 0,
    ensures
        nearest(p, q * pow2(last_place(p, q))) <= 0x100_0000,
        last_place(p, q) > 0 ==> nearest(p, q * pow2(last_place(p, q))) >= STEP,
{
    lemma2_to64();
    let e = last_place(p, q);
    let unit = pow2(e);
    lemma_last_place_bounds(p, q);
    lemma_pow2_pos(e);
    lemma_pow2_adds(24, e);
    lemma_pow2_adds(23, e);
    let d = q * unit;
    assert(d > 0 && q * (0x100_0000 * unit) == 0x100_0000 * d && q * (0x80_0000 * unit) == 0x80_0000
        * d) by (nonlinear_arith)
        requires
            q > 0,
            unit > 0,
            d == q * unit,
    ;
    lemma_fundamental_div_mod(p as int, d as int);
    let whole = p / d;
    assert(whole < 0x100_0000) by (nonlinear_arith)
        requires
            p < 0x100_0000 * d,
            p == d * whole + p % d,
            p % d >= 0,
            d > 0,
    ;
    if e > 0 {
        assert(whole >= 0x80_0000) by (nonlinear_arith)
            requires
                p >= 0x80_0000 * d,
                p == d * whole + p % d,
                p % d < d,
                d > 0,
        ;
    }
}

/// A whole number rounds to a whole number or to infinity, and to itself where it is small.
proof fn lemma_round_whole(n: nat) -> (m: nat)
    ensures
        0 <= rounded(n * one(), 1) <= INFINITE,
        rounded(n * one(), 1) < INFINITE ==> units_of(rounded(n * one(), 1) as nat) == m * one(),
        n < exact_limit() ==> rounded(n * one(), 1) < INFINITE && m == n,
{
    lemma2_to64();
    let p = n * one();
    let e = last_place(p, 1);
    let unit = pow2(e);
    let k = nearest(p, unit);
    lemma_pow2_pos(149);
    lemma_pow2_pos(e);
    lemma_rounded_significand(p, 1);
    lemma_encoded_value(e, k);
    lemma_last_place_bounds(p, 1);
    assert(1 * unit == unit);
    let result = if e <= 149 {
        let s = (149 - e) as nat;
        lemma_pow2_adds(s, e);
        let m = n * pow2(s);
        assert(n * (pow2(s) * unit) == m * unit) by (nonlinear_arith)
            requires
                m == n * pow2(s),
        ;
        lemma_nearest_parts(p, unit, m, 0);
        assert(k == m);
        n
    } else {
        let s = (e - 149) as nat;
        lemma_pow2_adds(s, 149);
        let m = k * pow2(s);
        assert(k * (pow2(s) * one()) == m * one()) by (nonlinear_arith)
            requires
                m == k * pow2(s),
        ;
        m
    };
    if n < exact_limit() {
        if e > 149 {
            lemma_pow2_adds(24, 149);
            if e > 150 {
                lemma_pow2_strictly_increases(173, (23 + e) as nat);
            }
            assert(p < 0x100_0000 * one()) by (nonlinear_arith)
                requires
                    p == n * one(),
                    n < 0x100_0000,
                    one() > 0,
            ;
        }
        assert(e <= 149);
        assert(e * STEP + k < INFINITE);
    }
    result
}

/// `from_units` of a whole number.
pub proof fn lemma_from_whole(n: int, negative: bool)
    ensures
        -exact_limit() < n < exact_limit() ==> measures(
            Single::from_units(n * one(), negative),
            n,
        ),
        whole_or_infinite(Single::from_units(n * one(), negative)),
{
    lemma_pow2_pos(149);
    lemma_parts(0);
    let x = Single::from_units(n * one(), negative);
    if n == 0 {
        assert(n * one() == 0) by (nonlinear_arith)
            requires
                n == 0,
        ;
        assert(units_of(0) == 0) by (nonlinear_arith)
            requires
                units_of(0) == significand_of(0) * pow2(exponent_of(0)),
                significand_of(0) == 0,
        ;
        assert(measures(x, 0));
    } else {
        let size = (if n < 0 {
            -n
        } else {
            n
        }) as nat;
        let m = lemma_round_whole(size);
        assert(n < 0 ==> n * one() < 0 && -(n * one()) == size * one()) by (nonlinear_arith)
            requires
                n < 0 ==> size == -n,
                one() > 0,
        ;
        assert(n > 0 ==> n * one() > 0) by (nonlinear_arith)
            requires
                one() > 0,
        ;
        let r = rounded(size * one(), 1);
        if r != INFINITE {
            assert(0 <= r < INFINITE);
            if n < 0 {
                assert(x.units() == -(m * one()));
                assert(-(m * one()) == (-m) * one()) by (nonlinear_arith);
                assert(measures(x, -m));
            } else {
                assert(measures(x, m as int));
            }
        }
    }
}

/// The order of whole numbers is the order of integers.
pub proof fn lemma_measure_order(a: Single, m: int, b: Single, n: int)
    requires
        measures(a, m),
        measures(b, n),
    ensures
        a.lt(b) <==> m < n,
        a.le(b) <==> m <= n,
        a.zero() <==> m == 0,
{
    lemma_pow2_pos(149);
    lemma_order(a, b);
    assert(m < n <==> m * one() < n * one()) by (nonlinear_arith)
        requires
            one() > 0,
    ;
    assert(m == 0 <==> m * one() == 0) by (nonlinear_arith)
        requires
            one() > 0,
    ;
    assert(m == n <==> m * one() == n * one()) by (nonlinear_arith)
        requires
            one() > 0,
    ;
}

/// Sums and differences of whole numbers are exact while they are small.
pub proof fn lemma_measure_sum(a: Single, m: int, b: Single, n: int)
    requires
        measures(a, m),
        measures(b, n),
    ensures
        -exact_limit() < m + n < exact_limit() ==> measures(a.plus(b), m + n),
        -exact_limit() < m - n < exact_limit() ==> measures(a.minus(b), m - n),
{
    reveal(Single::spec_plus);
    assert(m * one() + n * one() == (m + n) * one()) by (nonlinear_arith);
    assert(m * one() - n * one() == (m - n) * one()) by (nonlinear_arith);
    lemma_from_whole(m + n, a.negative() && b.negative());
    lemma_from_whole(m - n, a.negative() && b.negated().negative());
    assert(b.negated().units() == -b.units());
}

/// A product of whole numbers is whole or infinite, and exact while it is small.
pub proof fn lemma_measure_product(a: Single, m: int, b: Single, n: int)
    requires
        measures(a, m),
        measures(b, n),
    ensures
        -exact_limit() < m * n < exact_limit() ==> measures(a.times(b), m * n),
        whole_or_infinite(a.times(b)),
{
    reveal(Single::spec_times);
    lemma_pow2_pos(149);
    lemma_measure_order(a, m, a, m);
    lemma_measure_order(b, n, b, n);
    let (p, q) = (units_of(a.magnitude()), units_of(b.magnitude()));
    let u = (if m < 0 {
        -m
    } else {
        m
    }) as nat;
    let v = (if n < 0 {
        -n
    } else {
        n
    }) as nat;
    let d = one();
    assert(p == u * d && (m != 0 ==> (a.negative() <==> m < 0))) by (nonlinear_arith)
        requires
            a.units() == m * d,
            a.units() == (if a.negative() {
                -(p as int)
            } else {
                p as int
            }),
            u == (if m < 0 {
                -m
            } else {
                m
            }),
            d > 0,
            p >= 0,
    ;
    assert(q == v * d && (n != 0 ==> (b.negative() <==> n < 0))) by (nonlinear_arith)
        requires
            b.units() == n * d,
            b.units() == (if b.negative() {
                -(q as int)
            } else {
                q as int
            }),
            v == (if n < 0 {
                -n
            } else {
                n
            }),
            d > 0,
            q >= 0,
    ;
    assert((u * d) * (v * d) == ((u * v) * d) * d) by (nonlinear_arith);
    lemma_rounded_scaled((u * v) * d, 1, d);
    assert(1 * d == d);
    let r = rounded((u * v) * d, 1);
    let w = lemma_round_whole(u * v);
    let negative = a.negative() != b.negative();
    let x = a.times(b);
    assert(x == Single::signed(negative, r));
    if r != INFINITE {
        assert(0 <= r < INFINITE);
        if negative {
            assert(-(w * d) == (-w) * d) by (nonlinear_arith);
            assert(measures(x, -w));
        } else {
            assert(measures(x, w as int));
        }
    }
    if -exact_limit() < m * n < exact_limit() {
        assert(u * v == (if m * n < 0 {
            -(m * n)
        } else {
            m * n
        })) by (nonlinear_arith)
            requires
                u == (if m < 0 {
                    -m
                } else {
                    m
                }),
                v == (if n < 0 {
                    -n
                } else {
                    n
                }),
        ;
        assert(m * n < 0 ==> m != 0 && n != 0 && (m < 0) != (n < 0)) by (nonlinear_arith);
        assert(m * n > 0 ==> m != 0 && n != 0 && (m < 0) == (n < 0)) by (nonlinear_arith);
        let t = m * n;
        assert(x.units() == t * d) by (nonlinear_arith)
            requires
                x.units() == (if negative {
                    -((u * v) * d)
                } else {
                    ((u * v) * d) as int
                }),
                t < 0 ==> negative && u * v == -t,
                t > 0 ==> !negative && u * v == t,
                t == 0 ==> u * v == 0,
        ;
    }
}

/// The floor of a number is whole or infinite.
pub proof fn lemma_floor_is_whole(a: Single)
    requires
        !a.nan(),
    ensures
        whole_or_infinite(a.floor()),
{
    reveal(Single::spec_floor);
    if a.finite() {
        lemma_from_whole(a.units() / one() as int, a.negative());
    }
}

/// The number nearest to a small integer is that integer.
pub proof fn lemma_from_usize_exact(n: usize)
    requires
        n < exact_limit(),
    ensures
        measures(Single::from_usize(n), n as int),
{
    reveal(Single::spec_from_usize);
    lemma_from_whole(n as int, false);
}

} // verus!
