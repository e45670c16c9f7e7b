//! Rounding of exact quotients to the nearest single-precision magnitude.
//!
//! Magnitudes are counted in units of 2^-149, the smallest positive single, so that every finite
//! single is a whole number of units. The encoded magnitude of a number with significand `k` and
//! unit exponent `e` is `e * 2^23 + k`; a significand that was rounded up to 2^24 carries into the
//! exponent by itself.

use vstd::arithmetic::div_mod::lemma_fundamental_div_mod;
use vstd::arithmetic::div_mod::lemma_fundamental_div_mod_converse;
use vstd::arithmetic::power2::lemma2_to64;
use vstd::arithmetic::power2::lemma_pow2_adds;
use vstd::arithmetic::power2::lemma_pow2_pos;
use vstd::arithmetic::power2::lemma_pow2_strictly_increases;
use vstd::arithmetic::power2::lemma_pow2_unfold;
use vstd::arithmetic::power2::pow2;
use vstd::prelude::*;

verus! {

/// The encoded magnitude of infinity.
pub const INFINITE: u32 = 0x7f80_0000;

/// The encoding step from one unit exponent to the next.
pub const STEP: u32 = 0x80_0000;

/// The whole number nearest to `p / q`, the even one of two that are equally near.
pub open spec fn nearest(p: nat, q: nat) -> nat {
    let whole = p / q;
    let rest = p % q;
    if 2 * rest > q || (2 * rest == q && whole % 2 == 1) {
        whole + 1
    } else {
        whole
    }
}

/// The least exponent `e` such that `p / q` is below 2^(24 + e): the exponent of the last place
/// that a 24-bit significand of `p / q` keeps.
pub open spec fn last_place(p: nat, q: nat) -> nat
    decreases p - q,
{
    if q == 0 || p < q * 0x100_0000 {
        0
    } else {
        1 + last_place(p, 2 * q)
    }
}

/// The encoded magnitude of `p / q` units, rounded to nearest with ties to even.
pub open spec fn rounded(p: nat, q: nat) -> int {
    let e = last_place(p, q);
    let encoded = e * STEP + nearest(p, q * pow2(e));
    if encoded < INFINITE {
        encoded
    } else {
        INFINITE as int
    }
}

/// `nearest` from a quotient and a remainder.
pub proof fn lemma_nearest_parts(p: nat, q: nat, whole: nat, rest: nat)
    requires
        rest < q,
        p == whole * q + rest,
    ensures
        nearest(p, q) == if 2 * rest > q || (2 * rest == q && whole % 2 == 1) {
            whole + 1
        } else {
            whole
        },
{
    lemma_fundamental_div_mod_converse(p as int, q as int, whole as int, rest as int);
}

/// A common factor of numerator and denominator does not change what is nearest.
pub proof fn lemma_nearest_scaled(p: nat, q: nat, c: nat)
    requires
        q > 0,
        c > 0,
    ensures
        nearest(p * c, q * c) == nearest(p, q),
{
    let whole = p / q;
    let rest = p % q;
    lemma_fundamental_div_mod(p as int, q as int);
    assert(p * c == whole * (q * c) + rest * c && rest * c < q * c && 0 < q * c)
        by (nonlinear_arith)
        requires
            p == q * whole + rest,
            rest < q,
            c > 0,
            q > 0,
    ;
    lemma_nearest_parts(p * c, q * c, whole, rest * c);
    assert(2 * (rest * c) > q * c <==> 2 * rest > q) by (nonlinear_arith)
        requires
            c > 0,
    ;
    assert(2 * (rest * c) == q * c <==> 2 * rest == q) by (nonlinear_arith)
        requires
            c > 0,
    ;
}

/// `last_place` is the only exponent with its two bounds.
pub proof fn lemma_last_place(p: nat, q: nat, e: nat)
    requires
        q > 0,
        p < q * pow2(24 + e),
        e == 0 || p >= q * pow2((23 + e) as nat),
    ensures
        last_place(p, q) == e,
    decreases e,
{
    lemma2_to64();
    if e > 0 {
        let prior = (e - 1) as nat;
        lemma_pow2_unfold(24 + e);
        assert(23 + e == 24 + prior);
        lemma_pow2_unfold((23 + e) as nat);
        if e > 1 {
            lemma_pow2_strictly_increases(24, (23 + e) as nat);
        }
        assert(q * pow2((23 + e) as nat) >= q * 0x100_0000) by (nonlinear_arith)
            requires
                pow2((23 + e) as nat) >= 0x100_0000,
        ;
        assert(q * (2 * pow2(24 + prior)) == (2 * q) * pow2(24 + prior)) by (nonlinear_arith);
        if prior > 0 {
            assert((23 + e - 1) as nat == (23 + prior) as nat);
            assert(q * (2 * pow2((23 + prior) as nat)) == (2 * q) * pow2((23 + prior) as nat))
                by (nonlinear_arith);
        }
        lemma_last_place(p, 2 * q, prior);
    }
}

/// The two bounds of `last_place`.
pub proof fn lemma_last_place_bounds(p: nat, q: nat)
    requires
        q > 0,
    ensures
        p < q * pow2(24 + last_place(p, q)),
        last_place(p, q) == 0 || p >= q * pow2((23 + last_place(p, q)) as nat),
    decreases p - q,
{
    lemma2_to64();
    if p >= q * 0x100_0000 {
        lemma_last_place_bounds(p, 2 * q);
        let prior = last_place(p, 2 * q);
        let e = last_place(p, q);
        assert(e == 1 + prior);
        lemma_pow2_unfold(24 + e);
        assert((24 + e - 1) as nat == 24 + prior);
        assert(q * (2 * pow2(24 + prior)) == (2 * q) * pow2(24 + prior)) by (nonlinear_arith);
        if prior > 0 {
            lemma_pow2_unfold((23 + e) as nat);
            assert((23 + e - 1) as nat == (23 + prior) as nat);
            assert(q * (2 * pow2((23 + prior) as nat)) == (2 * q) * pow2((23 + prior) as nat))
                by (nonlinear_arith);
        }
    }
}

/// Nothing rounds to nothing.
pub proof fn lemma_rounded_zero(q: nat)
    requires
        q > 0,
    ensures
        rounded(0, q) == 0,
{
    lemma2_to64();
    assert(0 < q * pow2(24)) by (nonlinear_arith)
        requires
            q > 0,
            pow2(24) > 0,
    ;
    lemma_last_place(0, q, 0);
    assert(q * pow2(0) == q);
    lemma_nearest_parts(0, q, 0, 0);
}

/// A common factor of numerator and denominator does not change the rounded quotient.
pub proof fn lemma_rounded_scaled(p: nat, q: nat, c: nat)
    requires
        q > 0,
        c > 0,
    ensures
        rounded(p * c, q * c) == rounded(p, q),
{
    let e = last_place(p, q);
    lemma_last_place_bounds(p, q);
    let high = pow2(24 + e);
    let low = pow2((23 + e) as nat);
    let unit = pow2(e);
    lemma_pow2_pos(e);
    assert(p * c < (q * c) * high && q * c > 0) by (nonlinear_arith)
        requires
            p < q * high,
            c > 0,
            q > 0,
    ;
    if e > 0 {
        assert(p * c >= (q * c) * low) by (nonlinear_arith)
            requires
                p >= q * low,
                c > 0,
        ;
    }
    lemma_last_place(p * c, q * c, e);
    assert((q * c) * unit == (q * unit) * c && q * unit > 0) by (nonlinear_arith)
        requires
            q > 0,
            unit > 0,
    ;
    lemma_nearest_scaled(p, q * unit, c);
}

/// The part of `exponent` that multiplies a numerator.
pub open spec fn upward(exponent: int) -> nat {
    if exponent >= 0 {
        exponent as nat
    } else {
        0
    }
}

/// The part of `exponent` that multiplies a denominator.
pub open spec fn downward(exponent: int) -> nat {
    if exponent >= 0 {
        0
    } else {
        (-exponent) as nat
    }
}

/// Two ways to write one quotient: as `num * 2^a / (den * 2^(b + x))`, and with a numerator of 48
/// more bits as `num * 2^48 / (den * 2^y)`.
proof fn lemma_same_quotient(num: nat, den: nat, a: nat, b: nat, x: nat, y: nat)
    requires
        den > 0,
        y + a == x + b + 48,
    ensures
        num * pow2(a) < (den * pow2(b)) * pow2(x) <==> num * pow2(48) < den * pow2(y),
        nearest(num * pow2(a), (den * pow2(b)) * pow2(x)) == nearest(
            num * pow2(48),
            den * pow2(y),
        ),
{
    lemma_pow2_pos(a);
    lemma_pow2_pos(b);
    lemma_pow2_pos(x);
    lemma_pow2_pos(y);
    lemma_pow2_pos(48);
    let (pa, pb, px, py, pz) = (pow2(a), pow2(b), pow2(x), pow2(y), pow2(48));
    assert(py * pa == pb * px * pz) by {
        lemma_pow2_adds(y, a);
        lemma_pow2_adds(b, x);
        lemma_pow2_adds(b + x, 48);
        assert(y + a == b + x + 48);
    }
    let p = num * pa;
    let q = (den * pb) * px;
    assert(p * pz == (num * pz) * pa && q * pz == (den * py) * pa && q > 0 && den * py > 0)
        by (nonlinear_arith)
        requires
            p == num * pa,
            q == (den * pb) * px,
            py * pa == pb * px * pz,
            den > 0,
            pb > 0,
            px > 0,
            py > 0,
    ;
    assert(p < q <==> p * pz < q * pz) by (nonlinear_arith)
        requires
            pz > 0,
    ;
    let w = num * pz;
    let d = den * py;
    assert(w < d <==> w * pa < d * pa) by (nonlinear_arith)
        requires
            pa > 0,
    ;
    lemma_nearest_scaled(p, q, pz);
    lemma_nearest_scaled(w, d, pa);
}

/// 2 to the power `exponent`.
pub(crate) fn power_of_two(exponent: u32) -> (power: u128)
    requires
        exponent <= 120,
    ensures
        power == pow2(exponent as nat),
{
    let mut power: u128 = 1;
    let mut i: u32 = 0;
    proof {
        lemma2_to64();
        lemma_bound_120();
    }
    while i < exponent
        invariant
            i <= exponent <= 120,
            power == pow2(i as nat),
            pow2(120) * 2 <= u128::MAX,
        decreases exponent - i,
    {
        proof {
            lemma_pow2_unfold((i + 1) as nat);
            if i < 120 {
                lemma_pow2_strictly_increases(i as nat, 120);
            }
        }
        power = power * 2;
        i = i + 1;
    }
    power
}

/// The values of some powers of two.
proof fn lemma_bound_120()
    ensures
        pow2(48) == 0x1_0000_0000_0000,
        pow2(112) == 0x1_0000_0000_0000_0000_0000_0000_0000,
        pow2(113) == 0x2_0000_0000_0000_0000_0000_0000_0000,
        pow2(120) == 0x100_0000_0000_0000_0000_0000_0000_0000,
{
    lemma2_to64();
    lemma_pow2_adds(16, 32);
    lemma_pow2_adds(48, 64);
    lemma_pow2_adds(112, 1);
    lemma_pow2_adds(112, 8);
}

/// Rounds a quotient with a remainder to a multiple of `unit`.
fn round_parts(
    quotient: u128,
    inexact: bool,
    unit: u128,
    Ghost(wide): Ghost<nat>,
    Ghost(den): Ghost<nat>,
) -> (k: u128)
    requires
        den > 0,
        unit >= 2,
        unit % 2 == 0,
        quotient == wide / den,
        inexact == (wide % den != 0),
        quotient < u128::MAX,
    ensures
        k == nearest(wide, den * unit as nat),
        k <= quotient / unit + 1,
{
    let whole: u128 = quotient / unit;
    let rest: u128 = quotient % unit;
    let half: u128 = unit / 2;
    let up: bool = rest > half || (rest == half && (inexact || whole % 2 == 1));
    proof {
        let left: nat = wide % den;
        lemma_fundamental_div_mod(wide as int, den as int);
        lemma_fundamental_div_mod(quotient as int, unit as int);
        let low: nat = (rest * den + left) as nat;
        assert(wide == whole * (den * unit) + low && low < den * unit) by (nonlinear_arith)
            requires
                wide == den * quotient + left,
                quotient == unit * whole + rest,
                low == rest * den + left,
                left < den,
                rest < unit,
        ;
        lemma_nearest_parts(wide, den * unit as nat, whole as nat, low);
        assert(rest > half ==> 2 * low > den * unit) by (nonlinear_arith)
            requires
                unit == 2 * half,
                low == rest * den + left,
                left >= 0,
                den > 0,
        ;
        assert(rest < half ==> 2 * low < den * unit) by (nonlinear_arith)
            requires
                unit == 2 * half,
                low == rest * den + left,
                left < den,
                den > 0,
        ;
        assert(rest == half ==> 2 * low == den * unit + 2 * left) by (nonlinear_arith)
            requires
                unit == 2 * half,
                low == rest * den + left,
        ;
        assert(whole <= quotient) by (nonlinear_arith)
            requires
                quotient == unit * whole + rest,
                unit >= 1,
                rest >= 0,
                whole >= 0,
        ;
    }
    if up {
        whole + 1
    } else {
        whole
    }
}

/// Rounds `num * 2^exponent / den` units to an encoded magnitude.
pub fn round_quotient(num: u64, den: u32, exponent: i32) -> (encoded: u32)
    requires
        num > 0,
        0 < den < 0x100_0000,
        -300 <= exponent <= 450,
    ensures
        encoded == rounded(
            num as nat * pow2(upward(exponent as int)),
            den as nat * pow2(downward(exponent as int)),
        ),
        encoded <= INFINITE,
{
    let ghost a = upward(exponent as int);
    let ghost b = downward(exponent as int);
    let ghost p = num as nat * pow2(a);
    let ghost q = den as nat * pow2(b);
    proof {
        lemma2_to64();
        lemma_bound_120();
        lemma_pow2_pos(b);
        assert(q > 0) by (nonlinear_arith)
            requires
                q == den as nat * pow2(b),
                den > 0,
                pow2(b) > 0,
        ;
    }
    let wide: u128 = (num as u128) * 0x1_0000_0000_0000;
    let divisor: u128 = den as u128;
    let quotient: u128 = wide / divisor;
    let inexact: bool = wide % divisor != 0;
    let ghost d = den as nat;
    proof {
        lemma_fundamental_div_mod(wide as int, divisor as int);
        assert(wide >= 0x1_0000_0000_0000);
        assert(quotient >= 0x100_0000) by (nonlinear_arith)
            requires
                wide == divisor * quotient + wide % divisor,
                wide % divisor < divisor,
                wide >= 0x1_0000_0000_0000,
                divisor < 0x100_0000,
        ;
        assert(quotient <= wide) by (nonlinear_arith)
            requires
                wide == divisor * quotient + wide % divisor,
                0 <= wide % divisor,
                divisor >= 1,
        ;
    }
    let mut places: u32 = 0;
    let mut top: u128 = 0x100_0000;
    while quotient >= top
        invariant
            places <= 88,
            top == pow2((24 + places) as nat),
            places == 0 || quotient >= pow2((23 + places) as nat),
            quotient < pow2(112),
            pow2(112) == 0x1_0000_0000_0000_0000_0000_0000_0000,
        decreases 88 - places,
    {
        proof {
            lemma_pow2_unfold((25 + places) as nat);
            assert((25 + places - 1) as nat == (24 + places) as nat);
            if places >= 88 {
                assert(pow2(112) == pow2((24 + places) as nat));
            }
        }
        places = places + 1;
        top = top * 2;
    }
    assert(places >= 1);
    let tight: i32 = (places as i32) + exponent - 48;
    let e: u32;
    let shift: u32;
    if tight >= 0 {
        e = tight as u32;
        shift = places;
    } else {
        e = 0;
        shift = (48 - exponent) as u32;
    }
    proof {
        // The quotient decides every comparison of `wide` with a multiple of the divisor.
        assert forall|y: nat| #![auto] (wide < d * pow2(y) <==> quotient < pow2(y)) by {
            lemma_pow2_pos(y);
            let z = pow2(y);
            assert(wide < d * z <==> quotient < z) by (nonlinear_arith)
                requires
                    wide == divisor * quotient + wide % divisor,
                    0 <= wide % divisor < divisor,
                    d == divisor,
            ;
        }
        lemma_same_quotient(num as nat, d, a, b, (24 + e) as nat, (24 + shift) as nat);
        assert(wide == num as nat * pow2(48));
        if shift > places {
            lemma_pow2_strictly_increases((24 + places) as nat, (24 + shift) as nat);
        }
        assert(p < q * pow2((24 + e) as nat));
        if e > 0 {
            lemma_same_quotient(num as nat, d, a, b, (23 + e) as nat, (23 + shift) as nat);
            assert(p >= q * pow2((23 + e) as nat));
        }
        lemma_last_place(p, q, e as nat);
        lemma_same_quotient(num as nat, d, a, b, e as nat, shift as nat);
        assert(nearest(p, q * pow2(e as nat)) == nearest(wide as nat, d * pow2(shift as nat)));
    }
    let k: u128;
    if shift > 112 {
        k = 0;
        proof {
            if shift > 113 {
                lemma_pow2_strictly_increases(113, shift as nat);
            }
            let z = pow2(shift as nat);
            assert(2 * wide < d * z) by (nonlinear_arith)
                requires
                    2 * wide < z,
                    d >= 1,
            ;
            lemma_nearest_parts(wide as nat, d * z, 0, wide as nat);
        }
    } else {
        let unit: u128 = power_of_two(shift);
        proof {
            lemma_pow2_unfold(shift as nat);
            lemma_pow2_pos((shift - 1) as nat);
        }
        k = round_parts(quotient, inexact, unit, Ghost(wide as nat), Ghost(d));
        proof {
            lemma_pow2_adds(24, shift as nat);
            assert(quotient / unit < 0x100_0000) by (nonlinear_arith)
                requires
                    quotient < 0x100_0000 * unit,
                    unit > 0,
            ;
        }
    }
    let encoded: u64 = (e as u64) * 0x80_0000 + (k as u64);
    if encoded < 0x7f80_0000 {
        encoded as u32
    } else {
        INFINITE
    }
}

} // verus!
