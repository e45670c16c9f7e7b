//! Where a dragged bar comes to lie.

use crate::arithmetic::law_quotient_is_nearest;
use crate::arithmetic::size_of_units;
use crate::pixels::exact_limit;
use crate::pixels::lemma_encoded_value;
use crate::pixels::lemma_from_usize_exact;
use crate::pixels::lemma_from_whole;
use crate::pixels::lemma_measure_order;
use crate::pixels::lemma_measure_product;
use crate::pixels::lemma_measure_sum;
use crate::pixels::lemma_rounded_significand;
use crate::pixels::measures;
use crate::precision::lemma_rounded_finite;
use crate::precision::lemma_rounded_monotone;
use crate::precision::lemma_rounding_error;
use crate::rect::longest_first;
use crate::rect::min_primary;
use crate::rect::primary_cell;
use crate::rect::primary_extent;
use crate::rect::primary_offset;
use crate::rect::ratio_from_pointer;
use crate::rect::room;
use crate::rect::shortest_first;
use crate::rect::snapped_first_len;
use crate::rect::spec_ratio_from_pointer;
use crate::rect::spec_snapped_first_len;
use crate::rect::spec_split_rect;
use crate::rect::split_rect;
use crate::rect::Axis;
use crate::rect::LayoutMetrics;
use crate::rect::Rect;
use crate::rounding::last_place;
use crate::rounding::lemma_last_place_bounds;
use crate::rounding::lemma_nearest_parts;
use crate::rounding::lemma_rounded_scaled;
use crate::rounding::lemma_rounded_zero;
use crate::rounding::rounded;
use crate::rounding::INFINITE;
use crate::single::exponent_of;
use crate::single::lemma_order;
use crate::single::lemma_rounded_exact;
use crate::single::one;
use crate::single::significand_of;
use crate::single::units_of;
use crate::single::Single;
use crate::single::ONE;
use crate::single::ZERO;
use crate::tiling::lemma_constants;
use crate::tiling::lemma_pixels;
use crate::tiling::lemma_split_span;
use crate::tiling::pixel_extents;
use crate::tiling::pixel_metrics;
use crate::tiling::pixels;
use crate::tiling::whole;
use vstd::arithmetic::div_mod::lemma_fundamental_div_mod;
use vstd::arithmetic::div_mod::lemma_fundamental_div_mod_converse;
use vstd::arithmetic::power2::lemma2_to64;
use vstd::arithmetic::power2::lemma_pow2_adds;
use vstd::arithmetic::power2::lemma_pow2_pos;
use vstd::arithmetic::power2::lemma_pow2_strictly_increases;
use vstd::arithmetic::power2::pow2;
use vstd::prelude::*;

verus! {

/// Windows below this extent have room for a bar at every cell.
pub open spec fn drag_limit() -> int {
    0x20_0000
}

/// The number 1 holds many units.
pub proof fn lemma_one_is_large()
    ensures
        one() >= 0x1000_0000_0000_0000,
        one() % 4 == 0,
{
    lemma2_to64();
    lemma_pow2_adds(64, 85);
    lemma_pow2_pos(85);
    assert(0x1_0000_0000_0000_0000 * pow2(85) >= 0x1000_0000_0000_0000 && (
    0x1_0000_0000_0000_0000 * pow2(85)) % 4 == 0) by (nonlinear_arith)
        requires
            pow2(85) >= 1,
    ;
}

/// The size of a positive whole number.
pub proof fn lemma_positive(x: Single, n: int)
    requires
        measures(x, n),
        n >= 1,
    ensures
        !x.negative(),
        !x.zero(),
        units_of(x.magnitude()) == n * one(),
        n * one() >= one(),
{
    lemma_pow2_pos(149);
    lemma_order(x, x);
    assert(n * one() >= one()) by (nonlinear_arith)
        requires
            n >= 1,
            one() > 0,
    ;
}

/// The ratio of two whole numbers is rounded by at most its 2^24th part.
pub proof fn lemma_ratio_error(x: Single, t: int, y: Single, a: int)
    requires
        measures(x, t),
        measures(y, a),
        1 <= t < exact_limit(),
        1 <= a < exact_limit(),
    ensures
        ({
            let r = x.over(y);
            &&& r.finite()
            &&& !r.negative()
            &&& 0x100_0000 * (r.units() * a - t * one()) <= t * one()
            &&& 0x100_0000 * (t * one() - r.units() * a) <= t * one()
        }),
{
    reveal(Single::spec_over);
    lemma_positive(x, t);
    lemma_positive(y, a);
    lemma_one_is_large();
    let w = one();
    let p = ((t * w) * w) as nat;
    let q = (a * w) as nat;
    assert(p == units_of(x.magnitude()) * one());
    assert(q > 0 && p >= q * 0x80_0000 && p < (q * 0x100_0000) * w) by (nonlinear_arith)
        requires
            p == (t * w) * w,
            q == a * w,
            1 <= t < 0x100_0000,
            1 <= a < 0x100_0000,
            w >= 0x1000_0000_0000_0000,
    ;
    lemma_rounded_finite(p, q);
    lemma_rounding_error(p, q);
    let u = units_of(rounded(p, q) as nat);
    assert(x.over(y).units() == u);
    assert(0x100_0000 * (u * a - t * w) <= t * w && 0x100_0000 * (t * w - u * a) <= t * w)
        by (nonlinear_arith)
        requires
            0x100_0000 * (u * q - p) <= p,
            0x100_0000 * (p - u * q) <= p,
            p == (t * w) * w,
            q == a * w,
            w > 0,
    ;
}

/// The share that a rounded ratio gives of the whole lies within half a pixel of the exact share.
proof fn lemma_share(x: Single, t: int, y: Single, a: int)
    requires
        measures(x, t),
        measures(y, a),
        1 <= t <= a < drag_limit(),
    ensures
        ({
            let share = y.times(x.over(y));
            &&& share.finite()
            &&& !share.negative()
            &&& 2 * (share.units() - t * one()) < one()
            &&& 2 * (t * one() - share.units()) < one()
        }),
{
    reveal(Single::spec_times);
    lemma_ratio_error(x, t, y, a);
    lemma_positive(y, a);
    lemma_positive(x, t);
    lemma_one_is_large();
    let r = x.over(y);
    let u = r.units();
    let w = one();
    let p = ((a * w) * u) as nat;
    assert(u >= 0);
    let q = w;
    assert(t * w <= 0x20_0000 * w) by (nonlinear_arith)
        requires
            t <= 0x20_0000,
            w > 0,
    ;
    let product = u * a;
    assert(p == product * w && p >= q * 0x80_0000 && p < (q * 0x100_0000) * w) by (nonlinear_arith)
        requires
            p == (a * w) * u,
            product == u * a,
            q == w,
            0x80_0000 <= product < 0x100_0000 * w,
            w > 0,
    ;
    lemma_rounded_finite(p, q);
    lemma_rounding_error(p, q);
    let s = units_of(rounded(p, q) as nat);
    assert(y.times(r).units() == s);
    assert(0x100_0000 * (s - product) <= product && 0x100_0000 * (product - s) <= product)
        by (nonlinear_arith)
        requires
            0x100_0000 * (s * w - p) <= p,
            0x100_0000 * (p - s * w) <= p,
            p == product * w,
            w > 0,
    ;
}

/// The cells that fit a length near a whole number: as many as fit that number, or one fewer.
proof fn lemma_cells(x: Single, t: int, y: Single, c: int) -> (f: int)
    requires
        x.finite(),
        2 * (x.units() - t * one()) < one(),
        2 * (t * one() - x.units()) < one(),
        1 <= t < drag_limit(),
        measures(y, c),
        1 <= c < exact_limit(),
    ensures
        measures(x.over(y).floor().times(y), f * c),
        0 <= f,
        t / c - 1 <= f <= t / c,
        f * c <= t,
{
    reveal(Single::spec_over);
    reveal(Single::spec_floor);
    lemma_positive(y, c);
    lemma_one_is_large();
    lemma_order(x, x);
    let w = one();
    let d = x.units();
    assert(t * w >= w && t * w < 0x20_0000 * w) by (nonlinear_arith)
        requires
            1 <= t < 0x20_0000,
            w > 0,
    ;
    let p = (d * w) as nat;
    let q = (c * w) as nat;
    assert(q > 0 && p >= q * 0x80_0000 && p < (q * 0x100_0000) * w) by (nonlinear_arith)
        requires
            p == d * w,
            q == c * w,
            2 * d > w,
            d < 0x100_0000 * w,
            1 <= c < 0x100_0000,
            w >= 0x1000_0000_0000_0000,
    ;
    lemma_rounded_finite(p, q);
    lemma_rounding_error(p, q);
    let cells = x.over(y);
    let u = units_of(rounded(p, q) as nat);
    assert(cells.units() == u);
    assert(0x100_0000 * (u * c - d) <= d && 0x100_0000 * (d - u * c) <= d) by (nonlinear_arith)
        requires
            0x100_0000 * (u * q - p) <= p,
            0x100_0000 * (p - u * q) <= p,
            p == d * w,
            q == c * w,
            w > 0,
    ;
    let k = t / c;
    lemma_fundamental_div_mod(t, c);
    assert(c * k == k * c && (k + 1) * c == k * c + c) by (nonlinear_arith);
    assert(u < (k + 1) * w) by (nonlinear_arith)
        requires
            0x100_0000 * (u * c - d) <= d,
            2 * (d - t * w) < w,
            t * w < 0x20_0000 * w,
            t + 1 <= (k + 1) * c,
            c >= 1,
            w > 0,
    ;
    assert(u >= (k - 1) * w) by (nonlinear_arith)
        requires
            0x100_0000 * (d - u * c) <= d,
            2 * (d - t * w) < w,
            2 * (t * w - d) < w,
            t * w < 0x20_0000 * w,
            k * c <= t,
            c >= 1,
            w > 0,
    ;
    let f = u as int / w as int;
    lemma_fundamental_div_mod(u as int, w as int);
    assert(k - 1 <= f <= k && f >= 0) by (nonlinear_arith)
        requires
            u == w * f + u as int % w as int,
            0 <= u as int % (w as int) < w,
            (k - 1) * w <= u < (k + 1) * w,
            u >= 0,
            w > 0,
    ;
    assert(0 <= f * c <= t && f <= t) by (nonlinear_arith)
        requires
            0 <= f <= k,
            k * c <= t,
            c >= 1,
    ;
    lemma_from_whole(f, false);
    lemma_measure_product(cells.floor(), f, y, c);
    f
}

/// The encoded magnitude of `n / a`, rounded.
#[verifier::opaque]
spec fn share_of(n: int, a: int) -> int {
    rounded(((n * one()) * one()) as nat, (a * one()) as nat)
}

/// A quotient of whole numbers, by its encoding.
proof fn lemma_share_of(x: Single, n: int, y: Single, a: int)
    requires
        measures(x, n),
        measures(y, a),
        0 <= n < exact_limit(),
        1 <= a < exact_limit(),
        !x.negative(),
    ensures
        0 <= share_of(n, a) < INFINITE,
        x.over(y) == Single::signed(false, share_of(n, a)),
{
    reveal(share_of);
    reveal(Single::spec_over);
    lemma_positive(y, a);
    lemma_one_is_large();
    let w = one();
    let p = ((n * w) * w) as nat;
    let q = (a * w) as nat;
    assert(q > 0 && p < (q * 0x100_0000) * w && n * w >= 0 && (n * w) * w >= 0) by (nonlinear_arith)
        requires
            p == (n * w) * w,
            q == a * w,
            0 <= n < 0x100_0000,
            1 <= a < 0x100_0000,
            w >= 1,
    ;
    lemma_rounded_finite(p, q);
}

/// A larger part has no smaller ratio.
proof fn lemma_share_monotone(m: int, n: int, a: int)
    requires
        0 <= m <= n < exact_limit(),
        1 <= a < exact_limit(),
    ensures
        share_of(m, a) <= share_of(n, a),
{
    reveal(share_of);
    lemma_one_is_large();
    let w = one();
    assert(0 <= (m * w) * w <= (n * w) * w && a * w > 0) by (nonlinear_arith)
        requires
            0 <= m <= n,
            a >= 1,
            w >= 1,
    ;
    lemma_rounded_monotone(((m * w) * w) as nat, ((n * w) * w) as nat, (a * w) as nat);
}

/// The whole has ratio 1.
proof fn lemma_share_of_all(a: int)
    requires
        1 <= a < exact_limit(),
    ensures
        share_of(a, a) == ONE,
{
    reveal(share_of);
    lemma2_to64();
    lemma_one_is_large();
    lemma_pow2_adds(23, 126);
    let w = one();
    let q = (a * w) as nat;
    assert((a * w) * w == w * q && q > 0) by (nonlinear_arith)
        requires
            q == a * w,
            a >= 1,
            w >= 1,
    ;
    lemma_rounded_scaled(w, 1, q);
    assert(1 * q == q);
    assert(exponent_of(ONE as nat) == 126);
    assert(significand_of(ONE as nat) == 0x80_0000);
    lemma_rounded_exact(ONE as nat);
}

/// The length of the first part where the ratio is that of a whole length: as many cells as fit
/// that length, or one fewer, within the bounds of both parts.
proof fn lemma_first_len_of_ratio(
    available: Single,
    a: int,
    x: Single,
    t: int,
    cell: Single,
    c: int,
    min_size: Single,
    m: int,
) -> (len: int)
    requires
        measures(available, a),
        1 <= a < drag_limit(),
        measures(x, t),
        measures(cell, c),
        1 <= c < exact_limit(),
        measures(min_size, m),
        1 <= m,
        ({
            let low = if a < m {
                a
            } else {
                m
            };
            low <= t && (t <= a - low || t <= low)
        }),
    ensures
        measures(snapped_first_len(available, x.over(available), cell, min_size), len),
        (t / c - 1) * c <= len <= t,
{
    reveal(spec_snapped_first_len);
    let zero = Single::from_bits(ZERO);
    let unit = Single::from_bits(ONE);
    let w = one();
    lemma_constants();
    lemma_one_is_large();
    lemma_measure_order(available, a, zero, 0);
    lemma_measure_order(available, a, min_size, m);
    lemma_measure_order(zero, 0, cell, c);
    let low = if a < m {
        a
    } else {
        m
    };
    let least = shortest_first(available, min_size);
    assert(measures(least, low));
    lemma_measure_sum(available, a, least, low);
    lemma_measure_order(available.minus(least), a - low, least, low);
    let high = if a - low < low {
        low
    } else {
        a - low
    };
    let most = longest_first(available, min_size);
    assert(measures(most, high));
    lemma_positive(x, t);
    let ratio = x.over(available);
    lemma_share_of(x, t, available, a);
    lemma_share_monotone(t, a, a);
    lemma_share_of_all(a);
    assert(ratio.clamp(zero, unit) == ratio);
    lemma_share(x, t, available, a);
    let share = available.times(ratio);
    let desired = share.clamp(least, most);
    lemma_order(share, least);
    lemma_order(most, share);
    assert(low * w <= t * w <= high * w) by (nonlinear_arith)
        requires
            low <= t <= high,
            w > 0,
    ;
    let f = lemma_cells(desired, t, cell, c);
    let snapped = desired.over(cell).floor().times(cell);
    lemma_measure_order(snapped, f * c, least, low);
    lemma_measure_order(most, high, snapped, f * c);
    assert((t / c - 1) * c <= f * c) by (nonlinear_arith)
        requires
            t / c - 1 <= f,
            c >= 1,
    ;
    if f * c < low {
        low
    } else {
        f * c
    }
}

/// Small multiples of a power of two keep their value.
pub proof fn lemma_round_multiple(n: nat, s: nat)
    requires
        n < 0x100_0000,
        s <= 149,
    ensures
        0 <= rounded(n * pow2(s), 1) < INFINITE,
        units_of(rounded(n * pow2(s), 1) as nat) == n * pow2(s),
{
    lemma2_to64();
    lemma_pow2_pos(s);
    let p = n * pow2(s);
    let e = last_place(p, 1);
    lemma_last_place_bounds(p, 1);
    lemma_rounded_significand(p, 1);
    lemma_pow2_pos(e);
    if e > s {
        lemma_pow2_adds(24, s);
        if 24 + s < 23 + e {
            lemma_pow2_strictly_increases(24 + s, (23 + e) as nat);
        }
        assert(p < 0x100_0000 * pow2(s)) by (nonlinear_arith)
            requires
                p == n * pow2(s),
                n < 0x100_0000,
                pow2(s) > 0,
        ;
    }
    let rest = (s - e) as nat;
    lemma_pow2_adds(rest, e);
    let k = n * pow2(rest);
    assert(n * (pow2(rest) * pow2(e)) == k * pow2(e)) by (nonlinear_arith)
        requires
            k == n * pow2(rest),
    ;
    assert(1 * pow2(e) == pow2(e));
    lemma_nearest_parts(p, pow2(e), k, 0);
    lemma_encoded_value(e, k);
}

/// The multiple of a cell nearest to an offset, the larger one of two that are equally near.
pub open spec fn grid_line(offset: int, cell: int) -> int {
    ((2 * offset + cell) / (2 * cell)) * cell
}

/// Where a rounded quotient lies halfway between two whole numbers, it is exact.
pub proof fn lemma_halfway(x: Single, n: int, y: Single, c: int, half: int)
    requires
        measures(x, n),
        measures(y, c),
        1 <= n < 0x80_0000,
        1 <= c < exact_limit(),
        2 * n == half * c,
    ensures
        2 * x.over(y).units() == half * one(),
{
    reveal(share_of);
    lemma_positive(x, n);
    lemma_share_of(x, n, y, c);
    lemma_one_is_large();
    lemma2_to64();
    let w = one();
    let v = pow2(148);
    lemma_pow2_adds(1, 148);
    let q = (c * w) as nat;
    assert(half >= 1 && half < 0x100_0000) by (nonlinear_arith)
        requires
            2 * n == half * c,
            1 <= n < 0x80_0000,
            c >= 1,
    ;
    assert((n * w) * w == (half * v) * q && q > 0) by (nonlinear_arith)
        requires
            w == 2 * v,
            q == c * w,
            2 * n == half * c,
            c >= 1,
            w > 0,
    ;
    let h = half as nat;
    lemma_rounded_scaled(h * v, 1, q);
    assert(1 * q == q);
    lemma_round_multiple(h, 148);
    assert(2 * (half * v) == half * w) by (nonlinear_arith)
        requires
            w == 2 * v,
    ;
}

/// A positive offset snaps to the nearest grid line.
proof fn lemma_snapped(x: Single, n: int, y: Single, c: int)
    requires
        measures(x, n),
        measures(y, c),
        1 <= n < 0x40_0000,
        1 <= c < 0x40_0000,
    ensures
        measures(x.over(y).round().times(y), grid_line(n, c)),
        0 <= grid_line(n, c) < exact_limit(),
        !x.over(y).round().times(y).negative(),
{
    reveal(Single::spec_round);
    reveal(Single::spec_times);
    lemma_positive(y, c);
    lemma_one_is_large();
    lemma_ratio_error(x, n, y, c);
    let w = one() as int;
    let cells = x.over(y);
    let u = cells.units();
    let k = (2 * n + c) / (2 * c);
    lemma_fundamental_div_mod(2 * n + c, 2 * c);
    assert((2 * c) * k <= 2 * n + c < (2 * c) * k + 2 * c);
    assert((2 * c) * k == (2 * k) * c && (2 * k - 1) * c == (2 * k) * c - c && (2 * k + 1) * c == (2
        * k) * c + c) by (nonlinear_arith);
    let below = (2 * k - 1) * c;
    let above = (2 * k + 1) * c;
    assert(k >= 0) by (nonlinear_arith)
        requires
            2 * n + c < (2 * c) * k + 2 * c,
            n >= 1,
            c >= 1,
    ;
    assert(n * w < 0x40_0000 * w) by (nonlinear_arith)
        requires
            n < 0x40_0000,
            w > 0,
    ;
    assert(2 * u < (2 * k + 1) * w) by (nonlinear_arith)
        requires
            0x100_0000 * (u * c - n * w) <= n * w,
            n * w < 0x40_0000 * w,
            2 * n + 1 <= above,
            above == (2 * k + 1) * c,
            c >= 1,
            w > 0,
    ;
    assert(2 * u >= (2 * k - 1) * w) by {
        if below == 2 * n {
            lemma_halfway(x, n, y, c, 2 * k - 1);
        } else {
            assert(2 * u >= (2 * k - 1) * w) by (nonlinear_arith)
                requires
                    0x100_0000 * (n * w - u * c) <= n * w,
                    n * w < 0x40_0000 * w,
                    below + 1 <= 2 * n,
                    below == (2 * k - 1) * c,
                    c >= 1,
                    w > 0,
            ;
        }
    }
    assert(2 * u + w == k * (2 * w) + (2 * u + w - k * (2 * w)) && 0 <= 2 * u + w - k * (2 * w) < 2
        * w) by (nonlinear_arith)
        requires
            (2 * k - 1) * w <= 2 * u < (2 * k + 1) * w,
    ;
    lemma_fundamental_div_mod_converse(
        2 * u + w,
        2 * w,
        k,
        2 * u + w - k * (2 * w),
    );
    assert(0 <= k * c < 0x100_0000 && k < 0x100_0000) by (nonlinear_arith)
        requires
            (2 * k) * c <= 2 * n + c,
            n < 0x40_0000,
            1 <= c < 0x40_0000,
            k >= 0,
    ;
    lemma_from_whole(k, false);
    let count = cells.round();
    assert(measures(count, k));
    assert(!count.negative());
    lemma_measure_product(count, k, y, c);
}

/// Whether a number is not above zero.
spec fn not_positive(x: Single) -> bool {
    !x.nan() && (x.negative() || x.zero())
}

/// Zero has no units, and other finite numbers have some.
proof fn lemma_zero_units(x: Single)
    requires
        x.finite(),
    ensures
        units_of(x.magnitude()) == 0 <==> x.zero(),
{
    lemma_order(x, x);
}

/// Rounding stays between zero and infinity.
proof fn lemma_rounded_range(p: nat, q: nat)
    ensures
        0 <= rounded(p, q) <= INFINITE,
{
}

/// A quotient of a number not above zero and a positive number is not above zero.
proof fn lemma_over_not_positive(x: Single, y: Single)
    requires
        not_positive(x),
        y.finite(),
        !y.negative(),
        !y.zero(),
    ensures
        not_positive(x.over(y)),
{
    reveal(Single::spec_over);
    if x.finite() {
        let p = units_of(x.magnitude()) * one();
        let q = units_of(y.magnitude());
        lemma_zero_units(x);
        lemma_zero_units(y);
        lemma_rounded_range(p, q);
        if x.zero() {
            assert(0 * one() == 0);
            lemma_rounded_zero(q);
        }
    }
}

/// A product of a number not above zero and a positive number is not above zero.
proof fn lemma_times_not_positive(x: Single, y: Single)
    requires
        not_positive(x),
        y.finite(),
        !y.negative(),
        !y.zero(),
    ensures
        not_positive(x.times(y)),
{
    reveal(Single::spec_times);
    lemma_pow2_pos(149);
    if x.finite() {
        let p = units_of(x.magnitude()) * units_of(y.magnitude());
        lemma_zero_units(x);
        lemma_rounded_range(p, one());
        if x.zero() {
            assert(0 * units_of(y.magnitude()) == 0);
            lemma_rounded_zero(one());
        }
    }
}

/// A number not above zero rounds to such a number.
proof fn lemma_round_not_positive(x: Single)
    requires
        not_positive(x),
    ensures
        not_positive(x.round()),
{
    reveal(Single::spec_round);
    lemma_pow2_pos(149);
    if x.finite() {
        let size = units_of(x.magnitude());
        let whole = (2 * size + one()) / (2 * one());
        let units = whole * one();
        lemma_zero_units(x);
        lemma_rounded_range(units, 1);
        if x.zero() {
            lemma_fundamental_div_mod_converse(one() as int, 2 * one() as int, 0, one() as int);
            assert(whole == 0);
            assert(0 * one() == 0);
        }
    }
}

/// An offset before the start does not snap behind it.
proof fn lemma_snapped_before(x: Single, n: int, y: Single, c: int)
    requires
        measures(x, n),
        n <= 0,
        measures(y, c),
        1 <= c,
    ensures
        not_positive(x.over(y).round().times(y)),
{
    lemma_positive(y, c);
    lemma_pow2_pos(149);
    lemma_zero_units(x);
    assert(n * one() <= 0) by (nonlinear_arith)
        requires
            n <= 0,
            one() > 0,
    ;
    lemma_over_not_positive(x, y);
    lemma_round_not_positive(x.over(y));
    lemma_times_not_positive(x.over(y).round(), y);
}

/// The least extent of the first part, in whole pixels.
pub open spec fn least_first(available: int, min_size: int) -> int {
    if available < min_size {
        available
    } else {
        min_size
    }
}

/// The greatest extent of the first part, in whole pixels.
pub open spec fn greatest_first(available: int, min_size: int) -> int {
    let least = least_first(available, min_size);
    if available - least < least {
        least
    } else {
        available - least
    }
}

/// The grid line nearest to an offset, within the bounds of both parts.
pub open spec fn bar_target(offset: int, cell: int, available: int, min_size: int) -> int {
    let line = if offset <= 0 {
        0
    } else {
        grid_line(offset, cell)
    };
    let (least, greatest) = (
        least_first(available, min_size),
        greatest_first(available, min_size),
    );
    if line < least {
        least
    } else if line > greatest {
        greatest
    } else {
        line
    }
}

/// The smallest and the largest ratio of a dragged split, by their encodings; the results are the
/// lengths to which they belong.
proof fn lemma_ratio_range(available: Single, a: int, min_size: Single, m: int) -> (lengths: (
    Single,
    Single,
))
    requires
        measures(available, a),
        1 <= a < drag_limit(),
        measures(min_size, m),
        1 <= m,
    ensures
        ({
            let least = shortest_first(available, min_size);
            let lowest = least.over(available);
            let highest = available.minus(least).over(available).max(lowest);
            let low = least_first(a, m);
            let high = greatest_first(a, m);
            &&& measures(lengths.0, low)
            &&& measures(lengths.1, high)
            &&& 0 < share_of(low, a) <= share_of(high, a) < INFINITE
            &&& lowest == Single::signed(false, share_of(low, a))
            &&& lowest == lengths.0.over(available)
            &&& highest == Single::signed(false, share_of(high, a))
            &&& highest == lengths.1.over(available)
        }),
{
    let least = shortest_first(available, min_size);
    let low = least_first(a, m);
    let high = greatest_first(a, m);
    lemma_measure_order(available, a, min_size, m);
    assert(measures(least, low));
    lemma_measure_sum(available, a, least, low);
    let rest = available.minus(least);
    lemma_positive(available, a);
    lemma_positive(least, low);
    lemma_share_of(least, low, available, a);
    assert(!rest.negative()) by {
        reveal(Single::spec_plus);
        lemma_measure_order(rest, a - low, rest, a - low);
        if a > low {
            lemma_positive(rest, a - low);
        }
    }
    lemma_share_of(rest, a - low, available, a);
    lemma_share_monotone(low, high, a);
    let lowest = least.over(available);
    lemma_ratio_error(least, low, available, a);
    lemma_one_is_large();
    assert(lowest.units() > 0) by (nonlinear_arith)
        requires
            0x100_0000 * (low * one() - lowest.units() * a) <= low * one(),
            low * one() >= one(),
            one() > 0,
            a >= 1,
    ;
    lemma_order(lowest, lowest);
    if a - low < low {
        lemma_share_monotone(a - low, low, a);
        (least, least)
    } else {
        lemma_share_monotone(low, a - low, a);
        (least, rest)
    }
}

/// A restricted number, by its encoding.
proof fn lemma_clamp_encoded(k: int, low: int, high: int)
    requires
        0 <= k < INFINITE,
        0 <= low <= high < INFINITE,
    ensures
        Single::signed(false, k).clamp(
            Single::signed(false, low),
            Single::signed(false, high),
        ) == Single::signed(
            false,
            if k < low {
                low
            } else if k > high {
                high
            } else {
                k
            },
        ),
{
}

/// The ratio of a dragged split is that of the grid line nearest to the pointer, within the bounds
/// of both parts; the result is that length.
#[verifier::rlimit(40)]
proof fn lemma_pointed_ratio(
    available: Single,
    a: int,
    pos: Single,
    n: int,
    cell: Single,
    c: int,
    min_size: Single,
    m: int,
) -> (x: Single)
    requires
        measures(available, a),
        1 <= a < drag_limit(),
        measures(pos, n),
        n < 0x40_0000,
        measures(cell, c),
        1 <= c < 0x40_0000,
        measures(min_size, m),
        1 <= m,
    ensures
        measures(x, bar_target(n, c, a, m)),
        ({
            let least = shortest_first(available, min_size);
            let lowest = least.over(available);
            let highest = available.minus(least).over(available).max(lowest);
            pos.over(cell).round().times(cell).over(available).clamp(lowest, highest) == x.over(
                available,
            )
        }),
{
    let low = least_first(a, m);
    let high = greatest_first(a, m);
    let (shortest, longest) = lemma_ratio_range(available, a, min_size, m);
    lemma_positive(available, a);
    let snapped = pos.over(cell).round().times(cell);
    if n <= 0 {
        lemma_snapped_before(pos, n, cell, c);
        lemma_over_not_positive(snapped, available);
        shortest
    } else {
        lemma_snapped(pos, n, cell, c);
        let t = grid_line(n, c);
        lemma_share_of(snapped, t, available, a);
        lemma_clamp_encoded(share_of(t, a), share_of(low, a), share_of(high, a));
        if t < low {
            lemma_share_monotone(t, low, a);
            shortest
        } else if t > high {
            lemma_share_monotone(high, t, a);
            longest
        } else {
            lemma_share_monotone(low, t, a);
            lemma_share_monotone(t, high, a);
            snapped
        }
    }
}

/// In whole pixels, a bar follows the pointer: the part before it takes the grid line nearest to
/// the pointer, or one cell less where rounding falls short, within the bounds of both parts.
pub proof fn law_bar_follows_pointer(
    bounds: Rect,
    axis: Axis,
    metrics: LayoutMetrics,
    x: Single,
    y: Single,
)
    requires
        pixel_extents(bounds),
        pixel_metrics(metrics),
        whole(primary_offset(bounds, axis, x, y)),
        pixels(primary_offset(bounds, axis, x, y)) < 0x40_0000,
        pixels(metrics.bar_thickness) < pixels(primary_extent(bounds, axis)) < drag_limit(),
        pixels(primary_cell(axis, metrics)) < 0x40_0000,
    ensures
        ({
            let ratio = ratio_from_pointer(bounds, axis, metrics, x, y);
            let first = primary_extent(split_rect(bounds, axis, ratio, metrics).0, axis);
            let cell = pixels(primary_cell(axis, metrics));
            let target = bar_target(
                pixels(primary_offset(bounds, axis, x, y)),
                cell,
                pixels(primary_extent(bounds, axis)) - pixels(metrics.bar_thickness),
                pixels(min_primary(axis, metrics)),
            );
            &&& whole(first)
            &&& (target / cell - 1) * cell <= pixels(first) <= target
        }),
{
    reveal(spec_split_rect);
    reveal(spec_ratio_from_pointer);
    let extent = primary_extent(bounds, axis);
    let zero = Single::from_bits(ZERO);
    let _ = lemma_split_span(extent, extent, zero, axis, metrics);
    let available = room(extent, metrics);
    let a = pixels(extent) - pixels(metrics.bar_thickness);
    let cell = primary_cell(axis, metrics);
    let c = pixels(cell);
    let min_size = min_primary(axis, metrics);
    let m = pixels(min_size);
    let pos = primary_offset(bounds, axis, x, y);
    let n = pixels(pos);
    lemma_constants();
    lemma_measure_order(available, a, zero, 0);
    lemma_measure_order(zero, 0, cell, c);
    let target = lemma_pointed_ratio(available, a, pos, n, cell, c, min_size, m);
    let t = bar_target(n, c, a, m);
    let len = lemma_first_len_of_ratio(available, a, target, t, cell, c, min_size, m);
    let ratio = ratio_from_pointer(bounds, axis, metrics, x, y);
    assert(ratio == target.over(available));
    let first = primary_extent(split_rect(bounds, axis, ratio, metrics).0, axis);
    assert(first == snapped_first_len(available, ratio, cell, min_size));
    lemma_pixels(first, len);
}

/// In whole pixels, the ratio of a pointer is that of the grid line nearest to it, within the
/// bounds of both parts: no other number is nearer to the share of that line in what the bar
/// leaves.
pub proof fn law_ratio_points_at_the_grid_line(
    bounds: Rect,
    axis: Axis,
    metrics: LayoutMetrics,
    x: Single,
    y: Single,
    other: Single,
)
    requires
        pixel_extents(bounds),
        pixel_metrics(metrics),
        whole(primary_offset(bounds, axis, x, y)),
        pixels(primary_offset(bounds, axis, x, y)) < 0x40_0000,
        pixels(metrics.bar_thickness) < pixels(primary_extent(bounds, axis)) < drag_limit(),
        pixels(primary_cell(axis, metrics)) < 0x40_0000,
        other.finite(),
    ensures
        ({
            let ratio = ratio_from_pointer(bounds, axis, metrics, x, y);
            let available = pixels(primary_extent(bounds, axis)) - pixels(metrics.bar_thickness);
            let (cell, min_size) = match axis {
                Axis::Vertical => (
                    pixels(metrics.cell_width),
                    2 * pixels(metrics.cell_width),
                ),
                Axis::Horizontal => (pixels(metrics.cell_height), pixels(metrics.cell_height)),
            };
            let target = bar_target(
                pixels(primary_offset(bounds, axis, x, y)),
                cell,
                available,
                min_size,
            );
            &&& ratio.finite()
            &&& size_of_units(ratio.units() * available - target * one()) <= size_of_units(
                other.units() * available - target * one(),
            )
        }),
{
    reveal(spec_ratio_from_pointer);
    let extent = primary_extent(bounds, axis);
    let zero = Single::from_bits(ZERO);
    let _ = lemma_split_span(extent, extent, zero, axis, metrics);
    let available = room(extent, metrics);
    let a = pixels(extent) - pixels(metrics.bar_thickness);
    let cell = primary_cell(axis, metrics);
    let c = pixels(cell);
    let min_size = min_primary(axis, metrics);
    let m = match axis {
        Axis::Vertical => 2 * c,
        Axis::Horizontal => c,
    };
    lemma_from_usize_exact(2);
    lemma_from_usize_exact(1);
    match axis {
        Axis::Vertical => {
            lemma_measure_product(Single::from_usize(2), 2, cell, c);
        },
        Axis::Horizontal => {
            lemma_measure_product(Single::from_usize(1), 1, cell, c);
        },
    }
    assert(measures(min_size, m));
    let pos = primary_offset(bounds, axis, x, y);
    let n = pixels(pos);
    lemma_constants();
    lemma_measure_order(available, a, zero, 0);
    lemma_measure_order(zero, 0, cell, c);
    let length = lemma_pointed_ratio(available, a, pos, n, cell, c, min_size, m);
    let t = bar_target(n, c, a, m);
    let ratio = ratio_from_pointer(bounds, axis, metrics, x, y);
    assert(ratio == length.over(available));
    lemma_positive(available, a);
    lemma_ratio_error(length, t, available, a);
    law_quotient_is_nearest(length, available, other);
    lemma_one_is_large();
    let w = one() as int;
    let (r, o) = (ratio.units(), other.units());
    assert(r * (a * w) - (t * w) * w == (r * a - t * w) * w && o * (a * w) - (t * w) * w == (o * a
        - t * w) * w) by (nonlinear_arith);
    lemma_size_scaled(r * a - t * w, w);
    lemma_size_scaled(o * a - t * w, w);
    let (i, j) = (size_of_units(r * a - t * w), size_of_units(o * a - t * w));
    assert(i <= j) by (nonlinear_arith)
        requires
            i * w <= j * w,
            w > 0,
    ;
}

/// The size of a multiple.
proof fn lemma_size_scaled(n: int, w: int)
    requires
        w > 0,
    ensures
        size_of_units(n * w) == size_of_units(n) * w,
{
    assert(n < 0 ==> n * w < 0) by (nonlinear_arith)
        requires
            w > 0,
    ;
    assert(n >= 0 ==> n * w >= 0) by (nonlinear_arith)
        requires
            w > 0,
    ;
    assert((-n) * w == -(n * w)) by (nonlinear_arith);
}

} // verus!
