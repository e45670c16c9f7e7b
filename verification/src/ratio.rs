//! What the ratio of a pointer means: it stays in its range, and grows with the pointer.

use crate::finite::lemma_minimum_not_negative;
use crate::finite::not_negative;
use crate::precision::lemma_rounded_monotone;
use crate::rect::greatest_ratio;
use crate::rect::least_ratio;
use crate::rect::min_primary;
use crate::rect::primary_cell;
use crate::rect::primary_extent;
use crate::rect::primary_offset;
use crate::rect::ratio_from_pointer;
use crate::rect::room;
use crate::rect::shortest_first;
use crate::rect::spec_ratio_from_pointer;
use crate::rect::takes_ratio;
use crate::rect::Axis;
use crate::rect::LayoutMetrics;
use crate::rect::Rect;
use crate::rounding::lemma_rounded_scaled;
use crate::rounding::lemma_rounded_zero;
use crate::rounding::rounded;
use crate::rounding::INFINITE;
use crate::single::exponent_of;
use crate::single::lemma_order;
use crate::single::lemma_rounded_exact;
use crate::single::lemma_units_increase;
use crate::single::one;
use crate::single::significand_of;
use crate::single::units_of;
use crate::single::Single;
use crate::single::HALF;
use crate::single::ONE;
use crate::single::ZERO;
use vstd::arithmetic::div_mod::lemma_div_is_ordered;
use vstd::arithmetic::div_mod::lemma_fundamental_div_mod_converse;
use vstd::arithmetic::power2::lemma2_to64;
use vstd::arithmetic::power2::lemma_pow2_adds;
use vstd::arithmetic::power2::lemma_pow2_pos;
use vstd::prelude::*;

verus! {

/// Whether a number is finite and above zero.
pub open spec fn positive(x: Single) -> bool {
    x.finite() && !x.negative() && !x.zero()
}

/// A larger encoded magnitude has no fewer units.
pub proof fn lemma_units_ordered(low: nat, high: nat)
    requires
        low <= high,
    ensures
        units_of(low) <= units_of(high),
{
    if low < high {
        lemma_units_increase(low, high);
    }
}

/// The encoded magnitude of a quotient by a positive number.
spec fn quotient_size(magnitude: nat, divisor: Single) -> int {
    if magnitude == INFINITE {
        INFINITE as int
    } else {
        rounded(units_of(magnitude) * one(), units_of(divisor.magnitude()))
    }
}

/// The encoded magnitude of a product with a positive number.
spec fn product_size(magnitude: nat, factor: Single) -> int {
    if magnitude == INFINITE {
        INFINITE as int
    } else {
        rounded(units_of(magnitude) * units_of(factor.magnitude()), one())
    }
}

/// The encoded magnitude of a number rounded to a whole one.
spec fn whole_size(magnitude: nat) -> int {
    if magnitude == INFINITE {
        INFINITE as int
    } else {
        rounded(((2 * units_of(magnitude) + one()) / (2 * one())) * one(), 1)
    }
}

/// The size of a quotient grows with the dividend.
proof fn lemma_quotient_size(low: nat, high: nat, divisor: Single)
    requires
        low <= high <= INFINITE,
        positive(divisor),
    ensures
        0 <= quotient_size(low, divisor) <= quotient_size(high, divisor) <= INFINITE,
{
    lemma_order(divisor, divisor);
    lemma_units_ordered(low, high);
    let (a, b) = (units_of(low), units_of(high));
    assert(a * one() <= b * one()) by (nonlinear_arith)
        requires
            a <= b,
    ;
    lemma_rounded_monotone(a * one(), b * one(), units_of(divisor.magnitude()));
}

/// The size of a product grows with one factor.
proof fn lemma_product_size(low: nat, high: nat, factor: Single)
    requires
        low <= high <= INFINITE,
    ensures
        0 <= product_size(low, factor) <= product_size(high, factor) <= INFINITE,
{
    lemma_pow2_pos(149);
    lemma_units_ordered(low, high);
    let (a, b, c) = (units_of(low), units_of(high), units_of(factor.magnitude()));
    assert(a * c <= b * c) by (nonlinear_arith)
        requires
            a <= b,
    ;
    lemma_rounded_monotone(a * c, b * c, one());
}

/// A whole number grows with what it was rounded from.
proof fn lemma_whole_size(low: nat, high: nat)
    requires
        low <= high <= INFINITE,
    ensures
        0 <= whole_size(low) <= whole_size(high) <= INFINITE,
{
    lemma_pow2_pos(149);
    lemma_units_ordered(low, high);
    let (a, b) = (2 * units_of(low) + one(), 2 * units_of(high) + one());
    lemma_div_is_ordered(a as int, b as int, 2 * one() as int);
    let (v, w) = (a / (2 * one()), b / (2 * one()));
    assert(v * one() <= w * one()) by (nonlinear_arith)
        requires
            v <= w,
    ;
    lemma_rounded_monotone(v * one(), w * one(), 1);
}

/// The place of a quotient by a positive number.
proof fn lemma_quotient_place(x: Single, divisor: Single)
    requires
        !x.nan(),
        positive(divisor),
    ensures
        !x.over(divisor).nan(),
        x.over(divisor).ordinal() == if x.negative() {
            -quotient_size(x.magnitude(), divisor)
        } else {
            quotient_size(x.magnitude(), divisor)
        },
{
    reveal(Single::spec_over);
    lemma_quotient_size(x.magnitude(), x.magnitude(), divisor);
}

/// The place of a product with a positive number.
proof fn lemma_product_place(x: Single, factor: Single)
    requires
        !x.nan(),
        positive(factor),
    ensures
        !x.times(factor).nan(),
        x.times(factor).ordinal() == if x.negative() {
            -product_size(x.magnitude(), factor)
        } else {
            product_size(x.magnitude(), factor)
        },
{
    reveal(Single::spec_times);
    lemma_product_size(x.magnitude(), x.magnitude(), factor);
}

/// The place of a number rounded to a whole one.
proof fn lemma_whole_place(x: Single)
    requires
        !x.nan(),
    ensures
        !x.round().nan(),
        x.round().ordinal() == if x.negative() {
            -whole_size(x.magnitude())
        } else {
            whole_size(x.magnitude())
        },
{
    reveal(Single::spec_round);
    lemma_pow2_pos(149);
    lemma_whole_size(x.magnitude(), x.magnitude());
    if x.finite() {
        let whole = (2 * units_of(x.magnitude()) + one()) / (2 * one());
        if whole == 0 {
            assert(whole * one() == 0) by (nonlinear_arith)
                requires
                    whole == 0,
            ;
            lemma_rounded_zero(1);
        } else {
            assert(whole * one() > 0) by (nonlinear_arith)
                requires
                    whole > 0,
                    one() > 0,
            ;
        }
    }
}

/// A quotient by a positive number grows with the dividend.
pub proof fn lemma_over_monotone(x: Single, y: Single, divisor: Single)
    requires
        x.le(y),
        positive(divisor),
    ensures
        x.over(divisor).le(y.over(divisor)),
{
    lemma_quotient_place(x, divisor);
    lemma_quotient_place(y, divisor);
    lemma_quotient_size(0, x.magnitude(), divisor);
    lemma_quotient_size(0, y.magnitude(), divisor);
    if x.magnitude() <= y.magnitude() {
        lemma_quotient_size(x.magnitude(), y.magnitude(), divisor);
    } else {
        lemma_quotient_size(y.magnitude(), x.magnitude(), divisor);
    }
    if x.zero() && !x.negative() && y.negative() {
        assert(y.zero());
        lemma_zero_over(divisor);
    }
}

/// Zero by a positive number has size zero.
proof fn lemma_zero_over(divisor: Single)
    requires
        positive(divisor),
    ensures
        quotient_size(0, divisor) == 0,
{
    let zero = Single::from_bits(ZERO);
    lemma_order(divisor, divisor);
    lemma_order(zero, zero);
    assert(0 * one() == 0);
    lemma_rounded_zero(units_of(divisor.magnitude()));
}

/// A product with a positive number grows with the other factor.
pub proof fn lemma_times_monotone(x: Single, y: Single, factor: Single)
    requires
        x.le(y),
        positive(factor),
    ensures
        x.times(factor).le(y.times(factor)),
{
    lemma_product_place(x, factor);
    lemma_product_place(y, factor);
    lemma_product_size(0, x.magnitude(), factor);
    lemma_product_size(0, y.magnitude(), factor);
    if x.magnitude() <= y.magnitude() {
        lemma_product_size(x.magnitude(), y.magnitude(), factor);
    } else {
        lemma_product_size(y.magnitude(), x.magnitude(), factor);
    }
    if x.zero() && !x.negative() && y.negative() {
        assert(y.zero());
        let zero = Single::from_bits(ZERO);
        lemma_order(zero, zero);
        lemma_pow2_pos(149);
        assert(0 * units_of(factor.magnitude()) == 0);
        lemma_rounded_zero(one());
    }
}

/// Rounding to a whole number keeps the order.
proof fn lemma_round_monotone(x: Single, y: Single)
    requires
        x.le(y),
    ensures
        x.round().le(y.round()),
{
    lemma_whole_place(x);
    lemma_whole_place(y);
    lemma_whole_size(0, x.magnitude());
    lemma_whole_size(0, y.magnitude());
    if x.magnitude() <= y.magnitude() {
        lemma_whole_size(x.magnitude(), y.magnitude());
    } else {
        lemma_whole_size(y.magnitude(), x.magnitude());
    }
    if x.zero() && !x.negative() && y.negative() {
        assert(y.zero());
        let zero = Single::from_bits(ZERO);
        lemma_order(zero, zero);
        lemma_pow2_pos(149);
        lemma_fundamental_div_mod_converse(one() as int, 2 * one() as int, 0, one() as int);
        assert(0 * one() == 0);
        lemma_rounded_zero(1);
    }
}

/// Where a pointer comes to lie on the cell grid, as a share of what is available.
spec fn pointed_share(pos: Single, cell: Single, available: Single) -> Single {
    let snapped = if Single::from_bits(ZERO).lt(cell) {
        pos.over(cell).round().times(cell)
    } else {
        pos
    };
    snapped.over(available)
}

/// The share of a pointer grows with the pointer.
proof fn lemma_pointed_share(pos: Single, farther: Single, cell: Single, available: Single)
    requires
        pos.le(farther),
        !cell.infinite(),
        positive(available),
    ensures
        pointed_share(pos, cell, available).le(pointed_share(farther, cell, available)),
{
    if Single::from_bits(ZERO).lt(cell) {
        lemma_over_monotone(pos, farther, cell);
        let (a, b) = (pos.over(cell), farther.over(cell));
        lemma_round_monotone(a, b);
        lemma_times_monotone(a.round(), b.round(), cell);
        lemma_over_monotone(a.round().times(cell), b.round().times(cell), available);
    } else {
        lemma_over_monotone(pos, farther, available);
    }
}

/// The range of ratios has two ends, the smaller one first.
proof fn lemma_range(bounds: Rect, axis: Axis, metrics: LayoutMetrics)
    requires
        positive(room(primary_extent(bounds, axis), metrics)),
    ensures
        least_ratio(bounds, axis, metrics).le(greatest_ratio(bounds, axis, metrics)),
        takes_ratio(bounds, axis, metrics),
{
    let available = room(primary_extent(bounds, axis), metrics);
    let least = shortest_first(available, min_primary(axis, metrics));
    lemma_quotient_place(least, available);
}

/// Without room, the ratio of every pointer is one half.
pub proof fn law_no_room_is_halved(
    bounds: Rect,
    axis: Axis,
    metrics: LayoutMetrics,
    x: Single,
    y: Single,
)
    requires
        room(primary_extent(bounds, axis), metrics).le(Single::from_bits(ZERO)),
    ensures
        ratio_from_pointer(bounds, axis, metrics, x, y) == Single::from_bits(HALF),
{
    reveal(spec_ratio_from_pointer);
}

/// With room of finite extent, the ratio of a pointer lies between the smallest and the largest
/// ratio that a dragged split takes.
pub proof fn law_ratio_stays_in_range(
    bounds: Rect,
    axis: Axis,
    metrics: LayoutMetrics,
    x: Single,
    y: Single,
)
    requires
        positive(room(primary_extent(bounds, axis), metrics)),
        !primary_cell(axis, metrics).infinite(),
        !primary_offset(bounds, axis, x, y).nan(),
    ensures
        least_ratio(bounds, axis, metrics).le(ratio_from_pointer(bounds, axis, metrics, x, y)),
        ratio_from_pointer(bounds, axis, metrics, x, y).le(greatest_ratio(bounds, axis, metrics)),
{
    reveal(spec_ratio_from_pointer);
    let available = room(primary_extent(bounds, axis), metrics);
    let pos = primary_offset(bounds, axis, x, y);
    lemma_range(bounds, axis, metrics);
    lemma_pointed_share(pos, pos, primary_cell(axis, metrics), available);
}

/// The ratio of a pointer grows with the pointer along the split direction.
pub proof fn law_ratio_grows_with_pointer(
    bounds: Rect,
    axis: Axis,
    metrics: LayoutMetrics,
    x1: Single,
    y1: Single,
    x2: Single,
    y2: Single,
)
    requires
        room(primary_extent(bounds, axis), metrics).finite(),
        !primary_cell(axis, metrics).infinite(),
        primary_offset(bounds, axis, x1, y1).le(primary_offset(bounds, axis, x2, y2)),
    ensures
        ratio_from_pointer(bounds, axis, metrics, x1, y1).le(
            ratio_from_pointer(bounds, axis, metrics, x2, y2),
        ),
{
    reveal(spec_ratio_from_pointer);
    let available = room(primary_extent(bounds, axis), metrics);
    let (pos, farther) = (
        primary_offset(bounds, axis, x1, y1),
        primary_offset(bounds, axis, x2, y2),
    );
    if !available.le(Single::from_bits(ZERO)) {
        lemma_range(bounds, axis, metrics);
        lemma_pointed_share(pos, farther, primary_cell(axis, metrics), available);
    }
}

/// The ratio of a pointer does not depend on its other coordinate.
pub proof fn law_ratio_ignores_other_coordinate(
    bounds: Rect,
    metrics: LayoutMetrics,
    x: Single,
    y: Single,
    other: Single,
)
    ensures
        ratio_from_pointer(bounds, Axis::Vertical, metrics, x, y) == ratio_from_pointer(
            bounds,
            Axis::Vertical,
            metrics,
            x,
            other,
        ),
        ratio_from_pointer(bounds, Axis::Horizontal, metrics, x, y) == ratio_from_pointer(
            bounds,
            Axis::Horizontal,
            metrics,
            other,
            y,
        ),
{
    reveal(spec_ratio_from_pointer);
}

/// A positive number by itself is 1.
proof fn lemma_over_itself(x: Single)
    requires
        positive(x),
    ensures
        x.over(x) == Single::from_bits(ONE),
{
    reveal(Single::spec_over);
    lemma2_to64();
    lemma_pow2_adds(23, 126);
    lemma_order(x, x);
    let u = units_of(x.magnitude());
    assert(u * one() == one() * u) by (nonlinear_arith);
    lemma_rounded_scaled(one(), 1, u);
    assert(1 * u == u);
    assert(exponent_of(ONE as nat) == 126);
    assert(significand_of(ONE as nat) == 0x80_0000);
    lemma_rounded_exact(ONE as nat);
}

/// A difference with a number not below zero is no larger than what it was taken from.
pub proof fn lemma_less(x: Single, y: Single)
    requires
        positive(x),
        y.finite(),
        not_negative(y),
        y.le(x),
    ensures
        x.minus(y).le(x),
        !x.minus(y).nan(),
{
    reveal(Single::spec_plus);
    lemma_order(x, y);
    lemma_order(y, x);
    let difference = x.units() - y.units();
    if difference > 0 {
        lemma_rounded_monotone(difference as nat, x.units() as nat, 1);
        lemma_rounded_exact(x.magnitude());
    }
}

/// With cells that are not below zero, the ratio of a pointer is at least 0 and at most 1.
pub proof fn law_ratio_is_a_share(
    bounds: Rect,
    axis: Axis,
    metrics: LayoutMetrics,
    x: Single,
    y: Single,
)
    requires
        room(primary_extent(bounds, axis), metrics).finite(),
        not_negative(primary_cell(axis, metrics)),
        !primary_cell(axis, metrics).infinite(),
        !primary_offset(bounds, axis, x, y).nan(),
    ensures
        Single::from_bits(ZERO).le(ratio_from_pointer(bounds, axis, metrics, x, y)),
        ratio_from_pointer(bounds, axis, metrics, x, y).le(Single::from_bits(ONE)),
{
    let zero = Single::from_bits(ZERO);
    let available = room(primary_extent(bounds, axis), metrics);
    if available.le(zero) {
        law_no_room_is_halved(bounds, axis, metrics, x, y);
    } else {
        law_ratio_stays_in_range(bounds, axis, metrics, x, y);
        lemma_minimum_not_negative(axis, metrics);
        let least = shortest_first(available, min_primary(axis, metrics));
        lemma_over_itself(available);
        lemma_over_monotone(least, available, available);
        lemma_less(available, least);
        lemma_over_monotone(available.minus(least), available, available);
        lemma_over_monotone(zero, least, available);
        lemma_quotient_place(zero, available);
        lemma_zero_over(available);
    }
}

} // verus!
