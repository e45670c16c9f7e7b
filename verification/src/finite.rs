//! Windows of any finite extent, not only of whole pixels.

use crate::layout::Node;
use crate::layout::SplitId;
use crate::pixels::lemma_from_usize_exact;
use crate::precision::lemma_rounded_monotone;
use crate::rect::longest_first;
use crate::rect::min_primary;
use crate::rect::primary_cell;
use crate::rect::primary_extent;
use crate::rect::room;
use crate::rect::shortest_first;
use crate::rect::snapped_first_len;
use crate::rect::spec_min_columns;
use crate::rect::spec_min_screen_lines;
use crate::rect::spec_snapped_first_len;
use crate::rect::spec_split_rect;
use crate::rect::split_rect;
use crate::rect::takes_ratio;
use crate::rect::Axis;
use crate::rect::LayoutMetrics;
use crate::rect::Rect;
use crate::rounding::lemma_rounded_zero;
use crate::rounding::rounded;
use crate::rounding::INFINITE;
use crate::single::lemma_has_value;
use crate::single::lemma_order;
use crate::single::lemma_rounded_exact;
use crate::single::one;
use crate::single::units_of;
use crate::single::Single;
use crate::single::ZERO;
use vstd::arithmetic::power2::lemma_pow2_pos;
use vstd::prelude::*;

verus! {

/// Whether a number is not below zero; a NaN counts as such.
pub open spec fn not_negative(x: Single) -> bool {
    x.nan() || !x.negative() || x.zero()
}

/// Cells and bars that are not below zero.
pub open spec fn proper_metrics(metrics: LayoutMetrics) -> bool {
    &&& not_negative(metrics.cell_width)
    &&& not_negative(metrics.cell_height)
    &&& not_negative(metrics.bar_thickness)
}

/// What is left of a finite length is finite.
pub proof fn lemma_remainder(x: Single, y: Single)
    requires
        !x.infinite(),
        not_negative(y),
    ensures
        x.minus(y).max(Single::from_bits(ZERO)).finite(),
        not_negative(x.minus(y).max(Single::from_bits(ZERO))),
{
    reveal(Single::spec_plus);
    let zero = Single::from_bits(ZERO);
    if x.finite() && y.finite() {
        lemma_order(x, x);
        lemma_order(y, y);
        let difference = x.units() - y.units();
        if difference > 0 {
            assert(x.units() > 0);
            lemma_rounded_monotone(difference as nat, x.units() as nat, 1);
            lemma_rounded_exact(x.magnitude());
            assert(rounded(difference as nat, 1) <= x.magnitude());
        }
    }
}

/// A product of numbers not below zero is not below zero.
pub proof fn lemma_product_not_negative(x: Single, y: Single)
    requires
        x.finite(),
        !x.negative(),
        not_negative(y),
    ensures
        not_negative(x.times(y)),
{
    reveal(Single::spec_times);
    lemma_pow2_pos(149);
    if y.finite() {
        let p = units_of(x.magnitude()) * units_of(y.magnitude());
        assert(0 <= rounded(p, one()) <= INFINITE);
        if y.zero() {
            lemma_order(y, y);
            assert(units_of(x.magnitude()) * 0 == 0);
            lemma_rounded_zero(one());
        }
    }
}

/// The least extent of a terminal is not below zero.
pub proof fn lemma_minimum_not_negative(axis: Axis, metrics: LayoutMetrics)
    requires
        not_negative(primary_cell(axis, metrics)),
    ensures
        not_negative(min_primary(axis, metrics)),
{
    lemma_from_usize_exact(spec_min_columns());
    lemma_from_usize_exact(spec_min_screen_lines());
    let (few, cell) = match axis {
        Axis::Vertical => (spec_min_columns(), metrics.cell_width),
        Axis::Horizontal => (spec_min_screen_lines(), metrics.cell_height),
    };
    assert(!Single::from_usize(few).negative()) by {
        reveal(Single::spec_from_usize);
    }
    lemma_product_not_negative(Single::from_usize(few), cell);
}

/// The bounds of the first part are finite.
pub proof fn lemma_first_bounds(available: Single, min_size: Single)
    requires
        available.finite(),
        not_negative(available),
        not_negative(min_size),
    ensures
        shortest_first(available, min_size).finite(),
        not_negative(shortest_first(available, min_size)),
        longest_first(available, min_size).finite(),
        shortest_first(available, min_size).le(longest_first(available, min_size)),
{
    let zero = Single::from_bits(ZERO);
    let least = shortest_first(available, min_size);
    lemma_order(available, least);
    lemma_order(least, available);
    lemma_remainder(available, least);
    reveal(Single::spec_plus);
}

/// The length of the first part of a finite length is not infinite and not below zero.
proof fn lemma_first_len_finite(available: Single, ratio: Single, cell: Single, min_size: Single)
    requires
        available.finite(),
        not_negative(available),
        not_negative(min_size),
    ensures
        ({
            let len = snapped_first_len(available, ratio, cell, min_size);
            !len.infinite() && not_negative(len)
        }),
{
    reveal(spec_snapped_first_len);
    lemma_first_bounds(available, min_size);
}

/// The parts of a split of finite extents have finite extents or none.
proof fn lemma_finite_parts(bounds: Rect, axis: Axis, ratio: Single, metrics: LayoutMetrics)
    requires
        !bounds.width.infinite(),
        !bounds.height.infinite(),
        proper_metrics(metrics),
    ensures
        ({
            let (first, _, second) = split_rect(bounds, axis, ratio, metrics);
            &&& !first.width.infinite() && !first.height.infinite()
            &&& !second.width.infinite() && !second.height.infinite()
        }),
{
    reveal(spec_split_rect);
    let extent = primary_extent(bounds, axis);
    let available = room(extent, metrics);
    let min_size = min_primary(axis, metrics);
    let cell = primary_cell(axis, metrics);
    lemma_remainder(extent, metrics.bar_thickness);
    lemma_minimum_not_negative(axis, metrics);
    lemma_first_len_finite(available, ratio, cell, min_size);
    lemma_remainder(available, snapped_first_len(available, ratio, cell, min_size));
}

/// Every bar of a window of finite extents can be dragged to every pointer.
pub proof fn law_finite_windows_can_be_dragged(
    node: Node,
    id: SplitId,
    bounds: Rect,
    metrics: LayoutMetrics,
)
    requires
        !bounds.width.infinite(),
        !bounds.height.infinite(),
        proper_metrics(metrics),
    ensures
        node.takes_drag(id, bounds, metrics),
    decreases node,
{
    if let Node::Split { axis, ratio, first, second, .. } = node {
        let extent = primary_extent(bounds, axis);
        let available = room(extent, metrics);
        let min_size = min_primary(axis, metrics);
        lemma_remainder(extent, metrics.bar_thickness);
        lemma_minimum_not_negative(axis, metrics);
        lemma_first_bounds(available, min_size);
        lemma_has_value(shortest_first(available, min_size), available);
        assert(takes_ratio(bounds, axis, metrics));
        let parts = split_rect(bounds, axis, ratio, metrics);
        lemma_finite_parts(bounds, axis, ratio, metrics);
        law_finite_windows_can_be_dragged(*first, id, parts.0, metrics);
        law_finite_windows_can_be_dragged(*second, id, parts.2, metrics);
    }
}

} // verus!
