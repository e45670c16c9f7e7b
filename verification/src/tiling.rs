//! How the panes and bars of a window fill it: in whole pixels, without gap and without overlap.

use crate::exact::all_rects;
use crate::exact::exact_difference;
use crate::exact::exact_span;
use crate::exact::exact_sum;
use crate::exact::exact_sums;
use crate::exact::in_span;
use crate::exact::law_exact_bars_are_disjoint;
use crate::exact::law_exact_bars_lie_inside;
use crate::exact::law_exact_panes_and_bars_are_disjoint;
use crate::exact::law_exact_panes_and_bars_tile;
use crate::exact::tiles;
use crate::finite::proper_metrics;
use crate::layout::lemma_first_where_found;
use crate::layout::BarGeometry;
use crate::layout::LeafGeometry;
use crate::layout::Node;
use crate::pixels::exact_limit;
use crate::pixels::lemma_floor_is_whole;
use crate::pixels::lemma_from_usize_exact;
use crate::pixels::lemma_measure_order;
use crate::pixels::lemma_measure_product;
use crate::pixels::lemma_measure_sum;
use crate::pixels::measures;
use crate::pixels::whole_or_infinite;
use crate::rect::longest_first;
use crate::rect::min_primary;
use crate::rect::primary_cell;
use crate::rect::primary_extent;
use crate::rect::room;
use crate::rect::shortest_first;
use crate::rect::snapped_first_len;
use crate::rect::spec_min_columns;
use crate::rect::spec_min_screen_lines;
use crate::rect::spec_snapped_first_len;
use crate::rect::spec_split_rect;
use crate::rect::split_rect;
use crate::rect::Axis;
use crate::rect::LayoutMetrics;
use crate::rect::Rect;
use crate::single::exponent_of;
use crate::single::lemma_from_own_units;
use crate::single::lemma_has_value;
use crate::single::lemma_order;
use crate::single::one;
use crate::single::significand_of;
use crate::single::Single;
use crate::single::FOUR;
use crate::single::ONE;
use crate::single::TWO;
use crate::single::ZERO;
use vstd::arithmetic::div_mod::lemma_fundamental_div_mod_converse;
use vstd::arithmetic::power2::lemma2_to64;
use vstd::arithmetic::power2::lemma_pow2_adds;
use vstd::arithmetic::power2::lemma_pow2_pos;
use vstd::arithmetic::power2::lemma_pow2_unfold;
use vstd::arithmetic::power2::pow2;
use vstd::prelude::*;

verus! {

/// The whole number that a whole number is.
pub open spec fn pixels(x: Single) -> int {
    x.units() / one() as int
}

/// Whether a number is whole.
pub open spec fn whole(x: Single) -> bool {
    measures(x, pixels(x))
}

/// Cells of at least one pixel and bars of any thickness, all in whole pixels.
pub open spec fn pixel_metrics(metrics: LayoutMetrics) -> bool {
    &&& whole(metrics.cell_width) && 1 <= pixels(metrics.cell_width)
    &&& whole(metrics.cell_height) && 1 <= pixels(metrics.cell_height)
    &&& whole(metrics.bar_thickness) && 0 <= pixels(metrics.bar_thickness) < exact_limit()
    &&& spec_min_columns() * pixels(metrics.cell_width) < exact_limit()
    &&& spec_min_screen_lines() * pixels(metrics.cell_height) < exact_limit()
}

/// Whether a stretch of pixels, and a bar behind it, has exact coordinates.
pub open spec fn pixel_span(start: Single, extent: Single, metrics: LayoutMetrics) -> bool {
    &&& whole(start) && -exact_limit() < pixels(start)
    &&& whole(extent) && 0 <= pixels(extent) < exact_limit()
    &&& pixels(start) + pixels(extent) + pixels(metrics.bar_thickness) < exact_limit()
}

/// Whether a rectangle has exact coordinates.
pub open spec fn pixel_bounds(bounds: Rect, metrics: LayoutMetrics) -> bool {
    pixel_span(bounds.x, bounds.width, metrics) && pixel_span(bounds.y, bounds.height, metrics)
}

/// Whether both extents of a rectangle are whole and exact, wherever it lies.
pub open spec fn pixel_extents(bounds: Rect) -> bool {
    &&& whole(bounds.width) && 0 <= pixels(bounds.width) < exact_limit()
    &&& whole(bounds.height) && 0 <= pixels(bounds.height) < exact_limit()
}

/// Whether a rectangle has no inside.
pub open spec fn flat(bounds: Rect) -> bool {
    bounds.width.zero() || bounds.height.zero()
}

/// A number that is the whole number `n` is whole.
pub proof fn lemma_pixels(x: Single, n: int)
    requires
        measures(x, n),
    ensures
        whole(x),
        pixels(x) == n,
{
    lemma_pow2_pos(149);
    lemma_fundamental_div_mod_converse(x.units(), one() as int, n, 0);
}

/// 0, 2 and 4 are whole numbers.
pub proof fn lemma_constants()
    ensures
        measures(Single::from_bits(ZERO), 0),
        measures(Single::from_bits(TWO), 2),
        measures(Single::from_bits(FOUR), 4),
{
    let zero = Single::from_bits(ZERO);
    lemma_order(zero, zero);
    let two = Single::from_bits(TWO);
    // 2 is 2^23 units of 2^127.
    lemma2_to64();
    lemma_pow2_adds(22, 127);
    lemma_pow2_adds(23, 127);
    lemma_pow2_unfold(23);
    assert(two.magnitude() == 0x4000_0000);
    assert(exponent_of(0x4000_0000) == 127);
    assert(significand_of(0x4000_0000) == 0x80_0000);
    assert(0x80_0000 * pow2(127) == 2 * (0x40_0000 * pow2(127))) by (nonlinear_arith);
    let four = Single::from_bits(FOUR);
    // 4 is 2^23 units of 2^128.
    lemma_pow2_unfold(128);
    assert(four.magnitude() == 0x4080_0000);
    assert(exponent_of(0x4080_0000) == 128);
    assert(significand_of(0x4080_0000) == 0x80_0000);
    assert(0x80_0000 * (2 * pow2(127)) == 4 * (0x40_0000 * pow2(127))) by (nonlinear_arith);
}

/// A number that is restricted to a finite range is finite and in it.
proof fn lemma_clamp_range(x: Single, low: Single, high: Single)
    requires
        !x.nan(),
        low.finite(),
        high.finite(),
        low.le(high),
    ensures
        x.clamp(low, high).finite(),
        low.le(x.clamp(low, high)),
        x.clamp(low, high).le(high),
{
}

/// The first length in whole pixels: it lies within what is available, and leaves both parts their
/// smallest extent where there is room for both.
pub proof fn lemma_first_len(
    available: Single,
    a: int,
    ratio: Single,
    cell: Single,
    c: int,
    min_size: Single,
    m: int,
) -> (len: int)
    requires
        measures(available, a),
        0 <= a < exact_limit(),
        !ratio.nan(),
        measures(cell, c),
        c >= 1,
        measures(min_size, m),
        m >= 0,
    ensures
        measures(snapped_first_len(available, ratio, cell, min_size), len),
        0 <= len <= a,
        a >= 2 * m ==> m <= len <= a - m,
{
    reveal(spec_snapped_first_len);
    let zero = Single::from_bits(ZERO);
    let unit = Single::from_bits(ONE);
    lemma_constants();
    lemma_measure_order(available, a, zero, 0);
    if a == 0 {
        0
    } else {
        lemma_measure_order(available, a, min_size, m);
        lemma_measure_order(zero, 0, cell, c);
        lemma_measure_order(cell, c, cell, c);
        let low = if a < m {
            a
        } else {
            m
        };
        let least = shortest_first(available, min_size);
        assert(measures(least, low));
        lemma_measure_sum(available, a, least, low);
        let gap = available.minus(least);
        lemma_measure_order(gap, a - low, least, low);
        let high = if a - low < low {
            low
        } else {
            a - low
        };
        let most = longest_first(available, min_size);
        assert(measures(most, high));
        lemma_measure_order(least, low, most, high);
        let part = ratio.clamp(zero, unit);
        lemma_clamp_range(ratio, zero, unit);
        let share = available.times(part);
        lemma_has_value(available, part);
        let desired = share.clamp(least, most);
        lemma_clamp_range(share, least, most);
        let cells = desired.over(cell);
        lemma_has_value(desired, cell);
        lemma_floor_is_whole(cells);
        let count = cells.floor();
        let snapped = count.times(cell);
        assert(whole_or_infinite(snapped)) by {
            if count.finite() {
                let n = choose|n: int| measures(count, n);
                lemma_measure_product(count, n, cell, c);
            } else {
                reveal(Single::spec_times);
            }
        }
        lemma_clamp_range(snapped, least, most);
        let result = snapped.clamp(least, most);
        if result == least {
            low
        } else if result == most {
            high
        } else {
            let n = choose|n: int| measures(snapped, n);
            lemma_measure_order(least, low, snapped, n);
            lemma_measure_order(snapped, n, most, high);
            n
        }
    }
}

/// What a bar of `bar` pixels leaves of `extent` pixels.
pub open spec fn left_beside(extent: int, bar: int) -> int {
    if extent < bar {
        0
    } else {
        extent - bar
    }
}

/// A part of a split in whole pixels: what is available, how it is shared, and where bar and second
/// part begin.
pub proof fn lemma_split_span(
    start: Single,
    extent: Single,
    ratio: Single,
    axis: Axis,
    metrics: LayoutMetrics,
) -> (len: int)
    requires
        whole(extent),
        0 <= pixels(extent) < exact_limit(),
        pixel_metrics(metrics),
        !ratio.nan(),
    ensures
        ({
            let available = room(extent, metrics);
            let first = snapped_first_len(
                available,
                ratio,
                primary_cell(axis, metrics),
                min_primary(axis, metrics),
            );
            let (x, w, b) = (pixels(start), pixels(extent), pixels(metrics.bar_thickness));
            let a = left_beside(w, b);
            let m = pixels(min_primary(axis, metrics));
            &&& measures(available, a)
            &&& measures(min_primary(axis, metrics), m)
            &&& m >= 1
            &&& measures(first, len)
            &&& 0 <= len <= a
            &&& a >= 2 * m ==> m <= len <= a - m
            &&& measures(available.minus(first).max(Single::from_bits(ZERO)), a - len)
            &&& pixel_span(start, extent, metrics) ==> {
                &&& measures(start.plus(first), x + len)
                &&& measures(start.plus(first).plus(metrics.bar_thickness), x + len + b)
            }
        }),
{
    lemma_constants();
    let bar = metrics.bar_thickness;
    let zero = Single::from_bits(ZERO);
    let (x, w, b) = (pixels(start), pixels(extent), pixels(bar));
    let cell = primary_cell(axis, metrics);
    let c = pixels(cell);
    lemma_from_usize_exact(spec_min_columns());
    lemma_from_usize_exact(spec_min_screen_lines());
    let few = match axis {
        Axis::Vertical => spec_min_columns(),
        Axis::Horizontal => spec_min_screen_lines(),
    };
    let min_size = min_primary(axis, metrics);
    let m = few * c;
    lemma_measure_product(Single::from_usize(few), few as int, cell, c);
    lemma_pixels(min_size, m);
    lemma_measure_sum(extent, w, bar, b);
    let gap = extent.minus(bar);
    lemma_measure_order(gap, w - b, zero, 0);
    let available = room(extent, metrics);
    let a = left_beside(w, b);
    assert(measures(available, a));
    let len = lemma_first_len(available, a, ratio, cell, c, min_size, m);
    let first = snapped_first_len(available, ratio, cell, min_size);
    lemma_measure_sum(available, a, first, len);
    lemma_measure_order(available.minus(first), a - len, zero, 0);
    if pixel_span(start, extent, metrics) {
        lemma_measure_sum(start, x, first, len);
        lemma_measure_sum(start.plus(first), x + len, bar, b);
    }
    len
}

/// A stretch without extent holds no point.
proof fn lemma_nothing_in_zero(start: Single, extent: Single, p: Single)
    requires
        extent.zero(),
    ensures
        !(start.le(p) && p.lt(start.plus(extent))),
{
    reveal(Single::spec_plus);
    lemma_order(extent, extent);
    if start.finite() {
        lemma_order(start, start);
        lemma_from_own_units(start);
    }
}

/// A flat rectangle holds no point.
proof fn lemma_nothing_in_flat(bounds: Rect, x: Single, y: Single)
    requires
        flat(bounds),
    ensures
        !bounds.contains(x, y),
{
    if bounds.width.zero() {
        lemma_nothing_in_zero(bounds.x, bounds.width, x);
    } else {
        lemma_nothing_in_zero(bounds.y, bounds.height, y);
    }
}

/// The parts of a split have whole extents, and those of a flat rectangle are flat.
proof fn lemma_part_extents(bounds: Rect, axis: Axis, ratio: Single, metrics: LayoutMetrics)
    requires
        pixel_extents(bounds),
        pixel_metrics(metrics),
        !ratio.nan(),
    ensures
        pixel_extents(split_rect(bounds, axis, ratio, metrics).0),
        pixel_extents(split_rect(bounds, axis, ratio, metrics).2),
        flat(bounds) ==> flat(split_rect(bounds, axis, ratio, metrics).0),
        flat(bounds) ==> flat(split_rect(bounds, axis, ratio, metrics).2),
{
    reveal(spec_split_rect);
    let (first, _, second) = split_rect(bounds, axis, ratio, metrics);
    match axis {
        Axis::Vertical => {
            let len = lemma_split_span(bounds.x, bounds.width, ratio, axis, metrics);
            let a = left_beside(pixels(bounds.width), pixels(metrics.bar_thickness));
            lemma_pixels(first.width, len);
            lemma_pixels(second.width, a - len);
            lemma_measure_order(first.width, len, bounds.width, pixels(bounds.width));
            lemma_measure_order(bounds.width, pixels(bounds.width), first.width, len);
            lemma_measure_order(second.width, pixels(second.width), first.width, len);
        },
        Axis::Horizontal => {
            let len = lemma_split_span(bounds.y, bounds.height, ratio, axis, metrics);
            let a = left_beside(pixels(bounds.height), pixels(metrics.bar_thickness));
            lemma_pixels(first.height, len);
            lemma_pixels(second.height, a - len);
            lemma_measure_order(first.height, len, bounds.height, pixels(bounds.height));
            lemma_measure_order(bounds.height, pixels(bounds.height), first.height, len);
            lemma_measure_order(second.height, pixels(second.height), first.height, len);
        },
    }
}

/// Sums and differences of whole numbers that are the whole number expected are exact.
proof fn lemma_exact(a: Single, m: int, b: Single, n: int)
    requires
        measures(a, m),
        measures(b, n),
    ensures
        measures(a.plus(b), m + n) ==> exact_sum(a, b),
        measures(a.minus(b), m - n) ==> exact_difference(a, b),
{
    assert((m + n) * one() == m * one() + n * one()) by (nonlinear_arith);
    assert((m - n) * one() == m * one() - n * one()) by (nonlinear_arith);
}

/// The three parts of a stretch of whole pixels fill it without overlap.
proof fn lemma_span_parts(
    start: Single,
    extent: Single,
    ratio: Single,
    axis: Axis,
    metrics: LayoutMetrics,
    p: Single,
)
    requires
        pixel_span(start, extent, metrics),
        pixel_metrics(metrics),
        !ratio.nan(),
    ensures
        ({
            let available = room(extent, metrics);
            let first = snapped_first_len(
                available,
                ratio,
                primary_cell(axis, metrics),
                min_primary(axis, metrics),
            );
            let bar = metrics.bar_thickness;
            let rest = available.minus(first).max(Single::from_bits(ZERO));
            let behind = start.plus(first).plus(bar);
            let a = left_beside(pixels(extent), pixels(bar));
            &&& in_span(start, first, p) ==> in_span(start, extent, p)
            &&& in_span(behind, rest, p) ==> in_span(start, extent, p)
            &&& !(in_span(start, first, p) && in_span(behind, rest, p))
            &&& !(in_span(start, first, p) && in_span(start.plus(first), bar, p))
            &&& !(in_span(start.plus(first), bar, p) && in_span(behind, rest, p))
            &&& pixels(extent) >= pixels(bar) && in_span(start.plus(first), bar, p) ==> in_span(
                start,
                extent,
                p,
            )
            &&& in_span(start, extent, p) ==> in_span(start, first, p) || in_span(
                start.plus(first),
                bar,
                p,
            ) || in_span(behind, rest, p)
            &&& whole(start.plus(first)) && pixels(start) <= pixels(start.plus(first)) <= pixels(
                start,
            ) + pixels(extent)
            &&& a > 0 || pixels(extent) >= pixels(bar) ==> {
                &&& pixel_span(start, first, metrics)
                &&& pixels(first) <= pixels(extent)
                &&& pixel_span(behind, rest, metrics)
                &&& pixels(start) <= pixels(behind)
                &&& pixels(rest) <= pixels(extent)
                &&& pixels(behind) + pixels(rest) <= pixels(start) + pixels(extent)
            }
            &&& a == 0 ==> first.zero() && rest.zero()
            &&& pixels(extent) >= pixels(bar) ==> exact_span(start, extent, ratio, axis, metrics)
        }),
{
    let bar = metrics.bar_thickness;
    let (x, w, b) = (pixels(start), pixels(extent), pixels(bar));
    let a = left_beside(w, b);
    let len = lemma_split_span(start, extent, ratio, axis, metrics);
    let available = room(extent, metrics);
    let first = snapped_first_len(
        available,
        ratio,
        primary_cell(axis, metrics),
        min_primary(axis, metrics),
    );
    let rest = available.minus(first).max(Single::from_bits(ZERO));
    let end = start.plus(extent);
    let before = start.plus(first);
    let behind = before.plus(bar);
    let last = behind.plus(rest);
    lemma_measure_sum(start, x, extent, w);
    lemma_measure_sum(behind, x + len + b, rest, a - len);
    lemma_pixels(first, len);
    lemma_pixels(rest, a - len);
    lemma_pixels(before, x + len);
    lemma_pixels(behind, x + len + b);
    lemma_measure_order(start, x, before, x + len);
    lemma_measure_order(before, x + len, behind, x + len + b);
    lemma_measure_order(before, x + len, end, x + w);
    lemma_measure_order(behind, x + len + b, last, x + b + a);
    lemma_measure_order(behind, x + len + b, end, x + w);
    lemma_measure_order(last, x + b + a, end, x + w);
    lemma_measure_order(end, x + w, last, x + b + a);
    lemma_measure_order(first, len, rest, a - len);
    lemma_measure_order(rest, a - len, first, len);
    if w >= b {
        lemma_measure_order(bar, b, extent, w);
        lemma_measure_sum(extent, w, bar, b);
        lemma_measure_sum(available, a, first, len);
        lemma_exact(extent, w, bar, b);
        lemma_exact(available, a, first, len);
        lemma_exact(start, x, extent, w);
        lemma_exact(start, x, first, len);
        lemma_exact(before, x + len, bar, b);
        lemma_exact(behind, x + len + b, rest, a - len);
    }
}

/// Whether a part begins and ends within the whole.
pub open spec fn lies_within(part: Rect, bounds: Rect) -> bool {
    &&& pixels(bounds.x) <= pixels(part.x)
    &&& pixels(part.width) <= pixels(bounds.width)
    &&& pixels(bounds.y) <= pixels(part.y)
    &&& pixels(part.height) <= pixels(bounds.height)
    &&& pixels(part.x) + pixels(part.width) <= pixels(bounds.x) + pixels(bounds.width)
    &&& pixels(part.y) + pixels(part.height) <= pixels(bounds.y) + pixels(bounds.height)
}

/// Whether a bar of whole pixels begins in the whole and ends not more than its own thickness
/// behind it.
pub open spec fn pixel_bar(bar: Rect, bounds: Rect, metrics: LayoutMetrics) -> bool {
    let thickness = pixels(metrics.bar_thickness);
    &&& whole(bar.x) && pixels(bounds.x) <= pixels(bar.x)
    &&& whole(bar.width) && 0 <= pixels(bar.width)
    &&& pixels(bar.width) <= pixels(bounds.width) || pixels(bar.width) <= thickness
    &&& pixels(bar.x) + pixels(bar.width) <= pixels(bounds.x) + pixels(bounds.width) + thickness
    &&& whole(bar.y) && pixels(bounds.y) <= pixels(bar.y)
    &&& whole(bar.height) && 0 <= pixels(bar.height)
    &&& pixels(bar.height) <= pixels(bounds.height) || pixels(bar.height) <= thickness
    &&& pixels(bar.y) + pixels(bar.height) <= pixels(bounds.y) + pixels(bounds.height) + thickness
}

/// The three parts of a rectangle of whole pixels fill it without overlap.
pub proof fn lemma_rect_parts(
    bounds: Rect,
    axis: Axis,
    ratio: Single,
    metrics: LayoutMetrics,
    x: Single,
    y: Single,
)
    requires
        pixel_bounds(bounds, metrics),
        pixel_metrics(metrics),
        !ratio.nan(),
    ensures
        ({
            let (first, bar, second) = split_rect(bounds, axis, ratio, metrics);
            &&& first.contains(x, y) ==> bounds.contains(x, y)
            &&& second.contains(x, y) ==> bounds.contains(x, y)
            &&& !(first.contains(x, y) && second.contains(x, y))
            &&& !(first.contains(x, y) && bar.contains(x, y))
            &&& !(second.contains(x, y) && bar.contains(x, y))
            &&& pixels(primary_extent(bounds, axis)) >= pixels(metrics.bar_thickness)
                && bar.contains(x, y) ==> bounds.contains(x, y)
            &&& bounds.contains(x, y) ==> first.contains(x, y) || bar.contains(x, y)
                || second.contains(x, y)
            &&& flat(first) || (pixel_bounds(first, metrics) && lies_within(first, bounds))
            &&& flat(second) || (pixel_bounds(second, metrics) && lies_within(second, bounds))
            &&& pixel_bar(bar, bounds, metrics)
            &&& pixels(primary_extent(bounds, axis)) >= pixels(metrics.bar_thickness) ==> {
                &&& pixel_bounds(first, metrics)
                &&& pixel_bounds(second, metrics)
                &&& match axis {
                    Axis::Vertical => exact_span(bounds.x, bounds.width, ratio, axis, metrics),
                    Axis::Horizontal => exact_span(bounds.y, bounds.height, ratio, axis, metrics),
                }
            }
        }),
{
    reveal(spec_split_rect);
    match axis {
        Axis::Vertical => {
            lemma_span_parts(bounds.x, bounds.width, ratio, axis, metrics, x);
        },
        Axis::Horizontal => {
            lemma_span_parts(bounds.y, bounds.height, ratio, axis, metrics, y);
        },
    }
}

/// A rectangle of whole pixels has whole extents.
proof fn lemma_bounds_extents(bounds: Rect, metrics: LayoutMetrics)
    requires
        pixel_bounds(bounds, metrics),
        pixel_metrics(metrics),
    ensures
        pixel_extents(bounds),
{
}

/// The panes in a flat rectangle hold no point.
proof fn lemma_nothing_in_flat_panes(
    node: Node,
    bounds: Rect,
    metrics: LayoutMetrics,
    i: int,
    x: Single,
    y: Single,
)
    requires
        flat(bounds),
        pixel_extents(bounds),
        pixel_metrics(metrics),
        node.ratios_are_numbers(),
        0 <= i < node.placed(bounds, metrics).len(),
    ensures
        !node.placed(bounds, metrics)[i].rect.contains(x, y),
    decreases node,
{
    match node {
        Node::Leaf(_) => {
            lemma_nothing_in_flat(bounds, x, y);
        },
        Node::Split { axis, ratio, first, second, .. } => {
            let parts = split_rect(bounds, axis, ratio, metrics);
            lemma_part_extents(bounds, axis, ratio, metrics);
            let count = first.placed(parts.0, metrics).len();
            if i < count {
                lemma_nothing_in_flat_panes(*first, parts.0, metrics, i, x, y);
            } else {
                lemma_nothing_in_flat_panes(*second, parts.2, metrics, i - count, x, y);
            }
        },
    }
}

/// In whole pixels, a pane holds only points of the window.
pub proof fn law_panes_lie_inside(
    node: Node,
    bounds: Rect,
    metrics: LayoutMetrics,
    i: int,
    x: Single,
    y: Single,
)
    requires
        pixel_bounds(bounds, metrics),
        pixel_metrics(metrics),
        node.ratios_are_numbers(),
        0 <= i < node.placed(bounds, metrics).len(),
    ensures
        node.placed(bounds, metrics)[i].rect.contains(x, y) ==> bounds.contains(x, y),
    decreases node,
{
    if let Node::Split { axis, ratio, first, second, .. } = node {
        let parts = split_rect(bounds, axis, ratio, metrics);
        lemma_rect_parts(bounds, axis, ratio, metrics, x, y);
        lemma_bounds_extents(bounds, metrics);
        lemma_part_extents(bounds, axis, ratio, metrics);
        let count = first.placed(parts.0, metrics).len();
        if i < count {
            if flat(parts.0) {
                lemma_nothing_in_flat_panes(*first, parts.0, metrics, i, x, y);
            } else {
                law_panes_lie_inside(*first, parts.0, metrics, i, x, y);
            }
        } else {
            if flat(parts.2) {
                lemma_nothing_in_flat_panes(*second, parts.2, metrics, i - count, x, y);
            } else {
                law_panes_lie_inside(*second, parts.2, metrics, i - count, x, y);
            }
        }
    }
}

/// In whole pixels, no point lies in two panes.
pub proof fn law_panes_are_disjoint(
    node: Node,
    bounds: Rect,
    metrics: LayoutMetrics,
    i: int,
    j: int,
    x: Single,
    y: Single,
)
    requires
        pixel_bounds(bounds, metrics),
        pixel_metrics(metrics),
        node.ratios_are_numbers(),
        0 <= i < j < node.placed(bounds, metrics).len(),
    ensures
        !(node.placed(bounds, metrics)[i].rect.contains(x, y) && node.placed(
            bounds,
            metrics,
        )[j].rect.contains(x, y)),
    decreases node,
{
    if let Node::Split { axis, ratio, first, second, .. } = node {
        let parts = split_rect(bounds, axis, ratio, metrics);
        lemma_rect_parts(bounds, axis, ratio, metrics, x, y);
        lemma_bounds_extents(bounds, metrics);
        lemma_part_extents(bounds, axis, ratio, metrics);
        let count = first.placed(parts.0, metrics).len();
        if i < count && flat(parts.0) {
            lemma_nothing_in_flat_panes(*first, parts.0, metrics, i, x, y);
        } else if j >= count && flat(parts.2) {
            lemma_nothing_in_flat_panes(*second, parts.2, metrics, j - count, x, y);
        } else if j < count {
            law_panes_are_disjoint(*first, parts.0, metrics, i, j, x, y);
        } else if i >= count {
            law_panes_are_disjoint(*second, parts.2, metrics, i - count, j - count, x, y);
        } else {
            law_panes_lie_inside(*first, parts.0, metrics, i, x, y);
            law_panes_lie_inside(*second, parts.2, metrics, j - count, x, y);
        }
    }
}

/// Whether the slop around bars is whole, and a window with slop on both sides has exact
/// coordinates.
pub open spec fn pixel_slop(bounds: Rect, metrics: LayoutMetrics) -> bool {
    let slop = pixels(metrics.hit_slop);
    let thickness = pixels(metrics.bar_thickness);
    &&& whole(metrics.hit_slop) && 0 <= slop
    &&& pixels(bounds.x) - slop > -exact_limit()
    &&& pixels(bounds.y) - slop > -exact_limit()
    &&& pixels(bounds.width) + 2 * slop < exact_limit()
    &&& pixels(bounds.height) + 2 * slop < exact_limit()
    &&& thickness + 2 * slop < exact_limit()
    &&& pixels(bounds.x) + pixels(bounds.width) + thickness + 2 * slop < exact_limit()
    &&& pixels(bounds.y) + pixels(bounds.height) + thickness + 2 * slop < exact_limit()
}

/// What lies in a stretch lies in it with slop on both sides.
proof fn lemma_slop_span(start: Single, extent: Single, slop: Single, p: Single)
    requires
        whole(start),
        pixels(start) - pixels(slop) > -exact_limit(),
        whole(extent),
        0 <= pixels(extent),
        pixels(extent) + 2 * pixels(slop) < exact_limit(),
        whole(slop),
        0 <= pixels(slop),
        pixels(start) + pixels(extent) + 2 * pixels(slop) < exact_limit(),
        in_span(start, extent, p),
    ensures
        in_span(start.minus(slop), extent.plus(slop.times(Single::from_bits(TWO))), p),
{
    let (x, w, s) = (pixels(start), pixels(extent), pixels(slop));
    let two = Single::from_bits(TWO);
    lemma_constants();
    lemma_measure_product(slop, s, two, 2);
    let wide = slop.times(two);
    lemma_measure_sum(start, x, slop, s);
    lemma_measure_sum(extent, w, wide, s * 2);
    let left = start.minus(slop);
    let width = extent.plus(wide);
    lemma_measure_sum(left, x - s, width, w + s * 2);
    lemma_measure_sum(start, x, extent, w);
    lemma_measure_order(left, x - s, start, x);
    lemma_measure_order(start.plus(extent), x + w, left.plus(width), x + w + s);
}

/// In whole pixels, a point of the window lies in a pane or on a bar; the result is the place of
/// that pane or bar, and whether it is a bar, which then holds the point within its slop too.
pub proof fn lemma_covering_part(
    node: Node,
    bounds: Rect,
    metrics: LayoutMetrics,
    x: Single,
    y: Single,
) -> (place: (bool, int))
    requires
        pixel_bounds(bounds, metrics),
        pixel_metrics(metrics),
        node.ratios_are_numbers(),
        bounds.contains(x, y),
    ensures
        place.0 ==> {
            let bar = node.barred(bounds, metrics)[place.1].rect;
            &&& 0 <= place.1 < node.barred(bounds, metrics).len()
            &&& bar.contains(x, y)
            &&& pixel_slop(bounds, metrics) ==> bar.inflate(metrics.hit_slop).contains(x, y)
        },
        !place.0 ==> {
            &&& 0 <= place.1 < node.placed(bounds, metrics).len()
            &&& node.placed(bounds, metrics)[place.1].rect.contains(x, y)
        },
    decreases node,
{
    match node {
        Node::Leaf(_) => (false, 0),
        Node::Split { id, axis, ratio, first, second } => {
            let (a, bar, b) = split_rect(bounds, axis, ratio, metrics);
            lemma_rect_parts(bounds, axis, ratio, metrics, x, y);
            let leaves = first.placed(a, metrics).len() as int;
            let bars = first.barred(a, metrics).len() as int;
            if a.contains(x, y) {
                if flat(a) {
                    lemma_nothing_in_flat(a, x, y);
                }
                lemma_covering_part(*first, a, metrics, x, y)
            } else if b.contains(x, y) {
                if flat(b) {
                    lemma_nothing_in_flat(b, x, y);
                }
                let (on_bar, i) = lemma_covering_part(*second, b, metrics, x, y);
                if on_bar {
                    (true, bars + 1 + i)
                } else {
                    (false, leaves + i)
                }
            } else {
                if pixel_slop(bounds, metrics) {
                    lemma_slop_span(bar.x, bar.width, metrics.hit_slop, x);
                    lemma_slop_span(bar.y, bar.height, metrics.hit_slop, y);
                }
                assert(node.barred(bounds, metrics)[bars] == BarGeometry { id, axis, rect: bar });
                (true, bars)
            }
        },
    }
}

/// In whole pixels, panes and bars cover the window.
pub proof fn law_panes_and_bars_cover(
    node: Node,
    bounds: Rect,
    metrics: LayoutMetrics,
    x: Single,
    y: Single,
)
    requires
        pixel_bounds(bounds, metrics),
        pixel_metrics(metrics),
        node.ratios_are_numbers(),
        bounds.contains(x, y),
    ensures
        (exists|i: int|
            0 <= i < node.placed(bounds, metrics).len() && (#[trigger] node.placed(
                bounds,
                metrics,
            )[i]).rect.contains(x, y)) || (exists|i: int|
            0 <= i < node.barred(bounds, metrics).len() && (#[trigger] node.barred(
                bounds,
                metrics,
            )[i]).rect.contains(x, y)),
        pixel_slop(bounds, metrics) ==> node.hit(bounds, metrics, x, y) is Some,
{
    let (on_bar, i) = lemma_covering_part(node, bounds, metrics, x, y);
    let bars = node.barred(bounds, metrics);
    let leaves = node.placed(bounds, metrics);
    lemma_first_where_found(
        bars,
        |bar: BarGeometry| bar.rect.inflate(metrics.hit_slop).contains(x, y),
    );
    lemma_first_where_found(leaves, |leaf: LeafGeometry| leaf.rect.contains(x, y));
    if on_bar {
        assert(bars[i].rect.contains(x, y));
    } else {
        assert(leaves[i].rect.contains(x, y));
    }
}

/// In whole pixels, both parts of a split keep the smallest extent of a terminal where there is
/// room for both, whatever the ratio.
pub proof fn law_parts_keep_minimum(
    bounds: Rect,
    axis: Axis,
    ratio: Single,
    metrics: LayoutMetrics,
)
    requires
        pixel_extents(bounds),
        pixel_metrics(metrics),
        !ratio.nan(),
        pixels(primary_extent(bounds, axis)) >= pixels(metrics.bar_thickness) + 2 * pixels(
            min_primary(axis, metrics),
        ),
    ensures
        min_primary(axis, metrics).le(
            primary_extent(split_rect(bounds, axis, ratio, metrics).0, axis),
        ),
        min_primary(axis, metrics).le(
            primary_extent(split_rect(bounds, axis, ratio, metrics).2, axis),
        ),
{
    reveal(spec_split_rect);
    let (start, extent) = match axis {
        Axis::Vertical => (bounds.x, bounds.width),
        Axis::Horizontal => (bounds.y, bounds.height),
    };
    let len = lemma_split_span(start, extent, ratio, axis, metrics);
    let a = left_beside(pixels(extent), pixels(metrics.bar_thickness));
    let min_size = min_primary(axis, metrics);
    let (first, _, second) = split_rect(bounds, axis, ratio, metrics);
    lemma_measure_order(min_size, pixels(min_size), primary_extent(first, axis), len);
    lemma_measure_order(min_size, pixels(min_size), primary_extent(second, axis), a - len);
}

/// Whether every divided rectangle is at least as long as its bar is thick.
pub open spec fn bars_fit(node: Node, bounds: Rect, metrics: LayoutMetrics) -> bool
    decreases node,
{
    match node {
        Node::Leaf(_) => true,
        Node::Split { axis, ratio, first, second, .. } => {
            let parts = split_rect(bounds, axis, ratio, metrics);
            &&& pixels(primary_extent(bounds, axis)) >= pixels(metrics.bar_thickness)
            &&& bars_fit(*first, parts.0, metrics)
            &&& bars_fit(*second, parts.2, metrics)
        },
    }
}

/// The sums of whole pixels are exact.
pub proof fn lemma_pixels_are_exact(node: Node, bounds: Rect, metrics: LayoutMetrics)
    requires
        pixel_bounds(bounds, metrics),
        pixel_metrics(metrics),
        node.ratios_are_numbers(),
        bars_fit(node, bounds, metrics),
    ensures
        exact_sums(node, bounds, metrics),
        proper_metrics(metrics),
    decreases node,
{
    lemma_constants();
    let zero = Single::from_bits(ZERO);
    lemma_measure_order(zero, 0, metrics.cell_width, pixels(metrics.cell_width));
    lemma_measure_order(zero, 0, metrics.cell_height, pixels(metrics.cell_height));
    lemma_measure_order(zero, 0, metrics.bar_thickness, pixels(metrics.bar_thickness));
    if let Node::Split { axis, ratio, first, second, .. } = node {
        let parts = split_rect(bounds, axis, ratio, metrics);
        lemma_rect_parts(bounds, axis, ratio, metrics, bounds.x, bounds.y);
        lemma_pixels_are_exact(*first, parts.0, metrics);
        lemma_pixels_are_exact(*second, parts.2, metrics);
    }
}

/// In whole pixels, a bar holds only points of the window, where every divided rectangle is at
/// least as long as its bar is thick.
pub proof fn law_bars_lie_inside(
    node: Node,
    bounds: Rect,
    metrics: LayoutMetrics,
    i: int,
    x: Single,
    y: Single,
)
    requires
        pixel_bounds(bounds, metrics),
        pixel_metrics(metrics),
        node.ratios_are_numbers(),
        bars_fit(node, bounds, metrics),
        0 <= i < node.barred(bounds, metrics).len(),
    ensures
        node.barred(bounds, metrics)[i].rect.contains(x, y) ==> bounds.contains(x, y),
{
    lemma_pixels_are_exact(node, bounds, metrics);
    law_exact_bars_lie_inside(node, bounds, metrics, i, x, y);
}

/// In whole pixels, no point lies on two bars, where every divided rectangle is at least as long as
/// its bar is thick.
pub proof fn law_bars_are_disjoint(
    node: Node,
    bounds: Rect,
    metrics: LayoutMetrics,
    i: int,
    j: int,
    x: Single,
    y: Single,
)
    requires
        pixel_bounds(bounds, metrics),
        pixel_metrics(metrics),
        node.ratios_are_numbers(),
        bars_fit(node, bounds, metrics),
        0 <= i < j < node.barred(bounds, metrics).len(),
    ensures
        !(node.barred(bounds, metrics)[i].rect.contains(x, y) && node.barred(
            bounds,
            metrics,
        )[j].rect.contains(x, y)),
{
    lemma_pixels_are_exact(node, bounds, metrics);
    law_exact_bars_are_disjoint(node, bounds, metrics, i, j, x, y);
}

/// In whole pixels, no point lies in a pane and on a bar, where every divided rectangle is at least
/// as long as its bar is thick.
pub proof fn law_panes_and_bars_are_disjoint(
    node: Node,
    bounds: Rect,
    metrics: LayoutMetrics,
    i: int,
    j: int,
    x: Single,
    y: Single,
)
    requires
        pixel_bounds(bounds, metrics),
        pixel_metrics(metrics),
        node.ratios_are_numbers(),
        bars_fit(node, bounds, metrics),
        0 <= i < node.placed(bounds, metrics).len(),
        0 <= j < node.barred(bounds, metrics).len(),
    ensures
        !(node.placed(bounds, metrics)[i].rect.contains(x, y) && node.barred(
            bounds,
            metrics,
        )[j].rect.contains(x, y)),
{
    lemma_pixels_are_exact(node, bounds, metrics);
    law_exact_panes_and_bars_are_disjoint(node, bounds, metrics, i, j, x, y);
}

/// In whole pixels, panes and bars tile the window, where every divided rectangle is at least as
/// long as its bar is thick: each point of the window lies in exactly one of them, and no other
/// point lies in any.
pub proof fn law_panes_and_bars_tile(
    node: Node,
    bounds: Rect,
    metrics: LayoutMetrics,
    x: Single,
    y: Single,
)
    requires
        pixel_bounds(bounds, metrics),
        pixel_metrics(metrics),
        node.ratios_are_numbers(),
        bars_fit(node, bounds, metrics),
    ensures
        tiles(all_rects(node, bounds, metrics), bounds, x, y),
{
    lemma_pixels_are_exact(node, bounds, metrics);
    law_exact_panes_and_bars_tile(node, bounds, metrics, x, y);
}

} // verus!
