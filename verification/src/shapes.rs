//! What rectangles, splits and cell counts mean in pixels.

use crate::arithmetic::law_clamp_lies_in_range;
use crate::arithmetic::law_comparisons_order_values;
use crate::arithmetic::law_difference_is_nearest;
use crate::arithmetic::law_floor_is_next_below;
use crate::arithmetic::law_named_numbers;
use crate::arithmetic::law_rounds_to_nearest;
use crate::arithmetic::size_of_units;
use crate::exact::exact_sum;
use crate::finite::lemma_first_bounds;
use crate::finite::lemma_remainder;
use crate::finite::not_negative;
use crate::layout::Node;
use crate::layout::PaneId;
use crate::pixels::exact_limit;
use crate::pixels::lemma_from_usize_exact;
use crate::pixels::lemma_from_whole;
use crate::pixels::lemma_measure_order;
use crate::pixels::lemma_measure_product;
use crate::pixels::lemma_measure_sum;
use crate::pixels::measures;
use crate::pointer::drag_limit;
use crate::pointer::greatest_first;
use crate::pointer::least_first;
use crate::pointer::lemma_halfway;
use crate::pointer::lemma_one_is_large;
use crate::pointer::lemma_positive;
use crate::pointer::lemma_ratio_error;
use crate::pointer::lemma_round_multiple;
use crate::precision::lemma_rounded_finite;
use crate::precision::lemma_rounded_monotone;
use crate::precision::lemma_rounding_error;
use crate::ratio::lemma_over_monotone;
use crate::ratio::lemma_times_monotone;
use crate::ratio::lemma_units_ordered;
use crate::ratio::positive;
use crate::rect::longest_first;
use crate::rect::min_primary;
use crate::rect::primary_cell;
use crate::rect::primary_extent;
use crate::rect::rects_overlap_1d;
use crate::rect::room;
use crate::rect::shortest_first;
use crate::rect::snapped_first_len;
use crate::rect::spec_snapped_first_len;
use crate::rect::spec_split_rect;
use crate::rect::split_rect;
use crate::rect::Axis;
use crate::rect::LayoutMetrics;
use crate::rect::Rect;
use crate::rounding::lemma_rounded_scaled;
use crate::rounding::lemma_rounded_zero;
use crate::rounding::rounded;
use crate::single::exponent_of;
use crate::single::lemma_order;
use crate::single::one;
use crate::single::significand_of;
use crate::single::units_of;
use crate::single::Single;
use crate::single::FOUR;
use crate::single::ONE;
use crate::single::TWO;
use crate::single::ZERO;
use crate::tiling::left_beside;
use crate::tiling::lemma_constants;
use crate::tiling::lemma_pixels;
use crate::tiling::lemma_split_span;
use crate::tiling::pixel_extents;
use crate::tiling::pixel_metrics;
use crate::tiling::pixels;
use crate::tiling::whole;
use vstd::arithmetic::div_mod::lemma_fundamental_div_mod;
use vstd::arithmetic::div_mod::lemma_fundamental_div_mod_converse;
use vstd::arithmetic::mul::lemma_mul_is_commutative;
use vstd::arithmetic::power2::lemma2_to64;
use vstd::arithmetic::power2::lemma_pow2_adds;
use vstd::arithmetic::power2::lemma_pow2_pos;
use vstd::arithmetic::power2::pow2;
use vstd::prelude::*;

verus! {

/// A rectangle holds the points from its left and top edge up to, but not on, its right and bottom
/// edge.
pub proof fn law_contains_between_edges(rect: Rect, x: Single, y: Single)
    requires
        exact_sum(rect.x, rect.width),
        exact_sum(rect.y, rect.height),
        x.finite(),
        y.finite(),
    ensures
        rect.contains(x, y) <==> rect.x.units() <= x.units() < rect.x.units() + rect.width.units()
            && rect.y.units() <= y.units() < rect.y.units() + rect.height.units(),
{
    lemma_order(rect.x, x);
    lemma_order(x, rect.x.plus(rect.width));
    lemma_order(rect.y, y);
    lemma_order(y, rect.y.plus(rect.height));
}

/// Two intervals overlap exactly where each begins before the other ends, whichever comes first.
pub proof fn law_overlap_is_mutual(a: Single, a_len: Single, b: Single, b_len: Single)
    requires
        exact_sum(a, a_len),
        exact_sum(b, b_len),
    ensures
        rects_overlap_1d(a, a_len, b, b_len) <==> a.units() < b.units() + b_len.units()
            && b.units() < a.units() + a_len.units(),
        rects_overlap_1d(a, a_len, b, b_len) == rects_overlap_1d(b, b_len, a, a_len),
{
    lemma_order(a, b.plus(b_len));
    lemma_order(b, a.plus(a_len));
}

/// A rectangle of whole pixels grows by the slop on each of its four sides.
pub proof fn law_inflate_grows_each_side(rect: Rect, slop: Single)
    requires
        whole(rect.x),
        whole(rect.y),
        whole(rect.width),
        whole(rect.height),
        whole(slop),
        -exact_limit() < pixels(rect.x) - pixels(slop) < exact_limit(),
        -exact_limit() < pixels(rect.y) - pixels(slop) < exact_limit(),
        -exact_limit() < 2 * pixels(slop) < exact_limit(),
        -exact_limit() < pixels(rect.width) + 2 * pixels(slop) < exact_limit(),
        -exact_limit() < pixels(rect.height) + 2 * pixels(slop) < exact_limit(),
    ensures
        ({
            let (s, wide) = (pixels(slop), rect.inflate(slop));
            &&& measures(wide.x, pixels(rect.x) - s)
            &&& measures(wide.y, pixels(rect.y) - s)
            &&& measures(wide.width, pixels(rect.width) + 2 * s)
            &&& measures(wide.height, pixels(rect.height) + 2 * s)
        }),
{
    let two = Single::from_bits(TWO);
    let s = pixels(slop);
    lemma_constants();
    lemma_measure_product(slop, s, two, 2);
    lemma_measure_sum(rect.x, pixels(rect.x), slop, s);
    lemma_measure_sum(rect.y, pixels(rect.y), slop, s);
    lemma_measure_sum(rect.width, pixels(rect.width), slop.times(two), s * 2);
    lemma_measure_sum(rect.height, pixels(rect.height), slop.times(two), s * 2);
}

/// Half of a whole number.
proof fn lemma_half(x: Single, n: int)
    requires
        measures(x, n),
        !x.negative(),
        0 <= n < 0x80_0000,
    ensures
        x.over(Single::from_bits(TWO)).finite(),
        2 * x.over(Single::from_bits(TWO)).units() == n * one(),
{
    let two = Single::from_bits(TWO);
    lemma_constants();
    lemma_order(x, x);
    lemma_pow2_pos(149);
    if n == 0 {
        assert(n * one() == 0) by (nonlinear_arith)
            requires
                n == 0,
        ;
        lemma_positive(two, 2);
        assert(0 * one() == 0);
        lemma_rounded_zero(units_of(two.magnitude()));
        reveal(Single::spec_over);
        let zero = x.over(two);
        assert(zero.zero());
        lemma_order(zero, zero);
    } else {
        lemma_ratio_error(x, n, two, 2);
        lemma_halfway(x, n, two, 2, n);
    }
}

/// A number of half pixels below 2^24 is exact.
proof fn lemma_half_units(n: int, negative: bool)
    requires
        -exact_limit() < n < exact_limit(),
    ensures
        Single::from_units(n * pow2(148), negative).finite(),
        Single::from_units(n * pow2(148), negative).units() == n * pow2(148),
{
    lemma_pow2_pos(148);
    let size = (if n < 0 {
        -n
    } else {
        n
    }) as nat;
    lemma_round_multiple(size, 148);
    assert(n < 0 ==> n * pow2(148) < 0 && -(n * pow2(148)) == size * pow2(148)) by (nonlinear_arith)
        requires
            n < 0 ==> size == -n,
            pow2(148) > 0,
    ;
    assert(n > 0 ==> n * pow2(148) > 0) by (nonlinear_arith)
        requires
            pow2(148) > 0,
    ;
    if n == 0 {
        assert(n * pow2(148) == 0) by (nonlinear_arith)
            requires
                n == 0,
        ;
        let zero = Single::from_units(0, negative);
        lemma_order(zero, zero);
    }
}

/// The middle of a stretch of whole pixels.
proof fn lemma_middle(start: Single, extent: Single)
    requires
        whole(start),
        whole(extent),
        !extent.negative(),
        0 <= pixels(extent) < 0x80_0000,
        -exact_limit() < 2 * pixels(start) < exact_limit(),
        2 * pixels(start) + pixels(extent) < exact_limit(),
    ensures
        ({
            let middle = start.plus(extent.over(Single::from_bits(TWO)));
            &&& middle.finite()
            &&& 2 * middle.units() == (2 * pixels(start) + pixels(extent)) * one()
        }),
{
    let (x, w) = (pixels(start), pixels(extent));
    let half = extent.over(Single::from_bits(TWO));
    lemma_half(extent, w);
    lemma2_to64();
    lemma_pow2_adds(1, 148);
    let v = pow2(148);
    let n = 2 * x + w;
    assert(start.units() + half.units() == n * v && n * (2 * v) == 2 * (n * v)) by (nonlinear_arith)
        requires
            start.units() == x * (2 * v),
            2 * half.units() == w * (2 * v),
            n == 2 * x + w,
    ;
    lemma_half_units(n, start.negative() && half.negative());
    reveal(Single::spec_plus);
}

/// The center of a rectangle of whole pixels lies as far from its left edge as from its right edge,
/// and as far from its top edge as from its bottom edge.
pub proof fn law_center_lies_in_the_middle(rect: Rect)
    requires
        whole(rect.x),
        whole(rect.y),
        whole(rect.width),
        whole(rect.height),
        !rect.width.negative(),
        !rect.height.negative(),
        pixels(rect.width) < 0x80_0000,
        pixels(rect.height) < 0x80_0000,
        -exact_limit() < 2 * pixels(rect.x) < exact_limit(),
        -exact_limit() < 2 * pixels(rect.y) < exact_limit(),
        2 * pixels(rect.x) + pixels(rect.width) < exact_limit(),
        2 * pixels(rect.y) + pixels(rect.height) < exact_limit(),
    ensures
        ({
            let (cx, cy) = rect.center();
            let (right, bottom) = (
                rect.x.units() + rect.width.units(),
                rect.y.units() + rect.height.units(),
            );
            &&& cx.finite() && cy.finite()
            &&& cx.units() - rect.x.units() == right - cx.units()
            &&& cy.units() - rect.y.units() == bottom - cy.units()
        }),
{
    lemma_not_below_zero(rect.width);
    lemma_not_below_zero(rect.height);
    lemma_middle(rect.x, rect.width);
    lemma_middle(rect.y, rect.height);
    let (x, w) = (pixels(rect.x), pixels(rect.width));
    assert((2 * x + w) * one() == 2 * (x * one()) + w * one()) by (nonlinear_arith);
    let (y, h) = (pixels(rect.y), pixels(rect.height));
    assert((2 * y + h) * one() == 2 * (y * one()) + h * one()) by (nonlinear_arith);
}

/// A number without sign has no negative pixels.
proof fn lemma_not_below_zero(x: Single)
    requires
        whole(x),
        !x.negative(),
    ensures
        0 <= pixels(x),
{
    lemma_pow2_pos(149);
    let n = pixels(x);
    assert(n >= 0) by (nonlinear_arith)
        requires
            n * one() >= 0,
            one() > 0,
    ;
}

/// For cells of whole pixels, bars are as thick as a cell is wide, but at least 4 pixels, and can
/// be hit from 4 pixels away.
pub proof fn law_metrics_of_cells(cell_width: Single, cell_height: Single)
    requires
        whole(cell_width),
    ensures
        ({
            let metrics = LayoutMetrics::from_cell_size(cell_width, cell_height);
            let thickness = pixels(metrics.bar_thickness);
            &&& metrics.cell_width == cell_width
            &&& metrics.cell_height == cell_height
            &&& whole(metrics.bar_thickness)
            &&& thickness >= 4 && thickness >= pixels(cell_width)
            &&& thickness == 4 || thickness == pixels(cell_width)
            &&& measures(metrics.hit_slop, 4)
        }),
{
    let four = Single::from_bits(FOUR);
    lemma_constants();
    lemma_pixels(four, 4);
    lemma_measure_order(cell_width, pixels(cell_width), four, 4);
}

/// The smallest terminal has two columns and one line.
pub proof fn law_smallest_terminal(axis: Axis, metrics: LayoutMetrics)
    requires
        whole(primary_cell(axis, metrics)),
        0 <= pixels(primary_cell(axis, metrics)) < exact_limit(),
        axis == Axis::Vertical ==> 2 * pixels(metrics.cell_width) < exact_limit(),
    ensures
        axis == Axis::Vertical ==> measures(
            min_primary(axis, metrics),
            2 * pixels(metrics.cell_width),
        ),
        axis == Axis::Horizontal ==> measures(
            min_primary(axis, metrics),
            pixels(metrics.cell_height),
        ),
{
    lemma_from_usize_exact(2);
    lemma_from_usize_exact(1);
    match axis {
        Axis::Vertical => {
            let cell = metrics.cell_width;
            lemma_measure_product(Single::from_usize(2), 2, cell, pixels(cell));
        },
        Axis::Horizontal => {
            let cell = metrics.cell_height;
            lemma_measure_product(Single::from_usize(1), 1, cell, pixels(cell));
        },
    }
}

/// The parts of a split join: they lie side by side along the split direction, the first part where
/// the whole begins, the bar with its thickness behind it, and the second part behind the bar, as
/// long as what the two leave. Across that direction each is as long as the whole.
pub proof fn law_parts_join(bounds: Rect, axis: Axis, ratio: Single, metrics: LayoutMetrics)
    ensures
        ({
            let (first, bar, second) = split_rect(bounds, axis, ratio, metrics);
            let zero = Single::from_bits(ZERO);
            &&& axis == Axis::Vertical ==> {
                &&& first.x == bounds.x
                &&& bar.x == first.x.plus(first.width)
                &&& bar.width == metrics.bar_thickness
                &&& second.x == bar.x.plus(bar.width)
                &&& first.y == bounds.y && bar.y == bounds.y && second.y == bounds.y
                &&& first.height == bounds.height && bar.height == bounds.height && second.height
                    == bounds.height
                &&& second.width == bounds.width.minus(bar.width).max(zero).minus(first.width).max(
                    zero,
                )
            }
            &&& axis == Axis::Horizontal ==> {
                &&& first.y == bounds.y
                &&& bar.y == first.y.plus(first.height)
                &&& bar.height == metrics.bar_thickness
                &&& second.y == bar.y.plus(bar.height)
                &&& first.x == bounds.x && bar.x == bounds.x && second.x == bounds.x
                &&& first.width == bounds.width && bar.width == bounds.width && second.width
                    == bounds.width
                &&& second.height == bounds.height.minus(bar.height).max(zero).minus(
                    first.height,
                ).max(zero)
            }
        }),
{
    reveal(spec_split_rect);
}

/// In whole pixels, the two parts share what the bar leaves, to the last pixel.
pub proof fn law_parts_share_the_room(
    bounds: Rect,
    axis: Axis,
    ratio: Single,
    metrics: LayoutMetrics,
)
    requires
        pixel_extents(bounds),
        pixel_metrics(metrics),
        !ratio.nan(),
    ensures
        ({
            let (first, _, second) = split_rect(bounds, axis, ratio, metrics);
            let (a, b) = (primary_extent(first, axis), primary_extent(second, axis));
            &&& whole(a) && 0 <= pixels(a)
            &&& whole(b) && 0 <= pixels(b)
            &&& pixels(a) + pixels(b) == left_beside(
                pixels(primary_extent(bounds, axis)),
                pixels(metrics.bar_thickness),
            )
        }),
{
    reveal(spec_split_rect);
    let (start, extent) = match axis {
        Axis::Vertical => (bounds.x, bounds.width),
        Axis::Horizontal => (bounds.y, bounds.height),
    };
    let len = lemma_split_span(start, extent, ratio, axis, metrics);
    let a = left_beside(pixels(extent), pixels(metrics.bar_thickness));
    let (first, _, second) = split_rect(bounds, axis, ratio, metrics);
    lemma_pixels(primary_extent(first, axis), len);
    lemma_pixels(primary_extent(second, axis), a - len);
}

/// A single pane fills the window.
pub proof fn law_single_pane_fills_the_window(id: PaneId, bounds: Rect, metrics: LayoutMetrics)
    ensures
        ({
            let leaves = Node::Leaf(id).placed(bounds, metrics);
            &&& leaves.len() == 1
            &&& leaves[0].id == id
            &&& leaves[0].rect == bounds
            &&& Node::Leaf(id).barred(bounds, metrics).len() == 0
        }),
{
}

/// The panes and bars of a split are those of its two parts, each in its part of the rectangle, and
/// its own bar between them.
pub proof fn law_parts_are_laid_out(node: Node, bounds: Rect, metrics: LayoutMetrics)
    ensures
        node matches Node::Split { id, axis, ratio, first, second } ==> {
            let (a, bar, b) = split_rect(bounds, axis, ratio, metrics);
            let (leaves, bars) = (node.placed(bounds, metrics), node.barred(bounds, metrics));
            let (m, n) = (
                first.placed(a, metrics).len() as int,
                first.barred(a, metrics).len() as int,
            );
            &&& leaves.take(m) == first.placed(a, metrics)
            &&& leaves.skip(m) == second.placed(b, metrics)
            &&& bars.take(n) == first.barred(a, metrics)
            &&& n < bars.len() && bars[n].id == id && bars[n].axis == axis && bars[n].rect == bar
            &&& bars.skip(n + 1) == second.barred(b, metrics)
        },
{
    if let Node::Split { axis, ratio, first, second, .. } = node {
        let (a, _, b) = split_rect(bounds, axis, ratio, metrics);
        let (leaves, bars) = (node.placed(bounds, metrics), node.barred(bounds, metrics));
        let (p, q) = (first.placed(a, metrics), second.placed(b, metrics));
        let (c, d) = (first.barred(a, metrics), second.barred(b, metrics));
        assert(leaves.take(p.len() as int) =~= p);
        assert(leaves.skip(p.len() as int) =~= q);
        assert(bars.take(c.len() as int) =~= c);
        assert(bars.skip(c.len() as int + 1) =~= d);
    }
}

/// A quotient of whole numbers is cut off at the whole number below it.
proof fn lemma_fit(x: Single, n: int, y: Single, c: int)
    requires
        measures(x, n),
        !x.negative(),
        0 <= n < exact_limit(),
        measures(y, c),
        1 <= c < exact_limit(),
    ensures
        x.over(y).to_usize() == n / c,
{
    reveal(Single::spec_to_usize);
    reveal(Single::spec_over);
    lemma_positive(y, c);
    lemma_one_is_large();
    lemma_order(x, x);
    let w = one();
    let k = n / c;
    lemma_fundamental_div_mod(n, c);
    assert(0 <= k <= n && c * k <= n < c * k + c) by (nonlinear_arith)
        requires
            n == c * k + n % c,
            0 <= n % c < c,
            n >= 0,
            c >= 1,
    ;
    if n == 0 {
        assert(n * w == 0) by (nonlinear_arith)
            requires
                n == 0,
        ;
        assert(0 * w == 0);
        lemma_rounded_zero(units_of(y.magnitude()));
        assert(x.over(y).magnitude() == 0);
        let zero = x.over(y);
        lemma_order(zero, zero);
        lemma_fundamental_div_mod_converse(0, w as int, 0, 0);
        assert(k == 0) by (nonlinear_arith)
            requires
                c * k <= 0,
                k >= 0,
                c >= 1,
        ;
    } else {
        lemma_ratio_error(x, n, y, c);
        let u = x.over(y).units();
        let p = ((n * w) * w) as nat;
        let q = (c * w) as nat;
        let r = ((k * w) * q) as nat;
        assert(r <= p && q > 0 && (n * w) * w >= 0 && (k * w) * q >= 0) by (nonlinear_arith)
            requires
                r == (k * w) * q,
                p == (n * w) * w,
                q == c * w,
                c * k <= n,
                k >= 0,
                n >= 0,
                c >= 1,
                w >= 1,
        ;
        lemma_rounded_monotone(r, p, q);
        let s = (k * w) as nat;
        assert(k * w >= 0) by (nonlinear_arith)
            requires
                k >= 0,
                w >= 1,
        ;
        lemma_rounded_scaled(s, 1, q);
        assert(1 * q == q);
        lemma_round_multiple(k as nat, 149);
        lemma_units_ordered(rounded(s, 1) as nat, rounded(p, q) as nat);
        assert(u >= k * w);
        assert(u < (k + 1) * w) by (nonlinear_arith)
            requires
                0x100_0000 * (u * c - n * w) <= n * w,
                n < 0x100_0000,
                n + 1 <= c * k + c,
                c >= 1,
                w >= 1,
        ;
        assert((k + 1) * w == k * w + w) by (nonlinear_arith);
        assert(w * k == k * w) by (nonlinear_arith);
        lemma_fundamental_div_mod_converse(u, w as int, k, u - k * w);
    }
}

/// A pane of whole pixels has as many columns and lines as fit it in full, but at least two columns
/// and one line.
pub proof fn law_pane_holds_the_cells_that_fit(bounds: Rect, metrics: LayoutMetrics, id: PaneId)
    requires
        pixel_extents(bounds),
        !bounds.width.negative(),
        !bounds.height.negative(),
        whole(metrics.cell_width),
        1 <= pixels(metrics.cell_width) < exact_limit(),
        whole(metrics.cell_height),
        1 <= pixels(metrics.cell_height) < exact_limit(),
    ensures
        ({
            let leaf = Node::Leaf(id).placed(bounds, metrics)[0];
            let columns = pixels(bounds.width) / pixels(metrics.cell_width);
            let lines = pixels(bounds.height) / pixels(metrics.cell_height);
            &&& leaf.columns == if columns < 2 {
                2
            } else {
                columns
            }
            &&& leaf.screen_lines == if lines < 1 {
                1
            } else {
                lines
            }
        }),
{
    lemma_fit(
        bounds.width,
        pixels(bounds.width),
        metrics.cell_width,
        pixels(metrics.cell_width),
    );
    lemma_fit(
        bounds.height,
        pixels(bounds.height),
        metrics.cell_height,
        pixels(metrics.cell_height),
    );
}

/// A number restricted to a range.
pub open spec fn within(n: int, low: int, high: int) -> int {
    if n < low {
        low
    } else if n > high {
        high
    } else {
        n
    }
}

/// The exact share of so many pixels that a ratio gives, in units; a ratio below 0 gives nothing,
/// and one above 1 everything.
pub open spec fn exact_share(available: int, ratio: Single) -> int {
    if ratio.infinite() {
        if ratio.negative() {
            0
        } else {
            available * one()
        }
    } else {
        available * within(ratio.units(), 0, one() as int)
    }
}

/// A rounded share, within a range of whole pixels, lies within an eighth of a pixel of the exact
/// share within that range.
proof fn lemma_rounded_share(
    available: Single,
    a: int,
    ratio: Single,
    least: Single,
    low: int,
    most: Single,
    high: int,
)
    requires
        measures(available, a),
        1 <= a < drag_limit(),
        !ratio.nan(),
        measures(least, low),
        measures(most, high),
        1 <= low <= high,
    ensures
        ({
            let part = ratio.clamp(Single::from_bits(ZERO), Single::from_bits(ONE));
            let desired = available.times(part).clamp(least, most);
            let wanted = within(exact_share(a, ratio), low * one(), high * one());
            &&& desired.finite()
            &&& low * one() <= desired.units() <= high * one()
            &&& 8 * (desired.units() - wanted) <= one()
            &&& 8 * (wanted - desired.units()) <= one()
        }),
{
    let zero = Single::from_bits(ZERO);
    let unit = Single::from_bits(ONE);
    let part = ratio.clamp(zero, unit);
    let w = one() as int;
    lemma_one_is_large();
    law_named_numbers(ratio);
    law_clamp_lies_in_range(ratio, zero, unit);
    law_comparisons_order_values(zero, part);
    law_comparisons_order_values(part, unit);
    law_comparisons_order_values(ratio, zero);
    law_comparisons_order_values(unit, ratio);
    law_comparisons_order_values(zero, unit);
    law_comparisons_order_values(unit, unit);
    let r = part.units();
    assert(part.finite() && 0 <= r <= w);
    let exact = exact_share(a, ratio);
    assert(a * 0 == 0);
    assert(exact == a * r);
    lemma_positive(available, a);
    reveal(Single::spec_times);
    let share = available.times(part);
    let p = ((a * w) * r) as nat;
    let q = one();
    assert(p == exact * w && 0 <= exact <= 0x20_0000 * w && p < (q * 0x100_0000) * w)
        by (nonlinear_arith)
        requires
            p == (a * w) * r,
            exact == a * r,
            q == w,
            1 <= a < 0x20_0000,
            0 <= r <= w,
            w >= 1,
    ;
    lemma_rounded_finite(p, q);
    let s = units_of(rounded(p, q) as nat) as int;
    assert(units_of(part.magnitude()) == r) by {
        lemma_order(part, part);
    }
    assert(share.finite() && size_of_units(share.units()) == s);
    assert(share.units() == s) by {
        lemma_order(share, share);
        if part.negative() {
            assert(r == 0);
            assert(a * 0 == 0);
            assert(0 * w == 0);
            lemma_rounded_zero(q);
        }
    }
    lemma_order(share, least);
    lemma_order(most, share);
    lemma_order(least, most);
    assert(low * w <= high * w && w <= low * w) by (nonlinear_arith)
        requires
            1 <= low <= high,
            w > 0,
    ;
    if exact >= 0x80_0000 {
        assert(p >= q * 0x80_0000) by (nonlinear_arith)
            requires
                p == exact * w,
                exact >= 0x80_0000,
                q == w,
                w > 0,
        ;
        lemma_rounding_error(p, q);
        assert(0x100_0000 * (s - exact) <= exact && 0x100_0000 * (exact - s) <= exact)
            by (nonlinear_arith)
            requires
                0x100_0000 * (s * w - p) <= p,
                0x100_0000 * (p - s * w) <= p,
                p == exact * w,
                w > 0,
        ;
    } else {
        lemma2_to64();
        assert(exponent_of(0x80_0000) == 0 && significand_of(0x80_0000) == 0x80_0000);
        assert(units_of(0x80_0000) == 0x80_0000);
        law_rounds_to_nearest(p, q, 0x80_0000);
        assert(s <= 0x80_0000) by (nonlinear_arith)
            requires
                size_of_units(s * w - p) <= size_of_units(0x80_0000 * w - p),
                p == exact * w,
                0 <= exact < 0x80_0000,
                w > 0,
        ;
    }
}

/// The cells that fit a length: their extent is that of whole cells, and the length reaches at most
/// an eighth of a pixel over the next cell, and falls short of them by no more.
proof fn lemma_cells_in(x: Single, y: Single, c: int) -> (f: int)
    requires
        x.finite(),
        one() <= x.units() <= drag_limit() * one(),
        measures(y, c),
        1 <= c < exact_limit(),
    ensures
        measures(x.over(y).floor().times(y), f * c),
        0 <= f,
        8 * ((f * c) * one() - x.units()) <= one(),
        8 * (x.units() - (f * c + c) * one()) <= one(),
{
    reveal(Single::spec_over);
    reveal(Single::spec_floor);
    lemma_positive(y, c);
    lemma_one_is_large();
    lemma_order(x, x);
    let w = one() as int;
    let d = x.units();
    let p = (d * w) as nat;
    let q = (c * w) as nat;
    assert(d * w >= 0 && c * w > 0 && p >= q * 0x80_0000 && p < (q * 0x100_0000) * w)
        by (nonlinear_arith)
        requires
            p == d * w,
            q == c * w,
            w <= d <= 0x20_0000 * w,
            1 <= c < 0x100_0000,
            w >= 0x1000_0000_0000_0000,
    ;
    lemma_rounded_finite(p, q);
    lemma_rounding_error(p, q);
    let cells = x.over(y);
    let u = units_of(rounded(p, q) as nat) as int;
    assert(cells.units() == u);
    assert(0x100_0000 * (u * c - d) <= d && 0x100_0000 * (d - u * c) <= d) by (nonlinear_arith)
        requires
            0x100_0000 * (u * q - p) <= p,
            0x100_0000 * (p - u * q) <= p,
            p == d * w,
            q == c * w,
            w > 0,
    ;
    let f = u / w;
    lemma_fundamental_div_mod(u, w);
    assert(f >= 0 && (f * c) * w <= u * c && u * c <= (f * c + c) * w) by (nonlinear_arith)
        requires
            u == w * f + u % w,
            0 <= u % w < w,
            u >= 0,
            w > 0,
            c >= 1,
    ;
    assert(f * c <= 0x20_0000 && f <= f * c) by (nonlinear_arith)
        requires
            (f * c) * w <= u * c,
            8 * (u * c - d) <= w,
            d <= 0x20_0000 * w,
            f >= 0,
            c >= 1,
            w > 0,
    ;
    lemma_from_whole(f, false);
    lemma_measure_product(cells.floor(), f, y, c);
    f
}

/// The first part of a split takes the share of its ratio, but for less than a cell and a quarter
/// of a pixel, and never more than a quarter of a pixel above it. It ends on the cell grid, unless
/// it has its least or its greatest extent: the smallest terminal, or what that leaves.
pub proof fn law_first_part_takes_its_share(
    bounds: Rect,
    axis: Axis,
    ratio: Single,
    metrics: LayoutMetrics,
)
    requires
        pixel_extents(bounds),
        pixel_metrics(metrics),
        !ratio.nan(),
        pixels(metrics.bar_thickness) < pixels(primary_extent(bounds, axis)) < drag_limit(),
    ensures
        ({
            let first = primary_extent(split_rect(bounds, axis, ratio, metrics).0, axis);
            let available = pixels(primary_extent(bounds, axis)) - pixels(metrics.bar_thickness);
            let (cell, min_size) = match axis {
                Axis::Vertical => (
                    pixels(metrics.cell_width),
                    2 * pixels(metrics.cell_width),
                ),
                Axis::Horizontal => (pixels(metrics.cell_height), pixels(metrics.cell_height)),
            };
            let low = least_first(available, min_size);
            let high = greatest_first(available, min_size);
            let wanted = within(exact_share(available, ratio), low * one(), high * one());
            let len = pixels(first);
            &&& whole(first)
            &&& low <= len <= high
            &&& len == low || len == high || len % cell == 0
            &&& 4 * (len * one() - wanted) <= one()
            &&& 4 * (wanted - (len + cell) * one()) <= one()
        }),
{
    reveal(spec_split_rect);
    reveal(spec_snapped_first_len);
    let extent = primary_extent(bounds, axis);
    let zero = Single::from_bits(ZERO);
    let unit = Single::from_bits(ONE);
    let w = one() as int;
    lemma_constants();
    lemma_one_is_large();
    law_smallest_terminal(axis, metrics);
    let cell = primary_cell(axis, metrics);
    let c = pixels(cell);
    let min_size = min_primary(axis, metrics);
    let m = match axis {
        Axis::Vertical => 2 * c,
        Axis::Horizontal => c,
    };
    let available = room(extent, metrics);
    let a = pixels(extent) - pixels(metrics.bar_thickness);
    lemma_measure_sum(
        extent,
        pixels(extent),
        metrics.bar_thickness,
        pixels(metrics.bar_thickness),
    );
    lemma_measure_order(extent.minus(metrics.bar_thickness), a, zero, 0);
    lemma_measure_order(available, a, zero, 0);
    lemma_measure_order(available, a, min_size, m);
    lemma_measure_order(zero, 0, cell, c);
    let low = least_first(a, m);
    let least = shortest_first(available, min_size);
    assert(measures(least, low));
    lemma_measure_sum(available, a, least, low);
    lemma_measure_order(available.minus(least), a - low, least, low);
    let high = greatest_first(a, m);
    let most = longest_first(available, min_size);
    assert(measures(most, high));
    lemma_rounded_share(available, a, ratio, least, low, most, high);
    let desired = available.times(ratio.clamp(zero, unit)).clamp(least, most);
    assert(w <= low * w && high * w <= 0x20_0000 * w) by (nonlinear_arith)
        requires
            1 <= low,
            high <= 0x20_0000,
            w > 0,
    ;
    let f = lemma_cells_in(desired, cell, c);
    let n = f * c;
    let snapped = desired.over(cell).floor().times(cell);
    lemma_measure_order(snapped, n, least, low);
    lemma_measure_order(most, high, snapped, n);
    lemma_fundamental_div_mod_converse(n, c, f, 0);
    let first = primary_extent(split_rect(bounds, axis, ratio, metrics).0, axis);
    assert(first == snapped.clamp(least, most));
    let len = within(n, low, high);
    lemma_pixels(first, len);
    assert(n <= high) by (nonlinear_arith)
        requires
            8 * (n * w - desired.units()) <= w,
            desired.units() <= high * w,
            w > 0,
    ;
    assert((n + c) * w <= (len + c) * w) by (nonlinear_arith)
        requires
            n <= len,
            w > 0,
    ;
}

/// The floor keeps the order.
proof fn lemma_floor_monotone(x: Single, y: Single)
    requires
        x.le(y),
    ensures
        x.floor().le(y.floor()),
{
    if x.finite() && y.finite() {
        law_floor_is_next_below(x);
        law_floor_is_next_below(y);
        lemma_order(x, y);
        lemma_order(x.floor(), y.floor());
        let w = one() as int;
        let (a, b) = (x.floor().units(), y.floor().units());
        lemma_pow2_pos(149);
        lemma_fundamental_div_mod(a, w);
        lemma_fundamental_div_mod(b, w);
        let (i, j) = (a / w, b / w);
        assert(i <= j && w * i <= w * j) by (nonlinear_arith)
            requires
                w * i < w * j + w,
                w > 0,
        ;
    } else {
        reveal(Single::spec_floor);
        if x.finite() {
            law_floor_is_next_below(x);
        }
        if y.finite() {
            law_floor_is_next_below(y);
        }
    }
}

/// The order of factors does not matter.
proof fn lemma_product_commutes(x: Single, y: Single)
    ensures
        x.times(y) == y.times(x),
{
    reveal(Single::spec_times);
    lemma_mul_is_commutative(units_of(x.magnitude()) as int, units_of(y.magnitude()) as int);
}

/// The first part grows with its ratio, whatever the extents and cells are. It is never longer than
/// what is available, and never shorter than the smallest terminal where that fits.
pub proof fn law_first_part_grows_with_ratio(
    available: Single,
    ratio: Single,
    larger: Single,
    cell: Single,
    min_size: Single,
)
    requires
        positive(available),
        ratio.le(larger),
        !cell.infinite(),
        not_negative(min_size),
    ensures
        ({
            let len = snapped_first_len(available, ratio, cell, min_size);
            let longer = snapped_first_len(available, larger, cell, min_size);
            &&& len.le(longer)
            &&& longer.le(available)
            &&& min_size.le(available) ==> min_size.le(len)
            &&& available.le(min_size) ==> len.equals(available)
        }),
{
    reveal(spec_snapped_first_len);
    let zero = Single::from_bits(ZERO);
    let unit = Single::from_bits(ONE);
    lemma_order(available, zero);
    lemma_order(zero, zero);
    let least = shortest_first(available, min_size);
    let most = longest_first(available, min_size);
    lemma_first_bounds(available, min_size);
    assert(most.le(available)) by {
        let rest = available.minus(least);
        law_difference_is_nearest(available, least, available);
        lemma_order(least, available);
        lemma_order(available, available);
        if rest.finite() {
            lemma_order(rest, available);
        }
        lemma_remainder(available, least);
    }
    let (p, q) = (ratio.clamp(zero, unit), larger.clamp(zero, unit));
    assert(p.le(q));
    lemma_times_monotone(p, q, available);
    lemma_product_commutes(p, available);
    lemma_product_commutes(q, available);
    let (s, t) = (available.times(p), available.times(q));
    let (d, e) = (s.clamp(least, most), t.clamp(least, most));
    assert(d.le(e));
    if zero.lt(cell) {
        lemma_over_monotone(d, e, cell);
        let (f, g) = (d.over(cell), e.over(cell));
        lemma_floor_monotone(f, g);
        lemma_times_monotone(f.floor(), g.floor(), cell);
    }
}

/// Where a bar is as thick as the whole or thicker, neither part gets anything.
pub proof fn law_no_room_for_parts(
    bounds: Rect,
    axis: Axis,
    ratio: Single,
    metrics: LayoutMetrics,
)
    requires
        primary_extent(bounds, axis).finite(),
        metrics.bar_thickness.finite(),
        primary_extent(bounds, axis).le(metrics.bar_thickness),
    ensures
        ({
            let (first, _, second) = split_rect(bounds, axis, ratio, metrics);
            primary_extent(first, axis).zero() && primary_extent(second, axis).zero()
        }),
{
    reveal(spec_split_rect);
    reveal(spec_snapped_first_len);
    let extent = primary_extent(bounds, axis);
    let bar = metrics.bar_thickness;
    let zero = Single::from_bits(ZERO);
    lemma_order(extent, bar);
    lemma_order(zero, zero);
    law_difference_is_nearest(extent, bar, zero);
    let available = room(extent, metrics);
    assert(available.zero());
    lemma_order(available, zero);
    law_difference_is_nearest(available, zero, zero);
}

/// Without an extent of cells to snap to, the first part takes the share of its ratio as it is
/// rounded, where that leaves both parts the smallest extent.
pub proof fn law_nothing_snaps_without_cells(
    available: Single,
    ratio: Single,
    cell: Single,
    min_size: Single,
)
    requires
        positive(available),
        !Single::from_bits(ZERO).lt(cell),
        Single::from_bits(ZERO).le(ratio),
        ratio.le(Single::from_bits(ONE)),
        min_size.le(available),
        min_size.le(available.times(ratio)),
        available.times(ratio).le(available.minus(min_size)),
    ensures
        snapped_first_len(available, ratio, cell, min_size) == available.times(ratio),
{
    reveal(spec_snapped_first_len);
    lemma_order(available, Single::from_bits(ZERO));
    lemma_order(Single::from_bits(ZERO), Single::from_bits(ZERO));
}

/// The columns of a laid-out pane are the whole cells in its width, and its lines those in its
/// height, but at least two columns and one line, whatever its extents and cells are.
pub proof fn law_panes_count_their_cells(
    node: Node,
    bounds: Rect,
    metrics: LayoutMetrics,
    i: int,
)
    requires
        0 <= i < node.placed(bounds, metrics).len(),
    ensures
        ({
            let leaf = node.placed(bounds, metrics)[i];
            let columns = leaf.rect.width.over(metrics.cell_width).to_usize();
            let lines = leaf.rect.height.over(metrics.cell_height).to_usize();
            &&& columns >= 2 ==> leaf.columns == columns
            &&& columns < 2 ==> leaf.columns == 2
            &&& lines >= 1 ==> leaf.screen_lines == lines
            &&& lines < 1 ==> leaf.screen_lines == 1
        }),
    decreases node,
{
    if let Node::Split { axis, ratio, first, second, .. } = node {
        let (a, _, b) = split_rect(bounds, axis, ratio, metrics);
        let count = first.placed(a, metrics).len();
        if i < count {
            law_panes_count_their_cells(*first, a, metrics, i);
        } else {
            law_panes_count_their_cells(*second, b, metrics, i - count);
        }
    }
}

} // verus!
