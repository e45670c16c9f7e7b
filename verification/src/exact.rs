//! How panes and bars tile a window wherever the sums of their coordinates are exact.

use crate::finite::lemma_first_bounds;
use crate::finite::lemma_minimum_not_negative;
use crate::finite::not_negative;
use crate::finite::proper_metrics;
use crate::layout::BarGeometry;
use crate::layout::LeafGeometry;
use crate::layout::Node;
use crate::ratio::lemma_less;
use crate::rect::min_primary;
use crate::rect::primary_cell;
use crate::rect::room;
use crate::rect::shortest_first;
use crate::rect::snapped_first_len;
use crate::rect::spec_snapped_first_len;
use crate::rect::spec_split_rect;
use crate::rect::split_rect;
use crate::rect::Axis;
use crate::rect::LayoutMetrics;
use crate::rect::Rect;
use crate::single::lemma_order;
use crate::single::Single;
use crate::single::ZERO;
use vstd::prelude::*;

verus! {

/// Whether a sum is exact.
pub open spec fn exact_sum(a: Single, b: Single) -> bool {
    &&& a.finite()
    &&& b.finite()
    &&& a.plus(b).finite()
    &&& a.plus(b).units() == a.units() + b.units()
}

/// Whether a difference is exact.
pub open spec fn exact_difference(a: Single, b: Single) -> bool {
    &&& a.finite()
    &&& b.finite()
    &&& a.minus(b).finite()
    &&& a.minus(b).units() == a.units() - b.units()
}

/// Whether a stretch is at least as long as a bar is thick, and the coordinates at which its parts
/// begin and end are exact.
pub open spec fn exact_span(
    start: Single,
    extent: Single,
    ratio: Single,
    axis: Axis,
    metrics: LayoutMetrics,
) -> bool {
    let bar = metrics.bar_thickness;
    let available = room(extent, metrics);
    let first = snapped_first_len(
        available,
        ratio,
        primary_cell(axis, metrics),
        min_primary(axis, metrics),
    );
    let rest = available.minus(first).max(Single::from_bits(ZERO));
    &&& bar.le(extent)
    &&& exact_difference(extent, bar)
    &&& exact_difference(available, first)
    &&& exact_sum(start, extent)
    &&& exact_sum(start, first)
    &&& exact_sum(start.plus(first), bar)
    &&& exact_sum(start.plus(first).plus(bar), rest)
}

/// Whether every divided rectangle is at least as long as its bar is thick, and all coordinates at
/// which panes and bars begin and end along a split are exact.
pub open spec fn exact_sums(node: Node, bounds: Rect, metrics: LayoutMetrics) -> bool
    decreases node,
{
    match node {
        Node::Leaf(_) => true,
        Node::Split { axis, ratio, first, second, .. } => {
            let parts = split_rect(bounds, axis, ratio, metrics);
            &&& match axis {
                Axis::Vertical => exact_span(bounds.x, bounds.width, ratio, axis, metrics),
                Axis::Horizontal => exact_span(bounds.y, bounds.height, ratio, axis, metrics),
            }
            &&& exact_sums(*first, parts.0, metrics)
            &&& exact_sums(*second, parts.2, metrics)
        },
    }
}

/// Whether a coordinate lies in a stretch.
pub open spec fn in_span(start: Single, extent: Single, p: Single) -> bool {
    start.le(p) && p.lt(start.plus(extent))
}

/// The first part takes no more than what is available.
proof fn lemma_first_fits(available: Single, ratio: Single, cell: Single, min_size: Single)
    requires
        available.finite(),
        not_negative(available),
        not_negative(min_size),
        snapped_first_len(available, ratio, cell, min_size).finite(),
    ensures
        ({
            let first = snapped_first_len(available, ratio, cell, min_size);
            not_negative(first) && first.le(available)
        }),
{
    reveal(spec_snapped_first_len);
    lemma_first_bounds(available, min_size);
    if !available.le(Single::from_bits(ZERO)) {
        lemma_less(available, shortest_first(available, min_size));
    }
}

/// The three parts of a stretch fill it without overlap.
proof fn lemma_exact_span(
    start: Single,
    extent: Single,
    ratio: Single,
    axis: Axis,
    metrics: LayoutMetrics,
    p: Single,
)
    requires
        exact_span(start, extent, ratio, axis, metrics),
        proper_metrics(metrics),
    ensures
        ({
            let available = room(extent, metrics);
            let first = snapped_first_len(
                available,
                ratio,
                primary_cell(axis, metrics),
                min_primary(axis, metrics),
            );
            let bar = metrics.bar_thickness;
            let rest = available.minus(first).max(Single::from_bits(ZERO));
            let before = start.plus(first);
            let behind = before.plus(bar);
            &&& in_span(start, first, p) ==> in_span(start, extent, p)
            &&& in_span(before, bar, p) ==> in_span(start, extent, p)
            &&& in_span(behind, rest, p) ==> in_span(start, extent, p)
            &&& !(in_span(start, first, p) && in_span(before, bar, p))
            &&& !(in_span(start, first, p) && in_span(behind, rest, p))
            &&& !(in_span(before, bar, p) && in_span(behind, rest, p))
            &&& in_span(start, extent, p) ==> in_span(start, first, p) || in_span(before, bar, p)
                || in_span(behind, rest, p)
        }),
{
    let zero = Single::from_bits(ZERO);
    let bar = metrics.bar_thickness;
    let available = room(extent, metrics);
    let min_size = min_primary(axis, metrics);
    let cell = primary_cell(axis, metrics);
    let first = snapped_first_len(available, ratio, cell, min_size);
    let rest = available.minus(first).max(zero);
    let before = start.plus(first);
    let behind = before.plus(bar);
    let last = behind.plus(rest);
    let end = start.plus(extent);
    lemma_order(zero, zero);
    lemma_order(bar, extent);
    lemma_order(extent.minus(bar), zero);
    assert(available.units() == extent.units() - bar.units());
    lemma_order(available, zero);
    lemma_minimum_not_negative(axis, metrics);
    lemma_first_fits(available, ratio, cell, min_size);
    lemma_order(first, available);
    lemma_order(first, zero);
    lemma_order(available.minus(first), zero);
    assert(rest.units() == available.units() - first.units());
    lemma_order(bar, zero);
    lemma_order(start, before);
    lemma_order(before, behind);
    lemma_order(behind, last);
    lemma_order(last, end);
}

/// The three parts of a rectangle fill it without overlap.
proof fn lemma_exact_parts(
    node: Node,
    bounds: Rect,
    metrics: LayoutMetrics,
    x: Single,
    y: Single,
)
    requires
        exact_sums(node, bounds, metrics),
        proper_metrics(metrics),
    ensures
        node matches Node::Split { axis, ratio, .. } ==> {
            let (first, bar, second) = split_rect(bounds, axis, ratio, metrics);
            &&& first.contains(x, y) ==> bounds.contains(x, y)
            &&& bar.contains(x, y) ==> bounds.contains(x, y)
            &&& second.contains(x, y) ==> bounds.contains(x, y)
            &&& !(first.contains(x, y) && bar.contains(x, y))
            &&& !(first.contains(x, y) && second.contains(x, y))
            &&& !(bar.contains(x, y) && second.contains(x, y))
            &&& bounds.contains(x, y) ==> first.contains(x, y) || bar.contains(x, y)
                || second.contains(x, y)
        },
{
    if let Node::Split { axis, ratio, .. } = node {
        reveal(spec_split_rect);
        match axis {
            Axis::Vertical => {
                lemma_exact_span(bounds.x, bounds.width, ratio, axis, metrics, x);
            },
            Axis::Horizontal => {
                lemma_exact_span(bounds.y, bounds.height, ratio, axis, metrics, y);
            },
        }
    }
}

/// Where the sums are exact, a pane holds only points of the window.
pub proof fn law_exact_panes_lie_inside(
    node: Node,
    bounds: Rect,
    metrics: LayoutMetrics,
    i: int,
    x: Single,
    y: Single,
)
    requires
        exact_sums(node, bounds, metrics),
        proper_metrics(metrics),
        0 <= i < node.placed(bounds, metrics).len(),
    ensures
        node.placed(bounds, metrics)[i].rect.contains(x, y) ==> bounds.contains(x, y),
    decreases node,
{
    lemma_exact_parts(node, bounds, metrics, x, y);
    if let Node::Split { axis, ratio, first, second, .. } = node {
        let parts = split_rect(bounds, axis, ratio, metrics);
        let count = first.placed(parts.0, metrics).len();
        if i < count {
            law_exact_panes_lie_inside(*first, parts.0, metrics, i, x, y);
        } else {
            law_exact_panes_lie_inside(*second, parts.2, metrics, i - count, x, y);
        }
    }
}

/// Where the sums are exact, a bar holds only points of the window.
pub proof fn law_exact_bars_lie_inside(
    node: Node,
    bounds: Rect,
    metrics: LayoutMetrics,
    i: int,
    x: Single,
    y: Single,
)
    requires
        exact_sums(node, bounds, metrics),
        proper_metrics(metrics),
        0 <= i < node.barred(bounds, metrics).len(),
    ensures
        node.barred(bounds, metrics)[i].rect.contains(x, y) ==> bounds.contains(x, y),
    decreases node,
{
    lemma_exact_parts(node, bounds, metrics, x, y);
    if let Node::Split { axis, ratio, first, second, .. } = node {
        let parts = split_rect(bounds, axis, ratio, metrics);
        let count = first.barred(parts.0, metrics).len();
        if i < count {
            law_exact_bars_lie_inside(*first, parts.0, metrics, i, x, y);
        } else if i > count {
            law_exact_bars_lie_inside(*second, parts.2, metrics, i - count - 1, x, y);
        }
    }
}

/// Where the sums are exact, no point lies in two panes.
pub proof fn law_exact_panes_are_disjoint(
    node: Node,
    bounds: Rect,
    metrics: LayoutMetrics,
    i: int,
    j: int,
    x: Single,
    y: Single,
)
    requires
        exact_sums(node, bounds, metrics),
        proper_metrics(metrics),
        0 <= i < j < node.placed(bounds, metrics).len(),
    ensures
        !(node.placed(bounds, metrics)[i].rect.contains(x, y) && node.placed(
            bounds,
            metrics,
        )[j].rect.contains(x, y)),
    decreases node,
{
    lemma_exact_parts(node, bounds, metrics, x, y);
    if let Node::Split { axis, ratio, first, second, .. } = node {
        let parts = split_rect(bounds, axis, ratio, metrics);
        let count = first.placed(parts.0, metrics).len();
        if j < count {
            law_exact_panes_are_disjoint(*first, parts.0, metrics, i, j, x, y);
        } else if i >= count {
            law_exact_panes_are_disjoint(*second, parts.2, metrics, i - count, j - count, x, y);
        } else {
            law_exact_panes_lie_inside(*first, parts.0, metrics, i, x, y);
            law_exact_panes_lie_inside(*second, parts.2, metrics, j - count, x, y);
        }
    }
}

/// Where the sums are exact, no point lies on two bars.
pub proof fn law_exact_bars_are_disjoint(
    node: Node,
    bounds: Rect,
    metrics: LayoutMetrics,
    i: int,
    j: int,
    x: Single,
    y: Single,
)
    requires
        exact_sums(node, bounds, metrics),
        proper_metrics(metrics),
        0 <= i < j < node.barred(bounds, metrics).len(),
    ensures
        !(node.barred(bounds, metrics)[i].rect.contains(x, y) && node.barred(
            bounds,
            metrics,
        )[j].rect.contains(x, y)),
    decreases node,
{
    lemma_exact_parts(node, bounds, metrics, x, y);
    if let Node::Split { axis, ratio, first, second, .. } = node {
        let parts = split_rect(bounds, axis, ratio, metrics);
        let count = first.barred(parts.0, metrics).len();
        if j < count {
            law_exact_bars_are_disjoint(*first, parts.0, metrics, i, j, x, y);
        } else if i > count {
            let (k, l) = (i - count - 1, j - count - 1);
            law_exact_bars_are_disjoint(*second, parts.2, metrics, k, l, x, y);
        } else {
            if i < count {
                law_exact_bars_lie_inside(*first, parts.0, metrics, i, x, y);
            }
            if j > count {
                law_exact_bars_lie_inside(*second, parts.2, metrics, j - count - 1, x, y);
            }
        }
    }
}

/// Where the sums are exact, no point lies in a pane and on a bar.
pub proof fn law_exact_panes_and_bars_are_disjoint(
    node: Node,
    bounds: Rect,
    metrics: LayoutMetrics,
    i: int,
    j: int,
    x: Single,
    y: Single,
)
    requires
        exact_sums(node, bounds, metrics),
        proper_metrics(metrics),
        0 <= i < node.placed(bounds, metrics).len(),
        0 <= j < node.barred(bounds, metrics).len(),
    ensures
        !(node.placed(bounds, metrics)[i].rect.contains(x, y) && node.barred(
            bounds,
            metrics,
        )[j].rect.contains(x, y)),
    decreases node,
{
    lemma_exact_parts(node, bounds, metrics, x, y);
    if let Node::Split { axis, ratio, first, second, .. } = node {
        let parts = split_rect(bounds, axis, ratio, metrics);
        let panes = first.placed(parts.0, metrics).len();
        let bars = first.barred(parts.0, metrics).len();
        let (k, l) = (i - panes, j - bars - 1);
        let pane = node.placed(bounds, metrics)[i];
        let bar = node.barred(bounds, metrics)[j];
        if i < panes {
            assert(pane == first.placed(parts.0, metrics)[i]);
            if j < bars {
                assert(bar == first.barred(parts.0, metrics)[j]);
                law_exact_panes_and_bars_are_disjoint(*first, parts.0, metrics, i, j, x, y);
            } else {
                law_exact_panes_lie_inside(*first, parts.0, metrics, i, x, y);
                if j > bars {
                    assert(bar == second.barred(parts.2, metrics)[l]);
                    law_exact_bars_lie_inside(*second, parts.2, metrics, l, x, y);
                }
            }
        } else {
            assert(pane == second.placed(parts.2, metrics)[k]);
            if j > bars {
                assert(bar == second.barred(parts.2, metrics)[l]);
                law_exact_panes_and_bars_are_disjoint(*second, parts.2, metrics, k, l, x, y);
            } else {
                law_exact_panes_lie_inside(*second, parts.2, metrics, k, x, y);
                if j < bars {
                    assert(bar == first.barred(parts.0, metrics)[j]);
                    law_exact_bars_lie_inside(*first, parts.0, metrics, j, x, y);
                }
            }
        }
    }
}

/// Where the sums are exact, a point of the window lies in a pane or on a bar; the result is the
/// place of that pane or bar, and whether it is a bar.
proof fn lemma_exact_cover(
    node: Node,
    bounds: Rect,
    metrics: LayoutMetrics,
    x: Single,
    y: Single,
) -> (place: (bool, int))
    requires
        exact_sums(node, bounds, metrics),
        proper_metrics(metrics),
        bounds.contains(x, y),
    ensures
        place.0 ==> 0 <= place.1 < node.barred(bounds, metrics).len() && node.barred(
            bounds,
            metrics,
        )[place.1].rect.contains(x, y),
        !place.0 ==> 0 <= place.1 < node.placed(bounds, metrics).len() && node.placed(
            bounds,
            metrics,
        )[place.1].rect.contains(x, y),
    decreases node,
{
    lemma_exact_parts(node, bounds, metrics, x, y);
    match node {
        Node::Leaf(_) => (false, 0),
        Node::Split { id, axis, ratio, first, second } => {
            let (a, bar, b) = split_rect(bounds, axis, ratio, metrics);
            let leaves = first.placed(a, metrics).len() as int;
            let bars = first.barred(a, metrics).len() as int;
            if a.contains(x, y) {
                lemma_exact_cover(*first, a, metrics, x, y)
            } else if b.contains(x, y) {
                let (on_bar, i) = lemma_exact_cover(*second, b, metrics, x, y);
                if on_bar {
                    (true, bars + 1 + i)
                } else {
                    (false, leaves + i)
                }
            } else {
                assert(node.barred(bounds, metrics)[bars] == BarGeometry { id, axis, rect: bar });
                (true, bars)
            }
        },
    }
}

/// The rectangles of all panes, and behind them those of all bars.
pub open spec fn all_rects(node: Node, bounds: Rect, metrics: LayoutMetrics) -> Seq<Rect> {
    node.placed(bounds, metrics).map_values(|leaf: LeafGeometry| leaf.rect) + node.barred(
        bounds,
        metrics,
    ).map_values(|bar: BarGeometry| bar.rect)
}

/// Whether rectangles tile another one at a point: the point lies in one of them exactly where it
/// lies in the other, and in no two of them.
pub open spec fn tiles(rects: Seq<Rect>, bounds: Rect, x: Single, y: Single) -> bool {
    &&& bounds.contains(x, y) <==> exists|i: int|
        0 <= i < rects.len() && (#[trigger] rects[i]).contains(x, y)
    &&& forall|i: int, j: int|
        0 <= i < j < rects.len() ==> !((#[trigger] rects[i]).contains(x, y) && (
        #[trigger] rects[j]).contains(x, y))
}

/// Panes and bars tile the window wherever the sums of their coordinates are exact, and every
/// divided rectangle is at least as long as its bar is thick.
pub proof fn law_exact_panes_and_bars_tile(
    node: Node,
    bounds: Rect,
    metrics: LayoutMetrics,
    x: Single,
    y: Single,
)
    requires
        exact_sums(node, bounds, metrics),
        proper_metrics(metrics),
    ensures
        tiles(all_rects(node, bounds, metrics), bounds, x, y),
{
    let rects = all_rects(node, bounds, metrics);
    let leaves = node.placed(bounds, metrics);
    let bars = node.barred(bounds, metrics);
    let count = leaves.len();
    if bounds.contains(x, y) {
        let (on_bar, i) = lemma_exact_cover(node, bounds, metrics, x, y);
        if on_bar {
            assert(rects[count + i] == bars[i].rect);
        } else {
            assert(rects[i] == leaves[i].rect);
        }
    }
    assert forall|i: int| 0 <= i < rects.len() && (#[trigger] rects[i]).contains(
        x,
        y,
    ) implies bounds.contains(x, y) by {
        if i < count {
            law_exact_panes_lie_inside(node, bounds, metrics, i, x, y);
        } else {
            law_exact_bars_lie_inside(node, bounds, metrics, i - count, x, y);
        }
    }
    assert forall|i: int, j: int| 0 <= i < j < rects.len() implies !((
    #[trigger] rects[i]).contains(x, y) && (#[trigger] rects[j]).contains(x, y)) by {
        if j < count {
            law_exact_panes_are_disjoint(node, bounds, metrics, i, j, x, y);
        } else if i < count {
            law_exact_panes_and_bars_are_disjoint(node, bounds, metrics, i, j - count, x, y);
        } else {
            law_exact_bars_are_disjoint(node, bounds, metrics, i - count, j - count, x, y);
        }
    }
}

} // verus!
