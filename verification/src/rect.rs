//! Pixel rectangles, and how a split divides one.

use crate::single::Single;
use crate::single::FOUR;
use crate::single::HALF;
use crate::single::ONE;
use crate::single::TWO;
use crate::single::ZERO;
use vstd::prelude::*;

verus! {

/// Split orientation.
#[derive(Debug, Clone, Copy, PartialEq, Eq, Structural)]
pub enum Axis {
    /// Top/bottom stack (`SplitDown`).
    Horizontal,
    /// Left/right columns (`SplitRight`).
    Vertical,
}

/// Pixel rectangle in window coordinates (origin top-left).
#[derive(Debug, Clone, Copy, PartialEq)]
pub struct Rect {
    pub x: Single,
    pub y: Single,
    pub width: Single,
    pub height: Single,
}

impl Rect {
    pub open spec fn spec_contains(self, x: Single, y: Single) -> bool {
        &&& self.x.le(x)
        &&& self.y.le(y)
        &&& x.lt(self.x.plus(self.width))
        &&& y.lt(self.y.plus(self.height))
    }

    pub open spec fn spec_inflate(self, slop: Single) -> Rect {
        Rect {
            x: self.x.minus(slop),
            y: self.y.minus(slop),
            width: self.width.plus(slop.times(Single::from_bits(TWO))),
            height: self.height.plus(slop.times(Single::from_bits(TWO))),
        }
    }

    pub open spec fn spec_center(self) -> (Single, Single) {
        (
            self.x.plus(self.width.over(Single::from_bits(TWO))),
            self.y.plus(self.height.over(Single::from_bits(TWO))),
        )
    }

    /// Whether a point lies in the rectangle: on its left or top edge, but not on its right or
    /// bottom edge.
    #[verifier::when_used_as_spec(spec_contains)]
    pub fn contains(self, x: Single, y: Single) -> (inside: bool)
        ensures
            inside == self.spec_contains(x, y),
    {
        self.x.le(x) && self.y.le(y) && x.lt(self.x.plus(self.width)) && y.lt(
            self.y.plus(self.height),
        )
    }

    /// The rectangle with `slop` added on each side.
    #[verifier::when_used_as_spec(spec_inflate)]
    pub fn inflate(self, slop: Single) -> (inflated: Self)
        ensures
            inflated == self.spec_inflate(slop),
    {
        Self {
            x: self.x.minus(slop),
            y: self.y.minus(slop),
            width: self.width.plus(slop.times(Single::from_bits(TWO))),
            height: self.height.plus(slop.times(Single::from_bits(TWO))),
        }
    }

    /// The point in the middle.
    #[verifier::when_used_as_spec(spec_center)]
    pub fn center(self) -> (point: (Single, Single))
        ensures
            point == self.spec_center(),
    {
        (
            self.x.plus(self.width.over(Single::from_bits(TWO))),
            self.y.plus(self.height.over(Single::from_bits(TWO))),
        )
    }
}

/// Cell metrics used to snap splits to the grid.
#[derive(Debug, Clone, Copy)]
pub struct LayoutMetrics {
    pub cell_width: Single,
    pub cell_height: Single,
    pub bar_thickness: Single,
    pub hit_slop: Single,
}

impl LayoutMetrics {
    pub open spec fn spec_from_cell_size(cell_width: Single, cell_height: Single) -> LayoutMetrics {
        LayoutMetrics {
            cell_width,
            cell_height,
            bar_thickness: cell_width.max(Single::from_bits(FOUR)),
            hit_slop: Single::from_bits(FOUR),
        }
    }

    /// Metrics for a cell size: a bar is one cell wide, but at least 4 pixels.
    #[verifier::when_used_as_spec(spec_from_cell_size)]
    pub fn from_cell_size(cell_width: Single, cell_height: Single) -> (metrics: Self)
        ensures
            metrics == LayoutMetrics::spec_from_cell_size(cell_width, cell_height),
    {
        Self {
            cell_width,
            cell_height,
            bar_thickness: cell_width.max(Single::from_bits(FOUR)),
            hit_slop: Single::from_bits(FOUR),
        }
    }
}

/// The fewest columns of a terminal.
pub open spec fn spec_min_columns() -> usize {
    2
}

/// The fewest lines of a terminal.
pub open spec fn spec_min_screen_lines() -> usize {
    1
}

/// The constant `alacritty_terminal::term::MIN_COLUMNS`, which is 2.
#[verifier::external_body]
pub(crate) fn min_columns() -> (columns: usize)
    ensures
        columns == spec_min_columns(),
{
    alacritty_terminal::term::MIN_COLUMNS
}

/// The constant `alacritty_terminal::term::MIN_SCREEN_LINES`, which is 1.
#[verifier::external_body]
pub(crate) fn min_screen_lines() -> (lines: usize)
    ensures
        lines == spec_min_screen_lines(),
{
    alacritty_terminal::term::MIN_SCREEN_LINES
}

/// Whether two intervals, each given by its start and its length, overlap.
pub open spec fn spec_rects_overlap_1d(a: Single, a_len: Single, b: Single, b_len: Single) -> bool {
    a.lt(b.plus(b_len)) && b.lt(a.plus(a_len))
}

/// Whether two intervals, each given by its start and its length, overlap.
#[verifier::when_used_as_spec(spec_rects_overlap_1d)]
pub fn rects_overlap_1d(a: Single, a_len: Single, b: Single, b_len: Single) -> (overlap: bool)
    ensures
        overlap == spec_rects_overlap_1d(a, a_len, b, b_len),
{
    a.lt(b.plus(b_len)) && b.lt(a.plus(a_len))
}

/// The least extent along the split direction that holds a terminal.
pub open spec fn spec_min_primary(axis: Axis, metrics: LayoutMetrics) -> Single {
    match axis {
        Axis::Vertical => Single::from_usize(spec_min_columns()).times(metrics.cell_width),
        Axis::Horizontal => Single::from_usize(spec_min_screen_lines()).times(metrics.cell_height),
    }
}

/// The least extent along the split direction that holds a terminal.
#[verifier::when_used_as_spec(spec_min_primary)]
pub fn min_primary(axis: Axis, metrics: LayoutMetrics) -> (extent: Single)
    ensures
        extent == spec_min_primary(axis, metrics),
{
    match axis {
        Axis::Vertical => Single::from_usize(min_columns()).times(metrics.cell_width),
        Axis::Horizontal => Single::from_usize(min_screen_lines()).times(metrics.cell_height),
    }
}

/// The smallest length that the first part may get.
pub open spec fn shortest_first(available: Single, min_size: Single) -> Single {
    min_size.min(available)
}

/// The largest length that the first part may get: the second keeps `min_size` where there is
/// room for both.
pub open spec fn longest_first(available: Single, min_size: Single) -> Single {
    let least = shortest_first(available, min_size);
    available.minus(least).max(least)
}

/// The length of the first part: the share `ratio` of what is available, on the cell grid, and
/// within the bounds of both parts.
#[verifier::opaque]
pub open spec fn spec_snapped_first_len(
    available: Single,
    ratio: Single,
    cell: Single,
    min_size: Single,
) -> Single {
    if available.le(Single::from_bits(ZERO)) {
        Single::from_bits(ZERO)
    } else {
        let least = shortest_first(available, min_size);
        let most = longest_first(available, min_size);
        let share = available.times(ratio.clamp(Single::from_bits(ZERO), Single::from_bits(ONE)));
        let desired = share.clamp(least, most);
        let snapped = if Single::from_bits(ZERO).lt(cell) {
            desired.over(cell).floor().times(cell)
        } else {
            desired
        };
        snapped.clamp(least, most)
    }
}

/// The length of the first part: the share `ratio` of what is available, on the cell grid, and
/// within the bounds of both parts.
#[verifier::when_used_as_spec(spec_snapped_first_len)]
pub fn snapped_first_len(available: Single, ratio: Single, cell: Single, min_size: Single) -> (len:
    Single)
    requires
        !available.nan() || !min_size.nan(),
    ensures
        len == spec_snapped_first_len(available, ratio, cell, min_size),
{
    proof {
        reveal(spec_snapped_first_len);
    }
    if available.le(Single::from_bits(ZERO)) {
        return Single::from_bits(ZERO);
    }
    let min_size: Single = min_size.min(available);
    let max_first: Single = available.minus(min_size).max(min_size);
    let share: Single = available.times(
        ratio.clamp(Single::from_bits(ZERO), Single::from_bits(ONE)),
    );
    let desired: Single = share.clamp(min_size, max_first);
    let snapped: Single = if Single::from_bits(ZERO).lt(cell) {
        desired.over(cell).floor().times(cell)
    } else {
        desired
    };
    snapped.clamp(min_size, max_first)
}

/// What a bar leaves of an extent.
pub open spec fn room(extent: Single, metrics: LayoutMetrics) -> Single {
    extent.minus(metrics.bar_thickness).max(Single::from_bits(ZERO))
}

/// The first part, the bar and the second part of a split rectangle.
#[verifier::opaque]
pub open spec fn spec_split_rect(
    bounds: Rect,
    axis: Axis,
    ratio: Single,
    metrics: LayoutMetrics,
) -> (Rect, Rect, Rect) {
    let bar = metrics.bar_thickness;
    match axis {
        Axis::Vertical => {
            let available = room(bounds.width, metrics);
            let first_len = snapped_first_len(
                available,
                ratio,
                metrics.cell_width,
                min_primary(axis, metrics),
            );
            (
                Rect { width: first_len, ..bounds },
                Rect { x: bounds.x.plus(first_len), width: bar, ..bounds },
                Rect {
                    x: bounds.x.plus(first_len).plus(bar),
                    width: available.minus(first_len).max(Single::from_bits(ZERO)),
                    ..bounds
                },
            )
        },
        Axis::Horizontal => {
            let available = room(bounds.height, metrics);
            let first_len = snapped_first_len(
                available,
                ratio,
                metrics.cell_height,
                min_primary(axis, metrics),
            );
            (
                Rect { height: first_len, ..bounds },
                Rect { y: bounds.y.plus(first_len), height: bar, ..bounds },
                Rect {
                    y: bounds.y.plus(first_len).plus(bar),
                    height: available.minus(first_len).max(Single::from_bits(ZERO)),
                    ..bounds
                },
            )
        },
    }
}

/// The first part, the bar and the second part of a split rectangle.
#[verifier::when_used_as_spec(spec_split_rect)]
pub fn split_rect(bounds: Rect, axis: Axis, ratio: Single, metrics: LayoutMetrics) -> (parts: (
    Rect,
    Rect,
    Rect,
))
    ensures
        parts == spec_split_rect(bounds, axis, ratio, metrics),
{
    proof {
        reveal(spec_split_rect);
    }
    let bar: Single = metrics.bar_thickness;
    match axis {
        Axis::Vertical => {
            let available: Single = bounds.width.minus(bar).max(Single::from_bits(ZERO));
            let first_len: Single = snapped_first_len(
                available,
                ratio,
                metrics.cell_width,
                min_primary(axis, metrics),
            );
            let first = Rect {
                x: bounds.x,
                y: bounds.y,
                width: first_len,
                height: bounds.height,
            };
            let bar_rect = Rect {
                x: bounds.x.plus(first_len),
                y: bounds.y,
                width: bar,
                height: bounds.height,
            };
            let second = Rect {
                x: bounds.x.plus(first_len).plus(bar),
                y: bounds.y,
                width: available.minus(first_len).max(Single::from_bits(ZERO)),
                height: bounds.height,
            };
            (first, bar_rect, second)
        },
        Axis::Horizontal => {
            let available: Single = bounds.height.minus(bar).max(Single::from_bits(ZERO));
            let first_len: Single = snapped_first_len(
                available,
                ratio,
                metrics.cell_height,
                min_primary(axis, metrics),
            );
            let first = Rect {
                x: bounds.x,
                y: bounds.y,
                width: bounds.width,
                height: first_len,
            };
            let bar_rect = Rect {
                x: bounds.x,
                y: bounds.y.plus(first_len),
                width: bounds.width,
                height: bar,
            };
            let second = Rect {
                x: bounds.x,
                y: bounds.y.plus(first_len).plus(bar),
                width: bounds.width,
                height: available.minus(first_len).max(Single::from_bits(ZERO)),
            };
            (first, bar_rect, second)
        },
    }
}

/// The extent of a rectangle along the direction in which a split divides it.
pub open spec fn primary_extent(bounds: Rect, axis: Axis) -> Single {
    match axis {
        Axis::Vertical => bounds.width,
        Axis::Horizontal => bounds.height,
    }
}

/// How far a pointer lies from the start of a rectangle along the split direction.
pub open spec fn primary_offset(bounds: Rect, axis: Axis, x: Single, y: Single) -> Single {
    match axis {
        Axis::Vertical => x.minus(bounds.x),
        Axis::Horizontal => y.minus(bounds.y),
    }
}

/// The extent of a cell along the split direction.
pub open spec fn primary_cell(axis: Axis, metrics: LayoutMetrics) -> Single {
    match axis {
        Axis::Vertical => metrics.cell_width,
        Axis::Horizontal => metrics.cell_height,
    }
}

/// The smallest ratio that a dragged split takes.
pub open spec fn least_ratio(bounds: Rect, axis: Axis, metrics: LayoutMetrics) -> Single {
    let available = room(primary_extent(bounds, axis), metrics);
    shortest_first(available, min_primary(axis, metrics)).over(available)
}

/// The largest ratio that a dragged split takes.
pub open spec fn greatest_ratio(bounds: Rect, axis: Axis, metrics: LayoutMetrics) -> Single {
    let available = room(primary_extent(bounds, axis), metrics);
    let least = shortest_first(available, min_primary(axis, metrics));
    available.minus(least).over(available).max(least_ratio(bounds, axis, metrics))
}

/// Whether a rectangle has a ratio for every pointer: it has no room at all, or its smallest ratio
/// is a number (it is none where room and smallest extent are both infinite).
pub open spec fn takes_ratio(bounds: Rect, axis: Axis, metrics: LayoutMetrics) -> bool {
    room(primary_extent(bounds, axis), metrics).le(Single::from_bits(ZERO)) || !least_ratio(
        bounds,
        axis,
        metrics,
    ).nan()
}

/// Whether a rectangle has a ratio for every pointer.
pub fn can_take_ratio(bounds: Rect, axis: Axis, metrics: LayoutMetrics) -> (answer: bool)
    ensures
        answer == takes_ratio(bounds, axis, metrics),
{
    let extent: Single = match axis {
        Axis::Vertical => bounds.width,
        Axis::Horizontal => bounds.height,
    };
    let available: Single = extent.minus(metrics.bar_thickness).max(Single::from_bits(ZERO));
    available.le(Single::from_bits(ZERO)) || !min_primary(axis, metrics).min(available).over(
        available,
    ).is_nan()
}

/// The ratio that puts a bar under a pointer, on the cell grid, and within the bounds of both
/// parts.
#[verifier::opaque]
pub open spec fn spec_ratio_from_pointer(
    bounds: Rect,
    axis: Axis,
    metrics: LayoutMetrics,
    pointer_x: Single,
    pointer_y: Single,
) -> Single {
    let available = room(primary_extent(bounds, axis), metrics);
    let pos = primary_offset(bounds, axis, pointer_x, pointer_y);
    let cell = primary_cell(axis, metrics);
    if available.le(Single::from_bits(ZERO)) {
        Single::from_bits(HALF)
    } else {
        let snapped = if Single::from_bits(ZERO).lt(cell) {
            pos.over(cell).round().times(cell)
        } else {
            pos
        };
        snapped.over(available).clamp(
            least_ratio(bounds, axis, metrics),
            greatest_ratio(bounds, axis, metrics),
        )
    }
}

/// The ratio that puts a bar under a pointer, on the cell grid, and within the bounds of both
/// parts.
#[verifier::when_used_as_spec(spec_ratio_from_pointer)]
pub fn ratio_from_pointer(
    bounds: Rect,
    axis: Axis,
    metrics: LayoutMetrics,
    pointer_x: Single,
    pointer_y: Single,
) -> (ratio: Single)
    requires
        takes_ratio(bounds, axis, metrics),
    ensures
        ratio == spec_ratio_from_pointer(bounds, axis, metrics, pointer_x, pointer_y),
{
    proof {
        reveal(spec_ratio_from_pointer);
    }
    let bar: Single = metrics.bar_thickness;
    let (available, pos, min_size, cell) = match axis {
        Axis::Vertical => (
            bounds.width.minus(bar).max(Single::from_bits(ZERO)),
            pointer_x.minus(bounds.x),
            min_primary(axis, metrics),
            metrics.cell_width,
        ),
        Axis::Horizontal => (
            bounds.height.minus(bar).max(Single::from_bits(ZERO)),
            pointer_y.minus(bounds.y),
            min_primary(axis, metrics),
            metrics.cell_height,
        ),
    };
    if available.le(Single::from_bits(ZERO)) {
        return Single::from_bits(HALF);
    }
    let min_size: Single = min_size.min(available);
    let min_ratio: Single = min_size.over(available);
    let max_ratio: Single = available.minus(min_size).over(available).max(min_ratio);
    let snapped_pos: Single = if Single::from_bits(ZERO).lt(cell) {
        pos.over(cell).round().times(cell)
    } else {
        pos
    };
    snapped_pos.over(available).clamp(min_ratio, max_ratio)
}

} // verus!
