//! What holds of a window over several events.

use crate::finite::law_finite_windows_can_be_dragged;
use crate::finite::lemma_product_not_negative;
use crate::finite::lemma_remainder;
use crate::finite::not_negative;
use crate::laws::law_close_undoes_split;
use crate::laws::law_every_pane_is_laid_out;
use crate::layout::law_close_stays_sound;
use crate::layout::law_drag_keeps_shape;
use crate::layout::law_split_stays_sound;
use crate::layout::lemma_has_leaf;
use crate::layout::lemma_numbered;
use crate::layout::Node;
use crate::layout::PaneId;
use crate::layout::SplitId;
use crate::pixels::exact_limit;
use crate::pixels::lemma_measure_order;
use crate::pixels::lemma_measure_product;
use crate::pixels::lemma_measure_sum;
use crate::rect::Axis;
use crate::single::Single;
use crate::single::FOUR;
use crate::single::TWO;
use crate::single::ZERO;
use crate::tiling::law_panes_and_bars_cover;
use crate::tiling::lemma_constants;
use crate::tiling::lemma_pixels;
use crate::tiling::pixel_bounds;
use crate::tiling::pixel_extents;
use crate::tiling::pixel_metrics;
use crate::tiling::pixel_slop;
use crate::tiling::pixels;
use crate::tiling::whole;
use crate::window_context::lemma_only_pane;
use crate::window_context::lemma_split_contains;
use crate::window_context::Action;
use crate::window_context::ElementState;
use crate::window_context::PaneSize;
use crate::window_context::SizeInfo;
use crate::window_context::WindowEvent;
use crate::window_context::WindowView;
use vstd::prelude::*;

verus! {

/// Closing the pane that a split has made undoes the split, whether its terminal was started or
/// not: tree, terminals and focus are as before. The numbers of pane and divider stay used up, a
/// drag is over, and all is laid out anew.
pub proof fn law_window_close_undoes_split(
    window: WindowView,
    axis: Axis,
    pane: PaneSize,
    size: SizeInfo,
)
    requires
        window.well_formed(),
        window.next_pane < u64::MAX,
        window.next_split < u64::MAX,
    ensures
        ({
            let new_id = PaneId::numbered(window.next_pane);
            let undone = (WindowView {
                next_pane: (window.next_pane + 1) as u64,
                next_split: (window.next_split + 1) as u64,
                split_drag: None,
                ..window
            }).laid_out(size);
            let split = window.with_split(axis);
            &&& split.with_terminal(new_id, pane, size).without_pane(new_id, size) == undone
            &&& split.without_pane(new_id, size) == undone
            &&& undone.tree == window.tree
            &&& undone.panes == window.panes
            &&& undone.focused == window.focused
        }),
{
    let new_id = PaneId::numbered(window.next_pane);
    let split_id = SplitId::numbered(window.next_split);
    law_split_stays_sound(window.tree, window.focused, axis, window.next_pane, window.next_split);
    law_close_undoes_split(window.tree, window.focused, axis, new_id, split_id);
    assert(!window.panes.contains_key(new_id.raw()));
    assert(window.panes.remove(new_id.raw()) =~= window.panes);
    assert(window.panes.insert(new_id.raw(), pane).remove(new_id.raw()) =~= window.panes);
}

/// Splitting the focused pane asks for one terminal, which is that of the new pane.
pub proof fn law_split_spawns_the_new_pane(window: WindowView, axis: Axis, size: SizeInfo)
    requires
        window.well_formed(),
        window.next_pane < u64::MAX,
        window.next_split < u64::MAX,
    ensures
        window.split_actions(axis, size).len() == 1,
        window.split_actions(axis, size)[0] matches Action::SpawnPane { leaf, .. } && leaf.id
            == PaneId::numbered(window.next_pane),
        window.with_split(axis).tree.leaves().contains(PaneId::numbered(window.next_pane)),
        !window.tree.leaves().contains(PaneId::numbered(window.next_pane)),
{
    law_split_stays_sound(window.tree, window.focused, axis, window.next_pane, window.next_split);
    lemma_split_contains(window, axis);
    law_every_pane_is_laid_out(
        window.with_split(axis).tree,
        size.content_bounds(),
        size.layout_metrics(),
        PaneId::numbered(window.next_pane),
    );
}

/// Closing a pane takes that pane out of the window, and no other; the last pane stays.
pub proof fn law_close_drops_one_pane(
    window: WindowView,
    id: PaneId,
    size: SizeInfo,
    other: PaneId,
)
    requires
        window.well_formed(),
        window.tree != Node::Leaf(id),
    ensures
        ({
            let after = window.without_pane(id, size);
            &&& after.tree.leaves().contains(other) <==> window.tree.leaves().contains(other)
                && other != id
            &&& after.has_pane(other) <==> window.has_pane(other) && other != id
        }),
{
    law_close_stays_sound(window.tree, id, window.next_pane, window.next_split);
    lemma_numbered();
    if window.tree.leaves().contains(id) {
        lemma_only_pane(window.tree, id);
        if let Node::Split { first, second, .. } = window.tree {
            lemma_has_leaf(*first);
            lemma_has_leaf(*second);
        }
    }
}

/// Laying out twice is laying out once.
pub proof fn law_layout_settles(window: WindowView, size: SizeInfo)
    ensures
        window.laid_out(size).laid_out(size) == window.laid_out(size),
{
}

/// While a divider is being dragged, every move of the mouse goes to it, and the drag goes on until
/// the left button is released, which goes to it too.
pub proof fn law_drag_holds_the_mouse(window: WindowView, x: i32, y: i32, size: SizeInfo)
    requires
        window.split_drag is Some,
    ensures
        window.after_move(x, y, size).2,
        window.after_move(x, y, size).0.split_drag == window.split_drag,
        window.after_left_button(ElementState::Released, size).2,
        window.after_left_button(ElementState::Released, size).0.split_drag is None,
{
}

/// Moving the mouse changes no pane, no divider and no focus; only a drag moves its divider.
pub proof fn law_mouse_moves_keep_panes(window: WindowView, x: i32, y: i32, size: SizeInfo)
    ensures
        ({
            let after = window.after_move(x, y, size).0;
            &&& after.focused == window.focused
            &&& after.panes == window.panes
            &&& after.tree.leaves() == window.tree.leaves()
            &&& after.tree.splits() == window.tree.splits()
            &&& window.split_drag is None ==> after.tree == window.tree
        }),
{
    if let Some(drag) = window.split_drag {
        law_drag_keeps_shape(
            window.tree,
            drag.id,
            size.content_bounds(),
            size.layout_metrics(),
            Single::from_i32(x),
            Single::from_i32(y),
        );
    }
}

/// Whether a stretch of a window in whole pixels, with padding on both sides, keeps exact
/// coordinates where a bar with its slop lies behind it.
pub open spec fn pixel_stretch(extent: Single, padding: Single, cell_width: Single) -> bool {
    let bar = if pixels(cell_width) < 4 {
        4
    } else {
        pixels(cell_width)
    };
    &&& whole(extent) && 1 <= pixels(extent)
    &&& whole(padding) && 0 <= pixels(padding)
    &&& pixels(extent) + 2 * pixels(padding) + bar + 8 < exact_limit()
}

/// Whether a window measures whole pixels: its extent, its padding and its cells.
pub open spec fn pixel_window(size: SizeInfo) -> bool {
    &&& whole(size.cell_width) && 1 <= pixels(size.cell_width)
    &&& whole(size.cell_height) && 1 <= pixels(size.cell_height)
    &&& 2 * pixels(size.cell_width) < exact_limit()
    &&& pixels(size.cell_height) < exact_limit()
    &&& pixel_stretch(size.width, size.padding_x, size.cell_width)
    &&& pixel_stretch(size.height, size.padding_y, size.cell_width)
}

/// What padding on both sides leaves of a stretch of whole pixels.
proof fn lemma_content_stretch(extent: Single, padding: Single)
    requires
        whole(extent),
        whole(padding),
        0 <= pixels(extent),
        0 <= pixels(padding),
        pixels(extent) + 2 * pixels(padding) < exact_limit(),
    ensures
        ({
            let inner = extent.minus(Single::from_bits(TWO).times(padding)).max(
                Single::from_bits(ZERO),
            );
            &&& whole(inner)
            &&& 0 <= pixels(inner) <= pixels(extent)
        }),
{
    let two = Single::from_bits(TWO);
    let zero = Single::from_bits(ZERO);
    let (w, p) = (pixels(extent), pixels(padding));
    lemma_constants();
    lemma_measure_product(two, 2, padding, p);
    let both = two.times(padding);
    lemma_measure_sum(extent, w, both, 2 * p);
    let inner = extent.minus(both);
    lemma_measure_order(inner, w - 2 * p, zero, 0);
    lemma_pixels(zero, 0);
    lemma_pixels(inner, w - 2 * p);
}

/// The content of a window of whole pixels has exact coordinates, and so have its cells and bars.
pub proof fn lemma_pixel_window(size: SizeInfo)
    requires
        pixel_window(size),
    ensures
        pixel_bounds(size.content_bounds(), size.layout_metrics()),
        pixel_extents(size.content_bounds()),
        pixel_metrics(size.layout_metrics()),
        pixel_slop(size.content_bounds(), size.layout_metrics()),
{
    let four = Single::from_bits(FOUR);
    lemma_constants();
    lemma_pixels(four, 4);
    lemma_measure_order(size.cell_width, pixels(size.cell_width), four, 4);
    lemma_content_stretch(size.width, size.padding_x);
    lemma_content_stretch(size.height, size.padding_y);
}

/// A window of finite extent takes every event where it has a pixel for the pointer to lie on: a
/// divider that is being dragged has a ratio for every pointer.
pub proof fn law_finite_windows_take_events(window: WindowView, event: WindowEvent, size: SizeInfo)
    requires
        !size.width.infinite(),
        !size.height.infinite(),
        size.width.to_i32() >= 1,
        size.height.to_i32() >= 1,
        not_negative(size.padding_x),
        not_negative(size.padding_y),
        not_negative(size.cell_width),
        not_negative(size.cell_height),
    ensures
        window.takes_event(event, size),
{
    let two = Single::from_bits(TWO);
    lemma_product_not_negative(two, size.padding_x);
    lemma_product_not_negative(two, size.padding_y);
    lemma_remainder(size.width, two.times(size.padding_x));
    lemma_remainder(size.height, two.times(size.padding_y));
    if let Some(drag) = window.split_drag {
        law_finite_windows_can_be_dragged(
            window.tree,
            drag.id,
            size.content_bounds(),
            size.layout_metrics(),
        );
    }
}

/// In a window of whole pixels, every point inside the padding hits a pane or a bar.
pub proof fn law_pixel_windows_have_no_gaps(
    window: WindowView,
    size: SizeInfo,
    x: Single,
    y: Single,
)
    requires
        window.well_formed(),
        pixel_window(size),
        size.content_bounds().contains(x, y),
    ensures
        window.hit(size, x, y) is Some,
{
    lemma_pixel_window(size);
    law_panes_and_bars_cover(
        window.tree,
        size.content_bounds(),
        size.layout_metrics(),
        x,
        y,
    );
}

} // verus!
