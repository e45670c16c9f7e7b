//! What the events and actions of a window are for.

use crate::laws::law_geometry_follows_tree;
use crate::layout::law_split_order;
use crate::layout::law_split_stays_sound;
use crate::layout::lemma_contains_either;
use crate::layout::lemma_first_where_found;
use crate::layout::lemma_numbered;
use crate::layout::Hit;
use crate::layout::LeafGeometry;
use crate::layout::Node;
use crate::layout::PaneId;
use crate::layout::SplitId;
use crate::moving::lemma_found_at;
use crate::operations::bar_holds;
use crate::operations::law_close_focuses_the_sibling;
use crate::operations::law_hit_lies_under_the_point;
use crate::pixels::exact_limit;
use crate::pixels::lemma_measure_order;
use crate::pixels::lemma_measure_product;
use crate::pixels::lemma_measure_sum;
use crate::pixels::measures;
use crate::rect::Axis;
use crate::rest::alike_but_for;
use crate::rest::law_split_keeps_the_rest;
use crate::rest::Wanted;
use crate::shapes::law_metrics_of_cells;
use crate::single::Single;
use crate::single::HALF;
use crate::single::TWO;
use crate::single::ZERO;
use crate::tiling::lemma_constants;
use crate::tiling::pixels;
use crate::tiling::whole;
use crate::window_context::Action;
use crate::window_context::CursorIcon;
use crate::window_context::ElementState;
use crate::window_context::EventTarget;
use crate::window_context::InputState;
use crate::window_context::Mouse;
use crate::window_context::MouseButton;
use crate::window_context::PaneSize;
use crate::window_context::PendingPaneOp;
use crate::window_context::SizeInfo;
use crate::window_context::SplitDrag;
use crate::window_context::WindowEvent;
use crate::window_context::WindowView;
use vstd::prelude::*;

verus! {

/// A split of the focused pane asks for one terminal, and for nothing else. It is that of the new
/// pane, which takes the place directly behind the focused one, at `at`; it begins in the working
/// directory of the focused terminal where there is one, and else in none.
pub proof fn law_split_spawns_from_the_focused(
    window: WindowView,
    axis: Axis,
    size: SizeInfo,
    at: int,
)
    requires
        window.well_formed(),
        window.next_pane < u64::MAX,
        window.next_split < u64::MAX,
        0 <= at < window.tree.leaves().len(),
        window.tree.leaves()[at] == window.focused,
    ensures
        window.split_actions(axis, size).len() == 1,
        window.split_actions(axis, size)[0] matches Action::SpawnPane { leaf, parent } && {
            let leaves = window.with_split(axis).laid_out(size).leaves;
            &&& window.has_pane(window.focused) ==> parent == Some(window.focused)
            &&& !window.has_pane(window.focused) ==> parent is None
            &&& leaf.id.raw() == window.next_pane
            &&& at + 1 < leaves.len() && leaves[at + 1] == leaf
            &&& leaves[at].id == window.focused
        },
{
    let new_id = PaneId::numbered(window.next_pane);
    let split_id = SplitId::numbered(window.next_split);
    let tree = window.with_split(axis).tree;
    let (bounds, metrics) = (size.content_bounds(), size.layout_metrics());
    lemma_numbered();
    law_split_stays_sound(window.tree, window.focused, axis, window.next_pane, window.next_split);
    law_split_order(window.tree, window.focused, axis, new_id, split_id, at);
    law_geometry_follows_tree(tree, bounds, metrics);
    assert(tree.leaves()[at] == window.focused);
    assert(tree.leaves()[at + 1] == new_id);
    lemma_found_at(tree, bounds, metrics, at + 1);
}

/// A split divides the rectangle of the focused pane in half along its axis, for that pane and the
/// new one; all other panes and bars stay where they are. Nothing but the tree changes, and one
/// number of each kind is used up.
pub proof fn law_split_halves_the_focused(window: WindowView, axis: Axis, size: SizeInfo)
    requires
        window.well_formed(),
        window.next_pane < u64::MAX,
        window.next_split < u64::MAX,
    ensures
        ({
            let after = window.with_split(axis);
            let (bounds, metrics) = (size.content_bounds(), size.layout_metrics());
            &&& window.tree.find(Wanted::Pane(window.focused), bounds, metrics) matches Some(place)
                && place.node == Node::Leaf(window.focused) && alike_but_for(
                window.tree,
                after.tree,
                bounds,
                metrics,
                place,
                Node::Split {
                    id: SplitId::numbered(window.next_split),
                    axis,
                    ratio: Single::from_bits(HALF),
                    first: Box::new(Node::Leaf(window.focused)),
                    second: Box::new(Node::Leaf(PaneId::numbered(window.next_pane))),
                },
            )
            &&& after.next_pane == window.next_pane + 1
            &&& after.next_split == window.next_split + 1
            &&& after == WindowView {
                tree: after.tree,
                next_pane: after.next_pane,
                next_split: after.next_split,
                ..window
            }
        }),
{
    law_split_keeps_the_rest(
        window.tree,
        window.focused,
        axis,
        PaneId::numbered(window.next_pane),
        SplitId::numbered(window.next_split),
        size.content_bounds(),
        size.layout_metrics(),
    );
}

/// Laying out shows every pane of the tree once and in order, with the bars of its dividers between
/// them, and calls for a new frame. Nothing else changes.
pub proof fn law_layout_is_current(window: WindowView, size: SizeInfo)
    ensures
        ({
            let after = window.laid_out(size);
            &&& after.dirty
            &&& after.leaves.len() == window.tree.leaves().len()
            &&& forall|i: int|
                0 <= i < after.leaves.len() ==> (#[trigger] after.leaves[i]).id
                    == window.tree.leaves()[i]
            &&& after.bars.len() == window.tree.splits().len()
            &&& forall|i: int|
                0 <= i < after.bars.len() ==> (#[trigger] after.bars[i]).id
                    == window.tree.splits()[i]
            &&& after.leaves == after.tree.placed(size.content_bounds(), size.layout_metrics())
            &&& after.bars == after.tree.barred(size.content_bounds(), size.layout_metrics())
            &&& after == WindowView {
                leaves: after.leaves,
                bars: after.bars,
                dirty: true,
                ..window
            }
        }),
{
    law_geometry_follows_tree(window.tree, size.content_bounds(), size.layout_metrics());
}

/// The terminals that believe to have the focus once they have heard of some actions.
pub open spec fn believing(before: Set<u64>, actions: Seq<Action>) -> Set<u64>
    decreases actions.len(),
{
    if actions.len() == 0 {
        before
    } else {
        let earlier = believing(before, actions.drop_last());
        match actions.last() {
            Action::FocusTerminal { id, focused: true } => earlier.insert(id.raw()),
            Action::FocusTerminal { id, focused: false } => earlier.remove(id.raw()),
            Action::DropPane(id) => earlier.remove(id.raw()),
            _ => earlier,
        }
    }
}

/// The focused terminal, where there is one.
pub open spec fn focused_terminals(window: WindowView) -> Set<u64> {
    if window.has_pane(window.focused) {
        set![window.focused.raw()]
    } else {
        set![]
    }
}

/// The focus moves to every pane that has a terminal, and to no other; a move calls for a new
/// frame. Nothing else changes. The terminals hear of it so that the focused one, and no other,
/// believes to have the focus; where the focus stays, they hear nothing.
pub proof fn law_focus_moves_to_terminals(window: WindowView, id: PaneId)
    ensures
        ({
            let after = window.with_focus(id);
            &&& window.has_pane(id) ==> after.focused == id
            &&& !window.has_pane(id) ==> after.focused == window.focused
            &&& after.focused == window.focused ==> after == window && window.focus_actions(
                id,
            ).len() == 0
            &&& after.focused != window.focused ==> after.dirty
            &&& after == WindowView { focused: after.focused, dirty: after.dirty, ..window }
            &&& believing(focused_terminals(window), window.focus_actions(id))
                == focused_terminals(after)
            &&& window.focus_actions(id).len() <= 2
            &&& forall|i: int|
                0 <= i < window.focus_actions(id).len() ==> (#[trigger] window.focus_actions(
                    id,
                )[i]) is FocusTerminal
        }),
{
    lemma_numbered();
    let before = focused_terminals(window);
    let actions = window.focus_actions(id);
    reveal_with_fuel(believing, 3);
    if actions.len() == 2 {
        assert(actions.drop_last() =~= seq![actions[0]]);
        assert(actions.drop_last().drop_last() =~= seq![]);
        assert(before.remove(window.focused.raw()).insert(id.raw()) =~= set![id.raw()]);
    } else if actions.len() == 1 {
        assert(actions.drop_last() =~= seq![]);
        assert(before.insert(id.raw()) =~= set![id.raw()]);
    }
}

/// A new terminal gets the focus: its pane has it, with the size that it was given, the others keep
/// theirs, all is laid out anew, and the terminals hear of the focus.
pub proof fn law_new_terminal_gets_the_focus(
    window: WindowView,
    id: PaneId,
    pane: PaneSize,
    size: SizeInfo,
    other: PaneId,
)
    ensures
        ({
            let after = window.with_terminal(id, pane, size);
            &&& after.focused == id
            &&& after.has_pane(id) && after.panes[id.raw()] == pane
            &&& other != id ==> after.has_pane(other) == window.has_pane(other)
            &&& other != id && window.has_pane(other) ==> after.panes[other.raw()]
                == window.panes[other.raw()]
            &&& after.dirty
            &&& after.leaves == window.tree.placed(size.content_bounds(), size.layout_metrics())
            &&& after.bars == window.tree.barred(size.content_bounds(), size.layout_metrics())
            &&& after == WindowView {
                panes: after.panes,
                focused: id,
                dirty: true,
                leaves: after.leaves,
                bars: after.bars,
                ..window
            }
        }),
{
    lemma_numbered();
}

/// Closing one of several panes drops it and its terminal, and moves the focus to the first pane of
/// the other part of its split, whose terminal hears of it. A drag is over, and all is laid out
/// anew. Where the pane had the focus, the focused terminal, and no other, believes to have it
/// afterwards.
pub proof fn law_close_moves_the_focus(window: WindowView, id: PaneId, size: SizeInfo)
    requires
        window.well_formed(),
        window.tree.without(id) is Some,
    ensures
        ({
            let after = window.without_pane(id, size);
            let actions = window.close_actions(id);
            let (bounds, metrics) = (size.content_bounds(), size.layout_metrics());
            &&& !after.has_pane(id)
            &&& after.split_drag is None
            &&& after.dirty
            &&& after.leaves == after.tree.placed(bounds, metrics)
            &&& after.bars == after.tree.barred(bounds, metrics)
            &&& window.tree.find(Wanted::ParentOf(id), bounds, metrics) matches Some(place) && {
                &&& window.tree.leaves()[place.start] != id ==> after.focused
                    == window.tree.leaves()[place.start]
                &&& window.tree.leaves()[place.start] == id ==> after.focused
                    == window.tree.leaves()[place.start + 1]
            }
            &&& window.focused == id ==> believing(focused_terminals(window), actions)
                == focused_terminals(after)
            &&& after == WindowView {
                tree: after.tree,
                panes: window.panes.remove(id.raw()),
                focused: after.focused,
                split_drag: None,
                dirty: true,
                leaves: after.leaves,
                bars: after.bars,
                ..window
            }
        }),
{
    let actions = window.close_actions(id);
    lemma_numbered();
    law_close_focuses_the_sibling(
        window.tree,
        id,
        size.content_bounds(),
        size.layout_metrics(),
    );
    if window.focused == id {
        let before = focused_terminals(window);
        reveal_with_fuel(believing, 4);
        assert(before.remove(id.raw()) =~= set![]);
        if actions.len() == 3 {
            assert(actions.drop_last() =~= seq![actions[0], actions[1]]);
            assert(actions.drop_last().drop_last() =~= seq![actions[0]]);
            assert(actions.drop_last().drop_last().drop_last() =~= seq![]);
        } else {
            assert(actions.drop_last() =~= seq![actions[0]]);
            assert(actions.drop_last().drop_last() =~= seq![]);
        }
    }
}

/// Closing any pane of several drops that pane first and fits the terminals last; the terminal that
/// gets the focus hears of it. A pane that the layout cannot close stays, and nothing happens.
pub proof fn law_close_tells_the_new_focus(window: WindowView, id: PaneId, size: SizeInfo)
    ensures
        ({
            let after = window.without_pane(id, size);
            let actions = window.close_actions(id);
            &&& window.tree.without(id) is None ==> after == window && actions.len() == 0
            &&& window.tree.without(id) is Some ==> {
                &&& actions.first() == Action::DropPane(id)
                &&& actions.last() is ResizePanes
                &&& after.has_pane(after.focused) ==> actions.len() == 3 && actions[1]
                    == (Action::FocusTerminal { id: after.focused, focused: true })
                &&& !after.has_pane(after.focused) ==> actions.len() == 2
            }
        }),
{
}

/// Whether an action shows the mouse cursor for a bar: one that points left and right over a bar
/// between left and right, and one that points up and down over a bar between top and bottom.
pub open spec fn shows_resize_cursor(action: Action, axis: Axis) -> bool {
    &&& axis == Axis::Vertical ==> action == Action::SetMouseCursor(CursorIcon::ColResize)
    &&& axis == Axis::Horizontal ==> action == Action::SetMouseCursor(CursorIcon::RowResize)
}

/// Whether a pixel is the one nearest to a coordinate, among so many.
pub open spec fn is_nearest_pixel(pixel: usize, coordinate: i32, count: i32) -> bool {
    &&& pixel < count
    &&& 0 <= coordinate < count ==> pixel == coordinate
    &&& coordinate < 0 ==> pixel == 0
    &&& coordinate >= count ==> pixel == count - 1
}

/// A move of the mouse keeps its position to the nearest pixel of the window, and its button.
pub proof fn law_mouse_stays_in_the_window(window: WindowView, x: i32, y: i32, size: SizeInfo)
    requires
        size.width.to_i32() >= 1,
        size.height.to_i32() >= 1,
    ensures
        ({
            let mouse = window.after_move(x, y, size).0.mouse;
            &&& is_nearest_pixel(mouse.x, x, size.width.to_i32())
            &&& is_nearest_pixel(mouse.y, y, size.height.to_i32())
            &&& mouse == Mouse { x: mouse.x, y: mouse.y, ..window.mouse }
        }),
{
}

/// Without a drag, a move of the mouse changes nothing but its position. It is consumed exactly
/// where it ends over a bar, which then shows its cursor; nothing else is asked for.
pub proof fn law_move_over_a_bar(window: WindowView, x: i32, y: i32, size: SizeInfo)
    requires
        window.split_drag is None,
    ensures
        ({
            let (after, actions, consumed) = window.after_move(x, y, size);
            let hit = window.tree.hit(
                size.content_bounds(),
                size.layout_metrics(),
                Single::from_i32(x),
                Single::from_i32(y),
            );
            &&& after == WindowView { mouse: after.mouse, ..window }
            &&& consumed <==> hit is Some && hit->0 is Bar
            &&& hit matches Some(Hit::Bar { axis, .. }) ==> actions.len() == 1
                && shows_resize_cursor(actions[0], axis)
            &&& !consumed ==> actions.len() == 0
        }),
{
}

/// A move of the mouse takes the divider that is being dragged to it. Where that changes the tree,
/// all is laid out anew and the terminals are fitted; where it does not, nothing but the position
/// of the mouse changes. The cursor of the bar is shown last, the move is consumed, and the drag
/// goes on.
pub proof fn law_move_drags_the_divider(
    window: WindowView,
    x: i32,
    y: i32,
    size: SizeInfo,
    drag: SplitDrag,
)
    requires
        window.split_drag == Some(drag),
    ensures
        ({
            let (after, actions, consumed) = window.after_move(x, y, size);
            let (bounds, metrics) = (size.content_bounds(), size.layout_metrics());
            let (tree, changed) = window.tree.dragged(
                drag.id,
                bounds,
                metrics,
                Single::from_i32(x),
                Single::from_i32(y),
            );
            &&& consumed
            &&& actions.len() >= 1 && shows_resize_cursor(actions.last(), drag.axis)
            &&& changed ==> {
                &&& after.tree == tree
                &&& after.leaves == tree.placed(bounds, metrics)
                &&& after.bars == tree.barred(bounds, metrics)
                &&& after.dirty
                &&& actions.len() == 2 && actions[0] is ResizePanes
                &&& after == WindowView {
                    tree,
                    leaves: after.leaves,
                    bars: after.bars,
                    dirty: true,
                    mouse: after.mouse,
                    ..window
                }
            }
            &&& !changed ==> actions.len() == 1 && after == (WindowView {
                mouse: after.mouse,
                ..window
            })
        }),
{
}

/// A press of the left button is noted. On a bar it starts the drag of that bar's divider, along
/// that bar's axis, shows its cursor and is consumed. On a pane with a terminal it gives it the
/// focus. Nothing else changes, and only a press on a bar is consumed.
pub proof fn law_press_drags_or_focuses(window: WindowView, size: SizeInfo)
    ensures
        ({
            let (after, actions, consumed) = window.after_left_button(ElementState::Pressed, size);
            let hit = window.tree.hit(
                size.content_bounds(),
                size.layout_metrics(),
                Single::from_usize(window.mouse.x),
                Single::from_usize(window.mouse.y),
            );
            &&& after.mouse == Mouse { left_button_state: ElementState::Pressed, ..window.mouse }
            &&& match hit {
                Some(Hit::Bar { id, axis }) => {
                    &&& consumed
                    &&& after == WindowView {
                        mouse: after.mouse,
                        split_drag: Some(SplitDrag { id, axis }),
                        ..window
                    }
                    &&& actions.len() == 1 && shows_resize_cursor(actions[0], axis)
                },
                Some(Hit::Pane(id)) => {
                    &&& !consumed
                    &&& window.has_pane(id) ==> after.focused == id
                    &&& !window.has_pane(id) ==> after.focused == window.focused
                    &&& after.focused != window.focused ==> after.dirty
                    &&& after.focused == window.focused ==> after.dirty == window.dirty
                    &&& after == WindowView {
                        mouse: after.mouse,
                        focused: after.focused,
                        dirty: after.dirty,
                        ..window
                    }
                    &&& believing(focused_terminals(window), actions) == focused_terminals(after)
                },
                None => {
                    &&& !consumed
                    &&& after == WindowView { mouse: after.mouse, ..window }
                    &&& actions.len() == 0
                },
            }
        }),
{
    let pressed = WindowView {
        mouse: Mouse { left_button_state: ElementState::Pressed, ..window.mouse },
        ..window
    };
    if let Some(Hit::Pane(id)) = window.hit(
        size,
        Single::from_usize(window.mouse.x),
        Single::from_usize(window.mouse.y),
    ) {
        law_focus_moves_to_terminals(pressed, id);
        assert(focused_terminals(pressed) == focused_terminals(window));
    }
}

/// A press of the left button over a pane, where no bar is near, focuses the pane under the mouse;
/// one over a bar drags that bar.
pub proof fn law_press_lies_under_the_mouse(window: WindowView, size: SizeInfo)
    ensures
        ({
            let (after, _, consumed) = window.after_left_button(ElementState::Pressed, size);
            let (x, y) = (
                Single::from_usize(window.mouse.x),
                Single::from_usize(window.mouse.y),
            );
            let (bounds, metrics) = (size.content_bounds(), size.layout_metrics());
            let (leaves, bars) = (
                window.tree.placed(bounds, metrics),
                window.tree.barred(bounds, metrics),
            );
            &&& consumed ==> after.split_drag is Some && exists|i: int|
                0 <= i < bars.len() && (#[trigger] bars[i]).id == (after.split_drag->0).id
                    && bars[i].axis == (after.split_drag->0).axis && bars[i].rect.inflate(
                    metrics.hit_slop,
                ).contains(x, y)
            &&& after.focused != window.focused ==> exists|i: int|
                0 <= i < leaves.len() && (#[trigger] leaves[i]).id == after.focused
                    && leaves[i].rect.contains(x, y)
        }),
{
    let (x, y) = (Single::from_usize(window.mouse.x), Single::from_usize(window.mouse.y));
    let (bounds, metrics) = (size.content_bounds(), size.layout_metrics());
    let (leaves, bars) = (
        window.tree.placed(bounds, metrics),
        window.tree.barred(bounds, metrics),
    );
    law_hit_lies_under_the_point(window.tree, bounds, metrics, x, y);
    match window.tree.hit(bounds, metrics, x, y) {
        Some(Hit::Bar { id, axis }) => {
            let i = choose|i: int|
                0 <= i < bars.len() && (#[trigger] bars[i]).id == id && bars[i].axis == axis
                    && bar_holds(bars[i], metrics, x, y);
            assert(bars[i].rect.inflate(metrics.hit_slop).contains(x, y));
        },
        Some(Hit::Pane(id)) => {
            let i = choose|i: int|
                0 <= i < leaves.len() && (#[trigger] leaves[i]).id == id
                    && leaves[i].rect.contains(x, y);
            assert(leaves[i].id == id);
        },
        None => {},
    }
}

/// A release of the left button is noted. It ends a drag, after which all is laid out anew and the
/// terminals are fitted, and is then consumed; without a drag nothing else changes.
pub proof fn law_release_ends_the_drag(window: WindowView, size: SizeInfo)
    ensures
        ({
            let (after, actions, consumed) = window.after_left_button(
                ElementState::Released,
                size,
            );
            let (bounds, metrics) = (size.content_bounds(), size.layout_metrics());
            &&& after.mouse == Mouse { left_button_state: ElementState::Released, ..window.mouse }
            &&& after.split_drag is None
            &&& consumed <==> window.split_drag is Some
            &&& consumed ==> {
                &&& actions.len() == 1 && actions[0] is ResizePanes
                &&& after.dirty
                &&& after.leaves == window.tree.placed(bounds, metrics)
                &&& after.bars == window.tree.barred(bounds, metrics)
                &&& after == WindowView {
                    mouse: after.mouse,
                    split_drag: None,
                    dirty: true,
                    leaves: after.leaves,
                    bars: after.bars,
                    ..window
                }
            }
            &&& !consumed ==> actions.len() == 0 && after == (WindowView {
                mouse: after.mouse,
                ..window
            })
        }),
{
}

/// Moves of the mouse and its left button concern the panes and bars; every other event and button
/// changes nothing, asks for nothing and is not consumed.
pub proof fn law_other_events_change_nothing(
    window: WindowView,
    event: WindowEvent,
    size: SizeInfo,
)
    ensures
        match event {
            WindowEvent::CursorMoved { x, y } => window.after_event(event, size)
                == window.after_move(x, y, size),
            WindowEvent::MouseInput { state, button } => if button == MouseButton::Left {
                window.after_event(event, size) == window.after_left_button(state, size)
            } else {
                window.after_event(event, size) == (window, Seq::<Action>::empty(), false)
            },
            WindowEvent::Other => window.after_event(event, size) == (
                window,
                Seq::<Action>::empty(),
                false,
            ),
        },
{
}

/// The input goes to the focused pane as it is laid out, where it is and has a terminal, and
/// nowhere else.
pub proof fn law_input_goes_to_the_focused(window: WindowView)
    ensures
        match window.input_leaf() {
            Some(leaf) => {
                &&& leaf.id == window.focused
                &&& window.has_pane(window.focused)
                &&& window.leaves.contains(leaf)
            },
            None => !window.has_pane(window.focused) || forall|i: int|
                0 <= i < window.leaves.len() ==> (#[trigger] window.leaves[i]).id
                    != window.focused,
        },
{
    let focused = window.focused;
    lemma_first_where_found(window.leaves, |leaf: LeafGeometry| leaf.id == focused);
}

/// An event goes to the panes and bars exactly where they consume it, and otherwise to the focused
/// terminal: to that pane which has the focus after the event.
pub proof fn law_event_goes_to_one_target(window: WindowView, event: WindowEvent, size: SizeInfo)
    ensures
        ({
            let (after, _, consumed) = window.after_event(event, size);
            match window.target(event, size) {
                EventTarget::Layout => consumed,
                EventTarget::Terminal(leaf) => {
                    &&& !consumed
                    &&& leaf.id == after.focused
                    &&& after.has_pane(after.focused)
                    &&& after.leaves.contains(leaf)
                },
                EventTarget::Nothing => {
                    &&& !consumed
                    &&& !after.has_pane(after.focused) || forall|i: int|
                        0 <= i < after.leaves.len() ==> (#[trigger] after.leaves[i]).id
                            != after.focused
                },
            }
        }),
{
    law_input_goes_to_the_focused(window.after_event(event, size).0);
}

/// An action is carried out once: afterwards none is pending.
pub proof fn law_pending_op_runs_once(window: WindowView, size: SizeInfo)
    ensures
        window.after_pending_op(size).0.pending_pane_op is None,
        window.pending_pane_op is None ==> window.after_pending_op(size) == (
            window,
            Seq::<Action>::empty(),
        ),
{
}

/// The window is about to close exactly where it was already, where it is told to quit, or where
/// its last pane is closed; in the last two cases the focused terminal is asked to exit, and
/// nothing else changes.
pub proof fn law_window_closes_with_its_last_pane(window: WindowView, size: SizeInfo)
    ensures
        ({
            let (after, actions) = window.after_pending_op(size);
            let leaving = window.pending_pane_op == Some(PendingPaneOp::QuitWindow) || (
            window.pending_pane_op == Some(PendingPaneOp::Close) && window.tree == Node::Leaf(
                window.focused,
            ));
            &&& after.closing <==> window.closing || leaving
            &&& leaving ==> {
                &&& after == WindowView { closing: true, pending_pane_op: None, ..window }
                &&& window.has_pane(window.focused) ==> actions.len() == 1 && actions[0]
                    == Action::ExitTerminal(window.focused)
                &&& !window.has_pane(window.focused) ==> actions.len() == 0
            }
            &&& !leaving ==> forall|i: int|
                0 <= i < actions.len() ==> !((#[trigger] actions[i]) is ExitTerminal)
        }),
{
}

/// A pending split splits the focused pane along its axis; a pending close of one of several panes
/// closes the focused one; a pending move of the focus goes to the neighbor of the focused pane in
/// its direction where that has a terminal, and nowhere without a neighbor.
pub proof fn law_pending_op_is_the_one_asked_for(window: WindowView, size: SizeInfo)
    ensures
        ({
            let (after, actions) = window.after_pending_op(size);
            let (bounds, metrics) = (size.content_bounds(), size.layout_metrics());
            let idle = WindowView { pending_pane_op: None, ..window };
            match window.pending_pane_op {
                Some(PendingPaneOp::Split(axis)) => {
                    &&& after == WindowView { pending_pane_op: None, ..window.with_split(axis) }
                    &&& actions == window.split_actions(axis, size)
                },
                Some(PendingPaneOp::Close) => window.tree != Node::Leaf(window.focused) ==> {
                    &&& after == WindowView {
                        pending_pane_op: None,
                        ..window.without_pane(window.focused, size)
                    }
                    &&& actions == window.close_actions(window.focused)
                },
                Some(PendingPaneOp::Focus(direction)) => {
                    let found = window.tree.neighbor(bounds, metrics, window.focused, direction);
                    &&& found is None ==> after == idle && actions.len() == 0
                    &&& found matches Some(id) ==> {
                        &&& window.has_pane(id) ==> after.focused == id
                        &&& !window.has_pane(id) ==> after == idle
                        &&& after.focused != window.focused ==> after.dirty
                        &&& after == WindowView {
                            focused: after.focused,
                            dirty: after.dirty,
                            ..idle
                        }
                        &&& believing(focused_terminals(window), actions)
                            == focused_terminals(after)
                    }
                },
                Some(PendingPaneOp::QuitWindow) => after.closing,
                None => after == window,
            }
        }),
{
    let idle = WindowView { pending_pane_op: None, ..window };
    match window.pending_pane_op {
        Some(PendingPaneOp::Split(axis)) => {
            assert(idle.with_split(axis) =~= WindowView {
                pending_pane_op: None,
                ..window.with_split(axis)
            });
        },
        Some(PendingPaneOp::Focus(direction)) => {
            if let Some(id) = window.tree.neighbor(
                size.content_bounds(),
                size.layout_metrics(),
                window.focused,
                direction,
            ) {
                law_focus_moves_to_terminals(idle, id);
                assert(focused_terminals(idle) == focused_terminals(window));
            }
        },
        _ => {},
    }
}

/// The panes that are drawn are those that are laid out and have a terminal.
pub proof fn law_drawn_panes_have_a_terminal(window: WindowView, leaf: LeafGeometry)
    ensures
        window.drawn_leaves().contains(leaf) <==> window.leaves.contains(leaf) && window.has_pane(
            leaf.id,
        ),
{
    let panes = window.panes;
    let drawn = |leaf: LeafGeometry| panes.contains_key(leaf.id.raw());
    lemma_filtered(window.leaves, drawn, leaf);
}

/// A filter keeps the elements that it lets through, and no others.
proof fn lemma_filtered<A>(s: Seq<A>, keep: spec_fn(A) -> bool, x: A)
    ensures
        s.filter(keep).contains(x) <==> s.contains(x) && keep(x),
    decreases s.len(),
{
    reveal(Seq::filter);
    if s.len() > 0 {
        let front = s.drop_last();
        lemma_filtered(front, keep, x);
        assert(s =~= front + seq![s.last()]);
        lemma_contains_either(front, seq![s.last()], x);
        assert(seq![s.last()].contains(x) <==> x == s.last()) by {
            assert(seq![s.last()][0] == s.last());
        }
        if keep(s.last()) {
            assert(s.filter(keep) =~= front.filter(keep) + seq![s.last()]);
            lemma_contains_either(front.filter(keep), seq![s.last()], x);
        }
    }
}

/// Panes are drawn in the order in which they are laid out: those of the first places before those
/// of the others, and none twice.
pub proof fn law_panes_are_drawn_in_order(window: WindowView, count: int)
    requires
        0 <= count <= window.leaves.len(),
    ensures
        ({
            let front = WindowView { leaves: window.leaves.take(count), ..window };
            let back = WindowView { leaves: window.leaves.skip(count), ..window };
            &&& window.drawn_leaves() == front.drawn_leaves() + back.drawn_leaves()
            &&& window.drawn_leaves().len() <= window.leaves.len()
        }),
{
    let panes = window.panes;
    let drawn = |leaf: LeafGeometry| panes.contains_key(leaf.id.raw());
    let (a, b) = (window.leaves.take(count), window.leaves.skip(count));
    assert(window.leaves =~= a + b);
    Seq::filter_distributes_over_add(a, b, drawn);
    window.leaves.lemma_filter_len(drawn);
}

/// The content of a window of whole pixels lies inside its padding: it begins with it on the left
/// and at the top, and leaves as much on the right and at the bottom.
pub proof fn law_content_lies_inside_the_padding(size: SizeInfo)
    requires
        whole(size.width),
        whole(size.height),
        whole(size.padding_x),
        whole(size.padding_y),
        0 <= pixels(size.padding_x),
        0 <= pixels(size.padding_y),
        0 <= pixels(size.width) < exact_limit(),
        0 <= pixels(size.height) < exact_limit(),
        2 * pixels(size.padding_x) < exact_limit(),
        2 * pixels(size.padding_y) < exact_limit(),
    ensures
        ({
            let content = size.content_bounds();
            let inner = |extent: int, padding: int| if extent <= 2 * padding {
                0
            } else {
                extent - 2 * padding
            };
            &&& content.x == size.padding_x
            &&& content.y == size.padding_y
            &&& measures(
                content.width,
                inner(pixels(size.width), pixels(size.padding_x)),
            )
            &&& measures(
                content.height,
                inner(pixels(size.height), pixels(size.padding_y)),
            )
        }),
{
    lemma_inner(size.width, size.padding_x);
    lemma_inner(size.height, size.padding_y);
}

/// What padding on both sides leaves of an extent of whole pixels.
proof fn lemma_inner(extent: Single, padding: Single)
    requires
        whole(extent),
        whole(padding),
        0 <= pixels(extent) < exact_limit(),
        0 <= pixels(padding),
        2 * pixels(padding) < exact_limit(),
    ensures
        ({
            let inner = extent.minus(Single::from_bits(TWO).times(padding)).max(
                Single::from_bits(ZERO),
            );
            let (w, p) = (pixels(extent), pixels(padding));
            measures(
                inner,
                if w <= 2 * p {
                    0
                } else {
                    w - 2 * p
                },
            )
        }),
{
    let two = Single::from_bits(TWO);
    let zero = Single::from_bits(ZERO);
    let (w, p) = (pixels(extent), pixels(padding));
    lemma_constants();
    lemma_measure_product(two, 2, padding, p);
    lemma_measure_sum(extent, w, two.times(padding), 2 * p);
    lemma_measure_order(extent.minus(two.times(padding)), w - 2 * p, zero, 0);
}

/// A window's panes are measured in its own cells, its bars are as thick as a cell is wide, but at
/// least 4 pixels, and can be hit from 4 pixels away.
pub proof fn law_window_is_measured_in_its_cells(size: SizeInfo)
    requires
        whole(size.cell_width),
    ensures
        ({
            let metrics = size.layout_metrics();
            let thickness = pixels(metrics.bar_thickness);
            &&& metrics.cell_width == size.cell_width
            &&& metrics.cell_height == size.cell_height
            &&& thickness >= 4 && thickness >= pixels(size.cell_width)
            &&& thickness == 4 || thickness == pixels(size.cell_width)
            &&& measures(metrics.hit_slop, 4)
        }),
{
    law_metrics_of_cells(size.cell_width, size.cell_height);
}

/// A visible window draws a frame once: with the frame started, no redraw is wanted until something
/// changes. A hidden window starts no frame, and what was due stays due until it is shown. Nothing
/// else changes.
pub proof fn law_frame_is_drawn_once(window: WindowView, has_frame: bool, redraw_requested: bool)
    ensures
        ({
            let after = window.frame_started();
            &&& !after.wants_redraw(has_frame, redraw_requested)
            &&& window.occluded ==> after == window
            &&& !window.occluded ==> !after.dirty
            &&& window.dirty && window.occluded ==> (WindowView {
                occluded: false,
                ..after
            }).wants_redraw(true, false)
            &&& after == WindowView { dirty: after.dirty, ..window }
        }),
{
}

/// While the visual bell rings, a window without a frame is due to be drawn as soon as it has one;
/// once the bell is over, a frame leaves nothing to do.
pub proof fn law_bell_keeps_drawing(window: WindowView, has_frame: bool)
    ensures
        window.frame_drawn(true, has_frame) == window,
        !window.occluded ==> window.frame_drawn(false, false).wants_redraw(true, false),
        window.frame_drawn(false, true) == window,
{
}

/// A redraw is wanted only for a visible window that has a frame, and not twice; one that was laid
/// out anew, or whose focus has moved, wants it.
pub proof fn law_changes_are_drawn(
    window: WindowView,
    size: SizeInfo,
    id: PaneId,
    has_frame: bool,
    redraw_requested: bool,
)
    ensures
        window.occluded || !has_frame || redraw_requested ==> !window.wants_redraw(
            has_frame,
            redraw_requested,
        ),
        !window.occluded ==> window.laid_out(size).wants_redraw(true, false),
        !window.occluded && window.with_focus(id).focused != window.focused ==> window.with_focus(
            id,
        ).wants_redraw(true, false),
        window.wants_redraw(has_frame, redraw_requested) ==> window.dirty,
{
}

/// What the input may change is what it is shown: given back as it is, it changes nothing, and what
/// is given back is what is shown next. Nothing else changes.
pub proof fn law_input_state_is_kept(window: WindowView, state: InputState)
    ensures
        window.with_input_state(window.input_state()) == window,
        window.with_input_state(state).input_state() == state,
        ({
            let after = window.with_input_state(state);
            &&& after.closing == window.closing
            &&& after.preserve_title == window.preserve_title
            &&& after.panes == window.panes
            &&& after.tree == window.tree
            &&& after.next_pane == window.next_pane
            &&& after.next_split == window.next_split
            &&& after.leaves == window.leaves
            &&& after.bars == window.bars
            &&& after.focused == window.focused
            &&& after.split_drag == window.split_drag
        }),
{
}

/// A terminal that was fitted to a size has that size, and needs no further fit to it; it needed
/// one where its size was another. No terminal is added, the others keep their sizes, and nothing
/// else changes.
pub proof fn law_fit_settles(window: WindowView, id: PaneId, pane: PaneSize, other: PaneId)
    ensures
        ({
            let after = window.fitted(id, pane);
            &&& !after.needs_fit(id, pane)
            &&& after.has_pane(other) == window.has_pane(other)
            &&& after.has_pane(id) ==> after.panes[id.raw()] == pane
            &&& other != id && window.has_pane(other) ==> after.panes[other.raw()]
                == window.panes[other.raw()]
            &&& window.needs_fit(id, pane) <==> after.panes != window.panes
            &&& after == WindowView { panes: after.panes, ..window }
        }),
{
    lemma_numbered();
    let after = window.fitted(id, pane);
    if window.has_pane(id) {
        if window.panes[id.raw()] == pane {
            assert(after.panes =~= window.panes);
        } else {
            assert(after.panes[id.raw()] != window.panes[id.raw()]);
        }
    }
}

/// Hints that were updated need no update for the mouse; a change calls for a new frame, and no
/// other update does. Without a terminal there are no hints. Nothing else changes.
pub proof fn law_hints_settle(window: WindowView, changed: bool)
    ensures
        ({
            let after = window.hints_updated(changed);
            &&& !after.mouse.hint_highlight_dirty
            &&& after.dirty <==> window.dirty || changed
            &&& after.wants_hint_update() ==> after.dirty
            &&& after.mouse == Mouse { hint_highlight_dirty: false, ..window.mouse }
            &&& after == WindowView { dirty: after.dirty, mouse: after.mouse, ..window }
            &&& window.wants_hint_update() ==> window.has_pane(window.focused)
            &&& window.has_pane(window.focused) && window.mouse.hint_highlight_dirty
                ==> window.wants_hint_update()
            &&& window.has_pane(window.focused) && window.dirty ==> window.wants_hint_update()
        }),
{
}

/// Every pending action can be carried out, but for a split once a kind of numbers is used up.
pub proof fn law_pending_op_can_be_applied(window: WindowView)
    ensures
        !window.can_apply_pending_op() <==> window.pending_pane_op is Some
            && window.pending_pane_op->0 is Split && (window.next_pane == u64::MAX
            || window.next_split == u64::MAX),
{
}

/// Every event is taken but a move of the mouse, which a window takes exactly where it has a pixel
/// for the mouse to lie on, and where a divider that is being dragged has a ratio for every
/// pointer.
pub proof fn law_only_moves_need_room(window: WindowView, event: WindowEvent, size: SizeInfo)
    ensures
        !(event is CursorMoved) ==> window.takes_event(event, size),
        event is CursorMoved && window.split_drag is None ==> (window.takes_event(event, size)
            <==> size.width.to_i32() >= 1 && size.height.to_i32() >= 1),
        event is CursorMoved && window.takes_event(event, size) ==> size.width.to_i32() >= 1
            && size.height.to_i32() >= 1,
{
}

} // verus!
