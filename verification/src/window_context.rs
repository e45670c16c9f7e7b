//! What one window knows of its panes, and what it asks of the display and the terminals.

use crate::config_update::config_update;
use crate::config_update::spec_config_update;
use crate::config_update::ConfigUpdate;
use crate::config_update::FontChange;
use crate::config_update::WindowConfig;
use crate::laws::law_hit_names_a_part;
use crate::layout::first_where;
use crate::layout::law_close_stays_sound;
use crate::layout::law_drag_keeps_shape;
use crate::layout::law_one_divider_fewer;
use crate::layout::law_split_order;
use crate::layout::law_split_stays_sound;
use crate::layout::lemma_numbered;
use crate::layout::Axis;
use crate::layout::BarGeometry;
use crate::layout::FocusDirection;
use crate::layout::Hit;
use crate::layout::Layout;
use crate::layout::LayoutGeometry;
use crate::layout::LayoutMetrics;
use crate::layout::LeafGeometry;
use crate::layout::Node;
use crate::layout::PaneId;
use crate::layout::Rect;
use crate::layout::SplitId;
use crate::single::Single;
use crate::single::TWO;
use crate::single::ZERO;
use std::collections::HashMap;
use vstd::prelude::*;

verus! {

/// Pending layout action produced by a keybinding.
#[derive(Debug, Clone, Copy, PartialEq, Eq, Structural)]
pub enum PendingPaneOp {
    Split(Axis),
    Close,
    Focus(FocusDirection),
    QuitWindow,
}

/// Active split-bar drag.
#[derive(Debug, Clone, Copy, PartialEq, Eq, Structural)]
pub struct SplitDrag {
    pub id: SplitId,
    pub axis: Axis,
}

/// Size of a window in pixels: its extent, its cells, and its padding on each side.
#[derive(Debug, Clone, Copy)]
pub struct SizeInfo {
    pub width: Single,
    pub height: Single,
    pub cell_width: Single,
    pub cell_height: Single,
    pub padding_x: Single,
    pub padding_y: Single,
}

/// Size of a terminal in cells.
#[derive(Debug, Clone, Copy, PartialEq, Eq, Structural)]
pub struct PaneSize {
    pub columns: usize,
    pub screen_lines: usize,
}

/// Whether a mouse button is down.
#[derive(Debug, Clone, Copy, PartialEq, Eq, Structural)]
pub enum ElementState {
    Pressed,
    Released,
}

/// A mouse button.
#[derive(Debug, Clone, Copy, PartialEq, Eq, Structural)]
pub enum MouseButton {
    Left,
    Right,
    Middle,
    Back,
    Forward,
    Other(u16),
}

/// State of the mouse.
#[derive(Debug, Clone, Copy, PartialEq, Eq, Structural)]
pub struct Mouse {
    pub x: usize,
    pub y: usize,
    pub left_button_state: ElementState,
    pub hint_highlight_dirty: bool,
}

/// Mouse cursor over a split bar.
#[derive(Debug, Clone, Copy, PartialEq, Eq, Structural)]
pub enum CursorIcon {
    ColResize,
    RowResize,
}

/// What the window asks for, in order.
#[derive(Debug, Clone, Copy, PartialEq)]
pub enum Action {
    /// Drop a pane and its terminal.
    DropPane(PaneId),
    /// Tell the terminal of a pane whether it has the focus.
    FocusTerminal { id: PaneId, focused: bool },
    /// Fit the terminals of all panes to the new geometry.
    ResizePanes,
    /// Show a mouse cursor.
    SetMouseCursor(CursorIcon),
    /// Start the terminal of a new pane; it begins in the working directory of `parent`.
    SpawnPane { leaf: LeafGeometry, parent: Option<PaneId> },
    /// Ask the terminal of a pane to exit.
    ExitTerminal(PaneId),
}

/// An event that the panes and bars of the window may consume.
#[derive(Debug, Clone, Copy, PartialEq, Eq, Structural)]
pub enum WindowEvent {
    CursorMoved { x: i32, y: i32 },
    MouseInput { state: ElementState, button: MouseButton },
    Other,
}

/// What the terminal's input may change in the window.
#[derive(Debug, Clone, Copy, PartialEq, Eq, Structural)]
pub struct InputState {
    pub dirty: bool,
    pub occluded: bool,
    pub mouse: Mouse,
    pub pending_pane_op: Option<PendingPaneOp>,
}

/// Where an event goes.
#[derive(Debug, Clone, Copy, PartialEq)]
pub enum EventTarget {
    /// The panes and bars have consumed it.
    Layout,
    /// The terminal of a pane gets it.
    Terminal(LeafGeometry),
    /// Nothing gets it.
    Nothing,
}

impl SizeInfo {
    pub open spec fn spec_content_bounds(self) -> Rect {
        let two = Single::from_bits(TWO);
        Rect {
            x: self.padding_x,
            y: self.padding_y,
            width: self.width.minus(two.times(self.padding_x)).max(Single::from_bits(ZERO)),
            height: self.height.minus(two.times(self.padding_y)).max(Single::from_bits(ZERO)),
        }
    }

    pub open spec fn spec_layout_metrics(self) -> LayoutMetrics {
        LayoutMetrics::from_cell_size(self.cell_width, self.cell_height)
    }

    /// The part of the window inside its padding.
    #[verifier::when_used_as_spec(spec_content_bounds)]
    pub fn content_bounds(self) -> (bounds: Rect)
        ensures
            bounds == self.spec_content_bounds(),
    {
        let two = Single::from_bits(TWO);
        Rect {
            x: self.padding_x,
            y: self.padding_y,
            width: self.width.minus(two.times(self.padding_x)).max(Single::from_bits(ZERO)),
            height: self.height.minus(two.times(self.padding_y)).max(Single::from_bits(ZERO)),
        }
    }

    /// The metrics of the window's cells.
    #[verifier::when_used_as_spec(spec_layout_metrics)]
    pub fn layout_metrics(self) -> (metrics: LayoutMetrics)
        ensures
            metrics == self.spec_layout_metrics(),
    {
        LayoutMetrics::from_cell_size(self.cell_width, self.cell_height)
    }
}

pub open spec fn spec_resize_cursor(axis: Axis) -> CursorIcon {
    match axis {
        Axis::Vertical => CursorIcon::ColResize,
        Axis::Horizontal => CursorIcon::RowResize,
    }
}

/// The mouse cursor over a bar.
#[verifier::when_used_as_spec(spec_resize_cursor)]
pub fn resize_cursor(axis: Axis) -> (icon: CursorIcon)
    ensures
        icon == spec_resize_cursor(axis),
{
    match axis {
        Axis::Vertical => CursorIcon::ColResize,
        Axis::Horizontal => CursorIcon::RowResize,
    }
}

/// The pixel nearest to a coordinate among the first `count`.
pub open spec fn nearest_pixel(coordinate: i32, count: i32) -> usize {
    if coordinate < 0 {
        0
    } else if coordinate >= count {
        (count - 1) as usize
    } else {
        coordinate as usize
    }
}

fn clamp_to_pixels(coordinate: i32, count: i32) -> (pixel: usize)
    requires
        count >= 1,
    ensures
        pixel == nearest_pixel(coordinate, count),
{
    if coordinate < 0 {
        0
    } else if coordinate >= count {
        (count - 1) as usize
    } else {
        coordinate as usize
    }
}

/// What one frame shows.
#[derive(Debug, Clone, PartialEq)]
pub struct Frame {
    /// Whether another frame is due at once.
    pub request_redraw: bool,
    /// The panes to draw, in order.
    pub leaves: Vec<LeafGeometry>,
    /// The bars to draw over them, in order.
    pub bars: Vec<BarGeometry>,
}

/// The lines that a terminal leaves to the search bar and to messages.
pub fn reserved_lines(searching: bool, message_lines: Option<usize>) -> (lines: usize)
    requires
        searching ==> (message_lines matches Some(count) ==> count < usize::MAX),
    ensures
        lines == (if searching {
            1int
        } else {
            0
        }) + (match message_lines {
            Some(count) => count as int,
            None => 0,
        }),
{
    let search_lines: usize = if searching {
        1
    } else {
        0
    };
    match message_lines {
        Some(count) => search_lines + count,
        None => search_lines,
    }
}

/// What a window knows, as plain values.
#[verifier::ext_equal]
pub struct WindowView {
    pub dirty: bool,
    pub closing: bool,
    pub occluded: bool,
    pub mouse: Mouse,
    pub pending_pane_op: Option<PendingPaneOp>,
    pub preserve_title: bool,
    /// The size of each terminal, by the number of its pane.
    pub panes: Map<u64, PaneSize>,
    pub tree: Node,
    pub next_pane: u64,
    pub next_split: u64,
    /// The panes and bars as they were last laid out.
    pub leaves: Seq<LeafGeometry>,
    pub bars: Seq<BarGeometry>,
    pub focused: PaneId,
    pub split_drag: Option<SplitDrag>,
}

impl WindowView {
    /// Whether a pane has a terminal.
    pub open spec fn has_pane(self, id: PaneId) -> bool {
        self.panes.contains_key(id.raw())
    }

    /// The tree is sound, the focus and all terminals are in it, and so is a divider that is being
    /// dragged.
    pub open spec fn well_formed(self) -> bool {
        &&& self.tree.sound(self.next_pane, self.next_split)
        &&& self.tree.leaves().contains(self.focused)
        &&& forall|id: PaneId| #[trigger]
            self.panes.contains_key(id.raw()) ==> self.tree.leaves().contains(id)
        &&& self.split_drag matches Some(drag) ==> self.tree.splits().contains(drag.id)
    }

    /// The window with all panes and bars laid out anew.
    pub open spec fn laid_out(self, size: SizeInfo) -> WindowView {
        let bounds = size.content_bounds();
        let metrics = size.layout_metrics();
        WindowView {
            leaves: self.tree.placed(bounds, metrics),
            bars: self.tree.barred(bounds, metrics),
            dirty: true,
            ..self
        }
    }

    /// The window with the focus on a pane that has a terminal.
    pub open spec fn with_focus(self, id: PaneId) -> WindowView {
        if self.focused == id || !self.has_pane(id) {
            self
        } else {
            WindowView { focused: id, dirty: true, ..self }
        }
    }

    /// The terminals that hear of a new focus.
    pub open spec fn focus_actions(self, id: PaneId) -> Seq<Action> {
        if self.focused == id || !self.has_pane(id) {
            seq![]
        } else if self.has_pane(self.focused) {
            seq![
                Action::FocusTerminal { id: self.focused, focused: false },
                Action::FocusTerminal { id, focused: true },
            ]
        } else {
            seq![Action::FocusTerminal { id, focused: true }]
        }
    }

    /// The window without a pane; the same window where the layout cannot close it.
    pub open spec fn without_pane(self, id: PaneId, size: SizeInfo) -> WindowView {
        match self.tree.without(id) {
            Some((rest, focus)) => WindowView {
                tree: rest,
                panes: self.panes.remove(id.raw()),
                focused: focus,
                split_drag: None,
                ..self
            }.laid_out(size),
            None => self,
        }
    }

    /// The window whose focused pane is split.
    pub open spec fn with_split(self, axis: Axis) -> WindowView {
        WindowView {
            tree: self.tree.with_split(
                self.focused,
                axis,
                PaneId::numbered(self.next_pane),
                SplitId::numbered(self.next_split),
            ),
            next_pane: (self.next_pane + 1) as u64,
            next_split: (self.next_split + 1) as u64,
            ..self
        }
    }

    /// What splitting the focused pane asks for: a terminal for the new pane.
    pub open spec fn split_actions(self, axis: Axis, size: SizeInfo) -> Seq<Action> {
        let new_id = PaneId::numbered(self.next_pane);
        match first_where(
            self.with_split(axis).tree.placed(size.content_bounds(), size.layout_metrics()),
            |leaf: LeafGeometry| leaf.id == new_id,
        ) {
            Some(leaf) => seq![
                Action::SpawnPane {
                    leaf,
                    parent: if self.has_pane(self.focused) {
                        Some(self.focused)
                    } else {
                        None
                    },
                },
            ],
            None => seq![],
        }
    }

    /// The window with a terminal of the given size in a pane, and the focus on it.
    pub open spec fn with_terminal(self, id: PaneId, pane: PaneSize, size: SizeInfo) -> WindowView {
        WindowView { panes: self.panes.insert(id.raw(), pane), ..self }.with_focus(id).laid_out(
            size,
        )
    }

    /// What lies under a point of the window.
    pub open spec fn hit(self, size: SizeInfo, x: Single, y: Single) -> Option<Hit> {
        self.tree.hit(size.content_bounds(), size.layout_metrics(), x, y)
    }

    /// Whether the window can take an event: it has pixels for a pointer to lie on, and a divider
    /// that is being dragged has a ratio for every pointer.
    pub open spec fn takes_event(self, event: WindowEvent, size: SizeInfo) -> bool {
        event is CursorMoved ==> {
            &&& size.width.to_i32() >= 1
            &&& size.height.to_i32() >= 1
            &&& self.split_drag matches Some(drag) ==> self.tree.takes_drag(
                drag.id,
                size.content_bounds(),
                size.layout_metrics(),
            )
        }
    }

    /// The window whose mouse was moved to a point.
    pub open spec fn pointed(self, x: i32, y: i32, size: SizeInfo) -> WindowView {
        WindowView {
            mouse: Mouse {
                x: nearest_pixel(x, size.width.to_i32()),
                y: nearest_pixel(y, size.height.to_i32()),
                ..self.mouse
            },
            ..self
        }
    }

    /// The window, what it asks for, and whether the panes and bars consumed the event, after the
    /// mouse was moved: a divider that is being dragged follows it, and over a bar the mouse cursor
    /// changes.
    pub open spec fn after_move(self, x: i32, y: i32, size: SizeInfo) -> (
        WindowView,
        Seq<Action>,
        bool,
    ) {
        let (px, py) = (Single::from_i32(x), Single::from_i32(y));
        let window = self.pointed(x, y, size);
        match self.split_drag {
            Some(drag) => {
                let (tree, changed) = self.tree.dragged(
                    drag.id,
                    size.content_bounds(),
                    size.layout_metrics(),
                    px,
                    py,
                );
                let cursor = Action::SetMouseCursor(resize_cursor(drag.axis));
                if changed {
                    (
                        WindowView { tree, ..window }.laid_out(size),
                        seq![Action::ResizePanes, cursor],
                        true,
                    )
                } else {
                    (window, seq![cursor], true)
                }
            },
            None => match self.hit(size, px, py) {
                Some(Hit::Bar { axis, .. }) => (
                    window,
                    seq![Action::SetMouseCursor(resize_cursor(axis))],
                    true,
                ),
                _ => (window, seq![], false),
            },
        }
    }

    /// The window, what it asks for, and whether the panes and bars consumed the event, after the
    /// left mouse button was pressed or released: a press on a bar starts a drag, a press on a pane
    /// gives it the focus, and a release ends the drag.
    pub open spec fn after_left_button(self, state: ElementState, size: SizeInfo) -> (
        WindowView,
        Seq<Action>,
        bool,
    ) {
        let window = WindowView {
            mouse: Mouse { left_button_state: state, ..self.mouse },
            ..self
        };
        match state {
            ElementState::Released => match self.split_drag {
                Some(_) => (
                    WindowView { split_drag: None, ..window }.laid_out(size),
                    seq![Action::ResizePanes],
                    true,
                ),
                None => (window, seq![], false),
            },
            ElementState::Pressed => match self.hit(
                size,
                Single::from_usize(self.mouse.x),
                Single::from_usize(self.mouse.y),
            ) {
                Some(Hit::Bar { id, axis }) => (
                    WindowView { split_drag: Some(SplitDrag { id, axis }), ..window },
                    seq![Action::SetMouseCursor(resize_cursor(axis))],
                    true,
                ),
                Some(Hit::Pane(id)) => (window.with_focus(id), window.focus_actions(id), false),
                None => (window, seq![], false),
            },
        }
    }

    /// The window, what it asks for, and whether the panes and bars consumed it, after an event.
    pub open spec fn after_event(self, event: WindowEvent, size: SizeInfo) -> (
        WindowView,
        Seq<Action>,
        bool,
    ) {
        match event {
            WindowEvent::CursorMoved { x, y } => self.after_move(x, y, size),
            WindowEvent::MouseInput { state, button: MouseButton::Left } => self.after_left_button(
                state,
                size,
            ),
            _ => (self, seq![], false),
        }
    }

    /// Where an event goes: to the panes and bars first, and then to the focused terminal.
    pub open spec fn target(self, event: WindowEvent, size: SizeInfo) -> EventTarget {
        let (window, _, consumed) = self.after_event(event, size);
        if consumed {
            EventTarget::Layout
        } else {
            match window.input_leaf() {
                Some(leaf) => EventTarget::Terminal(leaf),
                None => EventTarget::Nothing,
            }
        }
    }

    /// What asking the focused terminal to exit asks for.
    pub open spec fn exit_actions(self) -> Seq<Action> {
        if self.has_pane(self.focused) {
            seq![Action::ExitTerminal(self.focused)]
        } else {
            seq![]
        }
    }

    /// Whether the pending action can be carried out: a split needs numbers for a pane and a
    /// divider.
    pub open spec fn can_apply_pending_op(self) -> bool {
        self.pending_pane_op matches Some(PendingPaneOp::Split(_)) ==> self.next_pane < u64::MAX
            && self.next_split < u64::MAX
    }

    /// The window and what it asks for after its pending action was carried out.
    pub open spec fn after_pending_op(self, size: SizeInfo) -> (WindowView, Seq<Action>) {
        let window = WindowView { pending_pane_op: None, ..self };
        let exiting = (WindowView { closing: true, ..window }, window.exit_actions());
        match self.pending_pane_op {
            Some(PendingPaneOp::Split(axis)) => (
                window.with_split(axis),
                window.split_actions(axis, size),
            ),
            Some(PendingPaneOp::Close) => if self.tree == Node::Leaf(self.focused) {
                exiting
            } else {
                (window.without_pane(self.focused, size), window.close_actions(self.focused))
            },
            Some(PendingPaneOp::Focus(direction)) => match self.tree.neighbor(
                size.content_bounds(),
                size.layout_metrics(),
                self.focused,
                direction,
            ) {
                Some(id) => (window.with_focus(id), window.focus_actions(id)),
                None => (window, seq![]),
            },
            Some(PendingPaneOp::QuitWindow) => exiting,
            None => (window, seq![]),
        }
    }

    /// What the terminal's input may change.
    pub open spec fn input_state(self) -> InputState {
        InputState {
            dirty: self.dirty,
            occluded: self.occluded,
            mouse: self.mouse,
            pending_pane_op: self.pending_pane_op,
        }
    }

    /// The window after the terminal's input has changed something.
    pub open spec fn with_input_state(self, state: InputState) -> WindowView {
        WindowView {
            dirty: state.dirty,
            occluded: state.occluded,
            mouse: state.mouse,
            pending_pane_op: state.pending_pane_op,
            ..self
        }
    }

    /// The window once it has started a frame; a hidden window starts none.
    pub open spec fn frame_started(self) -> WindowView {
        WindowView { dirty: self.dirty && self.occluded, ..self }
    }

    /// The window once it has drawn a frame. While the visual bell rings, another one is due.
    pub open spec fn frame_drawn(self, bell_completed: bool, has_frame: bool) -> WindowView {
        WindowView { dirty: self.dirty || (!bell_completed && !has_frame), ..self }
    }

    /// Whether a redraw has to be requested.
    pub open spec fn wants_redraw(self, has_frame: bool, redraw_requested: bool) -> bool {
        self.dirty && has_frame && !self.occluded && !redraw_requested
    }

    /// Whether the terminal of a pane has another size.
    pub open spec fn needs_fit(self, id: PaneId, pane: PaneSize) -> bool {
        self.has_pane(id) && self.panes[id.raw()] != pane
    }

    /// The window with a terminal fitted to a size.
    pub open spec fn fitted(self, id: PaneId, pane: PaneSize) -> WindowView {
        if self.has_pane(id) {
            WindowView { panes: self.panes.insert(id.raw(), pane), ..self }
        } else {
            self
        }
    }

    /// Whether the highlighted hints of the focused pane have to be updated.
    pub open spec fn wants_hint_update(self) -> bool {
        self.has_pane(self.focused) && (self.dirty || self.mouse.hint_highlight_dirty)
    }

    /// The window once its highlighted hints were updated.
    pub open spec fn hints_updated(self, changed: bool) -> WindowView {
        WindowView {
            dirty: self.dirty || changed,
            mouse: Mouse { hint_highlight_dirty: false, ..self.mouse },
            ..self
        }
    }

    /// The laid-out panes that have a terminal.
    pub open spec fn drawn_leaves(self) -> Seq<LeafGeometry> {
        let panes = self.panes;
        self.leaves.filter(|leaf: LeafGeometry| panes.contains_key(leaf.id.raw()))
    }

    /// The pane that gets the input: the focused one, where it is laid out and has a terminal.
    pub open spec fn input_leaf(self) -> Option<LeafGeometry> {
        let focused = self.focused;
        if self.has_pane(focused) {
            first_where(self.leaves, |leaf: LeafGeometry| leaf.id == focused)
        } else {
            None
        }
    }

    /// What closing a pane asks for.
    pub open spec fn close_actions(self, id: PaneId) -> Seq<Action> {
        match self.tree.without(id) {
            Some((_, focus)) => if self.panes.remove(id.raw()).contains_key(focus.raw()) {
                seq![
                    Action::DropPane(id),
                    Action::FocusTerminal { id: focus, focused: true },
                    Action::ResizePanes,
                ]
            } else {
                seq![Action::DropPane(id), Action::ResizePanes]
            },
            None => seq![],
        }
    }
}

/// A tree with a single pane is that pane.
pub proof fn lemma_only_pane(node: Node, id: PaneId)
    requires
        node.leaves().contains(id),
    ensures
        node is Leaf <==> node == Node::Leaf(id),
{
    if let Node::Leaf(own) = node {
        let i = choose|i: int| 0 <= i < node.leaves().len() && node.leaves()[i] == id;
        assert(node.leaves()[i] == own);
    }
}

/// A split keeps the window well-formed, and all its panes and dividers.
pub proof fn lemma_split_contains(window: WindowView, axis: Axis)
    requires
        window.well_formed(),
        window.next_pane < u64::MAX,
        window.next_split < u64::MAX,
    ensures
        window.with_split(axis).well_formed(),
        window.with_split(axis).tree.leaves().contains(PaneId::numbered(window.next_pane)),
{
    let node = window.tree;
    let focused = window.focused;
    let new_id = PaneId::numbered(window.next_pane);
    let split_id = SplitId::numbered(window.next_split);
    law_split_stays_sound(node, focused, axis, window.next_pane, window.next_split);
    law_one_divider_fewer(node);
    let at = choose|at: int| 0 <= at < node.leaves().len() && node.leaves()[at] == focused;
    law_split_order(node, focused, axis, new_id, split_id, at);
    lemma_insert_contains(node.leaves(), at + 1, new_id);
    lemma_insert_contains(node.splits(), at, split_id);
}

/// What a sequence holds after an insertion.
proof fn lemma_insert_contains<A>(s: Seq<A>, at: int, x: A)
    requires
        0 <= at <= s.len(),
    ensures
        forall|y: A| s.contains(y) ==> #[trigger] s.insert(at, x).contains(y),
        s.insert(at, x).contains(x),
{
    let t = s.insert(at, x);
    assert forall|y: A| s.contains(y) implies #[trigger] t.contains(y) by {
        let i = choose|i: int| 0 <= i < s.len() && s[i] == y;
        if i < at {
            assert(t[i] == y);
        } else {
            assert(t[i + 1] == y);
        }
    }
    assert(t[at] == x);
}

/// Event context for one individual window.
pub struct WindowContext {
    dirty: bool,
    closing: bool,
    occluded: bool,
    mouse: Mouse,
    pending_pane_op: Option<PendingPaneOp>,
    /// Whether the title was given for this window.
    preserve_title: bool,
    panes: HashMap<u64, PaneSize>,
    layout: Layout,
    geometry: LayoutGeometry,
    focused: PaneId,
    split_drag: Option<SplitDrag>,
}

impl View for WindowContext {
    type V = WindowView;

    closed spec fn view(&self) -> WindowView {
        WindowView {
            dirty: self.dirty,
            closing: self.closing,
            occluded: self.occluded,
            mouse: self.mouse,
            pending_pane_op: self.pending_pane_op,
            preserve_title: self.preserve_title,
            panes: self.panes@,
            tree: self.layout.tree(),
            next_pane: self.layout.next_pane(),
            next_split: self.layout.next_split(),
            leaves: self.geometry.leaves@,
            bars: self.geometry.bars@,
            focused: self.focused,
            split_drag: self.split_drag,
        }
    }
}

impl WindowContext {
    /// Lays all panes and bars out anew.
    pub fn relayout_panes(&mut self, size: SizeInfo, actions: &mut Vec<Action>)
        ensures
            final(self)@ == old(self)@.laid_out(size),
            final(actions)@ == old(actions)@.push(Action::ResizePanes),
            old(self)@.well_formed() ==> final(self)@.well_formed(),
    {
        self.geometry = self.layout.compute(size.content_bounds(), size.layout_metrics());
        self.dirty = true;
        actions.push(Action::ResizePanes);
    }

    /// Moves the focus to a pane that has a terminal.
    pub fn set_focused(&mut self, id: PaneId, actions: &mut Vec<Action>)
        ensures
            final(self)@ == old(self)@.with_focus(id),
            final(actions)@ == old(actions)@ + old(self)@.focus_actions(id),
            old(self)@.well_formed() ==> final(self)@.well_formed(),
    {
        broadcast use vstd::std_specs::hash::group_hash_axioms;

        if self.focused == id || !self.panes.contains_key(&id.raw()) {
            return;
        }
        if self.panes.contains_key(&self.focused.raw()) {
            actions.push(Action::FocusTerminal { id: self.focused, focused: false });
        }
        self.focused = id;
        actions.push(Action::FocusTerminal { id, focused: true });
        self.dirty = true;
    }

    /// A window with one pane, whose terminal has the given size and the focus.
    pub fn new(
        layout: Layout,
        pane_id: PaneId,
        pane: PaneSize,
        mouse: Mouse,
        preserve_title: bool,
        size: SizeInfo,
        actions: &mut Vec<Action>,
    ) -> (window: Self)
        requires
            layout.well_formed(),
            layout.tree() == Node::Leaf(pane_id),
        ensures
            window@ == (WindowView {
                dirty: false,
                closing: false,
                occluded: false,
                mouse,
                pending_pane_op: None,
                preserve_title,
                panes: map![pane_id.raw() => pane],
                tree: layout.tree(),
                next_pane: layout.next_pane(),
                next_split: layout.next_split(),
                leaves: seq![],
                bars: seq![],
                focused: pane_id,
                split_drag: None,
            }).laid_out(size),
            window@.well_formed(),
            final(actions)@ == old(actions)@ + seq![
                Action::FocusTerminal { id: pane_id, focused: true },
                Action::ResizePanes,
            ],
    {
        broadcast use vstd::std_specs::hash::group_hash_axioms;

        proof {
            lemma_numbered();
            assert(layout.tree().leaves()[0] == pane_id);
        }
        actions.push(Action::FocusTerminal { id: pane_id, focused: true });
        let mut panes: HashMap<u64, PaneSize> = HashMap::new();
        panes.insert(pane_id.raw(), pane);
        let mut window = Self {
            dirty: false,
            closing: false,
            occluded: false,
            mouse,
            pending_pane_op: None,
            preserve_title,
            panes,
            layout,
            geometry: LayoutGeometry { leaves: Vec::new(), bars: Vec::new() },
            focused: pane_id,
            split_drag: None,
        };
        proof {
            assert(window@.panes =~= map![pane_id.raw() => pane]);
            assert(window@.leaves =~= seq![]);
            assert(window@.bars =~= seq![]);
        }
        window.relayout_panes(size, actions);
        window
    }

    /// Splits the focused pane, and asks for the terminal of the new pane.
    pub fn split_focused(&mut self, axis: Axis, size: SizeInfo, actions: &mut Vec<Action>)
        requires
            old(self)@.well_formed(),
            old(self)@.next_pane < u64::MAX,
            old(self)@.next_split < u64::MAX,
        ensures
            final(self)@ == old(self)@.with_split(axis),
            final(actions)@ == old(actions)@ + old(self)@.split_actions(axis, size),
            final(self)@.well_formed(),
    {
        broadcast use vstd::std_specs::hash::group_hash_axioms;

        let focused = self.focused;
        proof {
            lemma_split_contains(self@, axis);
        }
        let new_id = match self.layout.split(focused, axis) {
            Some(id) => id,
            None => {
                return;
            },
        };
        let geometry = self.layout.compute(size.content_bounds(), size.layout_metrics());
        let parent = if self.panes.contains_key(&focused.raw()) {
            Some(focused)
        } else {
            None
        };
        if let Some(leaf) = geometry.leaf(new_id) {
            actions.push(Action::SpawnPane { leaf: *leaf, parent });
        }
    }

    /// Takes up the terminal of a new pane, moves the focus to it, and lays out anew.
    pub fn pane_spawned(
        &mut self,
        id: PaneId,
        pane: PaneSize,
        size: SizeInfo,
        actions: &mut Vec<Action>,
    )
        ensures
            final(self)@ == old(self)@.with_terminal(id, pane, size),
            final(actions)@ == old(actions)@ + (WindowView {
                panes: old(self)@.panes.insert(id.raw(), pane),
                ..old(self)@
            }).focus_actions(id).push(Action::ResizePanes),
            old(self)@.well_formed() && old(self)@.tree.leaves().contains(id)
                ==> final(self)@.well_formed(),
    {
        broadcast use vstd::std_specs::hash::group_hash_axioms;

        proof {
            lemma_numbered();
        }
        self.panes.insert(id.raw(), pane);
        self.set_focused(id, actions);
        self.relayout_panes(size, actions);
    }

    /// Close a pane. Returns `true` if the window still has remaining panes.
    pub fn close_pane(
        &mut self,
        pane_id: Option<PaneId>,
        size: SizeInfo,
        actions: &mut Vec<Action>,
    ) -> (remaining: bool)
        requires
            old(self)@.well_formed(),
        ensures
            ({
                let id = match pane_id {
                    Some(id) => id,
                    None => old(self)@.focused,
                };
                &&& final(self)@ == old(self)@.without_pane(id, size)
                &&& final(actions)@ == old(actions)@ + old(self)@.close_actions(id)
                &&& remaining == (old(self)@.tree != Node::Leaf(id))
            }),
            final(self)@.well_formed(),
    {
        broadcast use vstd::std_specs::hash::group_hash_axioms;

        let id = match pane_id {
            Some(id) => id,
            None => self.focused,
        };
        proof {
            law_close_stays_sound(self@.tree, id, self@.next_pane, self@.next_split);
            lemma_only_pane(self@.tree, self@.focused);
            lemma_numbered();
        }
        let last: bool = self.layout.is_single_pane();
        match self.layout.close(id) {
            Some(focus) => {
                self.panes.remove(&id.raw());
                self.focused = focus;
                self.split_drag = None;
                actions.push(Action::DropPane(id));
                if self.panes.contains_key(&focus.raw()) {
                    actions.push(Action::FocusTerminal { id: focus, focused: true });
                }
                self.relayout_panes(size, actions);
                true
            },
            None => !(last && id == self.focused),
        }
    }

    /// Whether the window can take an event.
    pub fn can_take(&self, event: WindowEvent, size: SizeInfo) -> (answer: bool)
        ensures
            answer == self@.takes_event(event, size),
    {
        match event {
            WindowEvent::CursorMoved { .. } => {
                if size.width.to_i32() < 1 || size.height.to_i32() < 1 {
                    return false;
                }
                match self.split_drag {
                    Some(drag) => self.layout.can_drag(
                        drag.id,
                        size.content_bounds(),
                        size.layout_metrics(),
                    ),
                    None => true,
                }
            },
            _ => true,
        }
    }

    /// Lets the panes and bars have an event. Returns `true` if they consumed it.
    pub fn consume_layout_event(
        &mut self,
        event: WindowEvent,
        size: SizeInfo,
        actions: &mut Vec<Action>,
    ) -> (consumed: bool)
        requires
            old(self)@.well_formed(),
            old(self)@.takes_event(event, size),
        ensures
            (final(self)@, consumed) == (
                old(self)@.after_event(event, size).0,
                old(self)@.after_event(event, size).2,
            ),
            final(actions)@ == old(actions)@ + old(self)@.after_event(event, size).1,
            final(self)@.well_formed(),
    {
        match event {
            WindowEvent::CursorMoved { x, y } => {
                self.mouse.x = clamp_to_pixels(x, size.width.to_i32());
                self.mouse.y = clamp_to_pixels(y, size.height.to_i32());
                let bounds = size.content_bounds();
                let metrics = size.layout_metrics();
                let (px, py) = (Single::from_i32(x), Single::from_i32(y));
                if let Some(drag) = self.split_drag {
                    proof {
                        law_drag_keeps_shape(self@.tree, drag.id, bounds, metrics, px, py);
                    }
                    if self.layout.drag_split(drag.id, bounds, metrics, px, py) {
                        self.relayout_panes(size, actions);
                    }
                    actions.push(Action::SetMouseCursor(resize_cursor(drag.axis)));
                    return true;
                }
                match self.layout.hit_test(bounds, metrics, px, py) {
                    Some(Hit::Bar { axis, .. }) => {
                        actions.push(Action::SetMouseCursor(resize_cursor(axis)));
                        true
                    },
                    _ => false,
                }
            },
            WindowEvent::MouseInput { state, button } => {
                if button != MouseButton::Left {
                    return false;
                }
                self.mouse.left_button_state = state;
                if state == ElementState::Released {
                    if self.split_drag.is_some() {
                        self.split_drag = None;
                        self.relayout_panes(size, actions);
                        return true;
                    }
                    return false;
                }
                let px: Single = Single::from_usize(self.mouse.x);
                let py: Single = Single::from_usize(self.mouse.y);
                let bounds = size.content_bounds();
                let metrics = size.layout_metrics();
                proof {
                    law_hit_names_a_part(self@.tree, bounds, metrics, px, py);
                }
                match self.layout.hit_test(bounds, metrics, px, py) {
                    Some(Hit::Bar { id, axis }) => {
                        self.split_drag = Some(SplitDrag { id, axis });
                        actions.push(Action::SetMouseCursor(resize_cursor(axis)));
                        true
                    },
                    Some(Hit::Pane(id)) => {
                        self.set_focused(id, actions);
                        false
                    },
                    None => false,
                }
            },
            WindowEvent::Other => false,
        }
    }

    /// Lets the panes and bars have an event, and says where it goes. Once the terminal has had it,
    /// [`Self::after_input`] and [`Self::wants_hint_update`] follow; unless the panes and bars
    /// consumed it, [`Self::apply_pending_op`] comes last.
    pub fn dispatch(
        &mut self,
        event: WindowEvent,
        size: SizeInfo,
        actions: &mut Vec<Action>,
    ) -> (target: EventTarget)
        requires
            old(self)@.well_formed(),
            old(self)@.takes_event(event, size),
        ensures
            target == old(self)@.target(event, size),
            final(self)@ == old(self)@.after_event(event, size).0,
            final(actions)@ == old(actions)@ + old(self)@.after_event(event, size).1,
            final(self)@.well_formed(),
    {
        if self.consume_layout_event(event, size, actions) {
            return EventTarget::Layout;
        }
        match self.input_leaf() {
            Some(leaf) => EventTarget::Terminal(leaf),
            None => EventTarget::Nothing,
        }
    }

    /// Whether the pending action can be carried out: a split needs numbers for a pane and a
    /// divider.
    pub fn can_apply_pending_op(&self) -> (answer: bool)
        ensures
            answer == self@.can_apply_pending_op(),
    {
        match self.pending_pane_op {
            Some(PendingPaneOp::Split(_)) => self.layout.can_split(),
            _ => true,
        }
    }

    /// Carries the pending action out.
    pub fn apply_pending_op(&mut self, size: SizeInfo, actions: &mut Vec<Action>)
        requires
            old(self)@.well_formed(),
            old(self)@.can_apply_pending_op(),
        ensures
            final(self)@ == old(self)@.after_pending_op(size).0,
            final(actions)@ == old(actions)@ + old(self)@.after_pending_op(size).1,
            final(self)@.well_formed(),
    {
        let pending = self.pending_pane_op;
        self.pending_pane_op = None;
        proof {
            assert(self@ =~= (WindowView { pending_pane_op: None, ..old(self)@ }));
            assert(self@.well_formed());
        }
        match pending {
            Some(PendingPaneOp::Split(axis)) => {
                self.split_focused(axis, size, actions);
            },
            Some(PendingPaneOp::Close) => {
                let focused = self.focused;
                if !self.close_pane(Some(focused), size, actions) {
                    self.closing = true;
                    self.exit_focused(actions);
                }
            },
            Some(PendingPaneOp::Focus(direction)) => {
                if let Some(id) = self.layout.neighbor(
                    size.content_bounds(),
                    size.layout_metrics(),
                    self.focused,
                    direction,
                ) {
                    self.set_focused(id, actions);
                }
            },
            Some(PendingPaneOp::QuitWindow) => {
                self.closing = true;
                self.exit_focused(actions);
            },
            None => {},
        }
    }

    /// Asks the focused terminal to exit.
    fn exit_focused(&self, actions: &mut Vec<Action>)
        ensures
            final(actions)@ == old(actions)@ + self@.exit_actions(),
    {
        broadcast use vstd::std_specs::hash::group_hash_axioms;

        if self.panes.contains_key(&self.focused.raw()) {
            actions.push(Action::ExitTerminal(self.focused));
        }
    }

    /// The laid-out panes that have a terminal.
    pub fn drawn_leaves(&self) -> (leaves: Vec<LeafGeometry>)
        ensures
            leaves@ == self@.drawn_leaves(),
    {
        broadcast use vstd::std_specs::hash::group_hash_axioms;

        let ghost all = self@.leaves;
        let ghost panes = self@.panes;
        let ghost has_terminal = |leaf: LeafGeometry| panes.contains_key(leaf.id.raw());
        let mut leaves: Vec<LeafGeometry> = Vec::new();
        let mut i: usize = 0;
        proof {
            reveal(Seq::filter);
            assert(all.take(0) =~= seq![]);
        }
        while i < self.geometry.leaves.len()
            invariant
                i <= self.geometry.leaves.len(),
                all == self.geometry.leaves@,
                panes == self.panes@,
                has_terminal == (|leaf: LeafGeometry| panes.contains_key(leaf.id.raw())),
                leaves@ == all.take(i as int).filter(has_terminal),
            decreases self.geometry.leaves.len() - i,
        {
            let leaf = self.geometry.leaves[i];
            proof {
                reveal(Seq::filter);
                assert(all.take(i + 1).drop_last() =~= all.take(i as int));
            }
            if self.panes.contains_key(&leaf.id.raw()) {
                leaves.push(leaf);
            }
            i = i + 1;
        }
        proof {
            assert(all.take(i as int) =~= all);
        }
        leaves
    }

    /// Takes up the size to which the terminal of a pane was fitted. Returns `true` if the terminal
    /// has to be resized.
    pub fn fit_pane(&mut self, id: PaneId, pane: PaneSize) -> (resize: bool)
        ensures
            resize == (old(self)@.has_pane(id) && old(self)@.panes[id.raw()] != pane),
            final(self)@ == if old(self)@.has_pane(id) {
                WindowView { panes: old(self)@.panes.insert(id.raw(), pane), ..old(self)@ }
            } else {
                old(self)@
            },
            resize == old(self)@.needs_fit(id, pane),
            final(self)@ == old(self)@.fitted(id, pane),
            old(self)@.well_formed() ==> final(self)@.well_formed(),
    {
        broadcast use vstd::std_specs::hash::group_hash_axioms;

        let resize: bool = match self.panes.get(&id.raw()) {
            Some(current) => current.screen_lines != pane.screen_lines || current.columns
                != pane.columns,
            None => return false,
        };
        proof {
            lemma_numbered();
        }
        self.panes.insert(id.raw(), pane);
        resize
    }

    /// Starts a frame. Returns `false` if the window is hidden and draws nothing.
    pub fn start_frame(&mut self) -> (drawing: bool)
        ensures
            drawing == !old(self)@.occluded,
            final(self)@ == (WindowView {
                dirty: old(self)@.dirty && old(self)@.occluded,
                ..old(self)@
            }),
            final(self)@ == old(self)@.frame_started(),
            old(self)@.well_formed() ==> final(self)@.well_formed(),
    {
        if self.occluded {
            return false;
        }
        self.dirty = false;
        true
    }

    /// What a frame shows. While the visual bell rings, another frame follows: at once if the
    /// window has a frame, and otherwise as soon as it has one.
    pub fn draw(&mut self, bell_completed: bool, has_frame: bool) -> (frame: Frame)
        ensures
            frame.request_redraw == (!bell_completed && has_frame),
            frame.leaves@ == old(self)@.drawn_leaves(),
            frame.bars@ == old(self)@.bars,
            final(self)@ == (WindowView {
                dirty: old(self)@.dirty || (!bell_completed && !has_frame),
                ..old(self)@
            }),
            final(self)@ == old(self)@.frame_drawn(bell_completed, has_frame),
            frame.request_redraw || final(self)@.dirty || bell_completed,
            old(self)@.well_formed() ==> final(self)@.well_formed(),
    {
        if !bell_completed && !has_frame {
            self.dirty = true;
        }
        let leaves: Vec<LeafGeometry> = self.drawn_leaves();
        let mut bars: Vec<BarGeometry> = Vec::new();
        let mut i: usize = 0;
        while i < self.geometry.bars.len()
            invariant
                i <= self.geometry.bars.len(),
                bars@ == self.geometry.bars@.take(i as int),
            decreases self.geometry.bars.len() - i,
        {
            bars.push(self.geometry.bars[i]);
            i = i + 1;
            proof {
                assert(self.geometry.bars@.take(i - 1).push(self.geometry.bars@[i - 1])
                    =~= self.geometry.bars@.take(i as int));
            }
        }
        proof {
            assert(bars@ =~= self.geometry.bars@);
        }
        Frame { request_redraw: !bell_completed && has_frame, leaves, bars }
    }

    /// Whether a redraw has to be requested after events were handled; one that has just been
    /// requested is not requested again.
    pub fn wants_redraw(&self, has_frame: bool, redraw_requested: bool) -> (redraw: bool)
        ensures
            redraw == (self@.dirty && has_frame && !self@.occluded && !redraw_requested),
            redraw == self@.wants_redraw(has_frame, redraw_requested),
    {
        self.dirty && has_frame && !self.occluded && !redraw_requested
    }

    /// Whether a redraw has to be requested after so many events were handled; none is where
    /// nothing was waiting.
    pub fn redraw_after(&self, handled: usize, has_frame: bool, redraw_requested: bool) -> (redraw:
        bool)
        ensures
            redraw == (handled > 0 && self@.dirty && has_frame && !self@.occluded
                && !redraw_requested),
            redraw == (handled > 0 && self@.wants_redraw(has_frame, redraw_requested)),
    {
        handled > 0 && self.wants_redraw(has_frame, redraw_requested)
    }

    /// The pane that gets the input.
    pub fn input_leaf(&self) -> (leaf: Option<LeafGeometry>)
        ensures
            leaf == self@.input_leaf(),
    {
        broadcast use vstd::std_specs::hash::group_hash_axioms;

        let leaf = match self.geometry.leaf(self.focused) {
            Some(leaf) => *leaf,
            None => return None,
        };
        if self.panes.contains_key(&self.focused.raw()) {
            Some(leaf)
        } else {
            None
        }
    }

    /// Lays out anew after an input if the display was updated, or if a search was started or
    /// ended.
    pub fn after_input(
        &mut self,
        display_updated: bool,
        was_searching: bool,
        is_searching: bool,
        size: SizeInfo,
        actions: &mut Vec<Action>,
    )
        ensures
            ({
                let searching = is_searching && old(self)@.has_pane(old(self)@.focused);
                if display_updated || was_searching != searching {
                    &&& final(self)@ == old(self)@.laid_out(size)
                    &&& final(actions)@ == old(actions)@.push(Action::ResizePanes)
                } else {
                    &&& final(self)@ == old(self)@
                    &&& final(actions)@ == old(actions)@
                }
            }),
            display_updated ==> final(self)@ == old(self)@.laid_out(size),
            was_searching && (!is_searching || !old(self)@.has_pane(old(self)@.focused))
                ==> final(self)@ == old(self)@.laid_out(size),
            !display_updated && !was_searching && !is_searching ==> final(self)@ == old(self)@
                && final(actions)@ == old(actions)@,
            old(self)@.well_formed() ==> final(self)@.well_formed(),
    {
        broadcast use vstd::std_specs::hash::group_hash_axioms;

        let searching: bool = self.panes.contains_key(&self.focused.raw()) && is_searching;
        if display_updated || was_searching != searching {
            self.relayout_panes(size, actions);
        }
    }

    /// Whether the highlighted hints of the focused pane have to be updated.
    pub fn wants_hint_update(&self) -> (wanted: bool)
        ensures
            wanted == (self@.has_pane(self@.focused) && (self@.dirty
                || self@.mouse.hint_highlight_dirty)),
            wanted == self@.wants_hint_update(),
    {
        broadcast use vstd::std_specs::hash::group_hash_axioms;

        self.panes.contains_key(&self.focused.raw()) && (self.dirty
            || self.mouse.hint_highlight_dirty)
    }

    /// Takes up whether an update changed the highlighted hints.
    pub fn hints_updated(&mut self, changed: bool)
        ensures
            final(self)@ == (WindowView {
                dirty: old(self)@.dirty || changed,
                mouse: Mouse { hint_highlight_dirty: false, ..old(self)@.mouse },
                ..old(self)@
            }),
            final(self)@ == old(self)@.hints_updated(changed),
            old(self)@.well_formed() ==> final(self)@.well_formed(),
    {
        self.dirty = self.dirty || changed;
        self.mouse.hint_highlight_dirty = false;
    }

    /// Takes up a new configuration, and says what has to be done for it.
    pub fn update_config(
        &mut self,
        old_config: &WindowConfig,
        new_config: &WindowConfig,
        font: FontChange,
        shown_title: &String,
    ) -> (update: ConfigUpdate)
        ensures
            update == spec_config_update(
                *old_config,
                *new_config,
                font,
                old(self)@.preserve_title,
                shown_title@,
            ),
            final(self)@ == (WindowView { dirty: true, ..old(self)@ }),
            old(self)@.well_formed() ==> final(self)@.well_formed(),
    {
        let update = config_update(old_config, new_config, font, self.preserve_title, shown_title);
        self.dirty = true;
        update
    }

    /// What the terminal's input may change.
    pub fn input_state(&self) -> (state: InputState)
        ensures
            state == self@.input_state(),
    {
        InputState {
            dirty: self.dirty,
            occluded: self.occluded,
            mouse: self.mouse,
            pending_pane_op: self.pending_pane_op,
        }
    }

    /// Takes up what the terminal's input has changed.
    pub fn set_input_state(&mut self, state: InputState)
        ensures
            final(self)@ == (WindowView {
                dirty: state.dirty,
                occluded: state.occluded,
                mouse: state.mouse,
                pending_pane_op: state.pending_pane_op,
                ..old(self)@
            }),
            final(self)@ == old(self)@.with_input_state(state),
            old(self)@.well_formed() ==> final(self)@.well_formed(),
    {
        self.dirty = state.dirty;
        self.occluded = state.occluded;
        self.mouse = state.mouse;
        self.pending_pane_op = state.pending_pane_op;
    }

    /// Whether the window is about to close.
    pub fn closing(&self) -> (closing: bool)
        ensures
            closing == self@.closing,
    {
        self.closing
    }

    /// Sets whether the window is about to close.
    pub fn set_closing(&mut self, closing: bool)
        ensures
            final(self)@ == (WindowView { closing, ..old(self)@ }),
            old(self)@.well_formed() ==> final(self)@.well_formed(),
    {
        self.closing = closing;
    }

    /// Whether the title was given for this window.
    pub fn preserve_title(&self) -> (preserve: bool)
        ensures
            preserve == self@.preserve_title,
    {
        self.preserve_title
    }

    /// The focused pane.
    pub fn focused(&self) -> (id: PaneId)
        ensures
            id == self@.focused,
    {
        self.focused
    }
}

} // verus!
