use pane_layout::config_update::ConfigUpdate;
use pane_layout::config_update::FontChange;
use pane_layout::config_update::WindowConfig;
use pane_layout::layout::Axis;
use pane_layout::layout::FocusDirection;
use pane_layout::layout::Layout;
use pane_layout::layout::PaneId;
use pane_layout::layout::Rect;
use pane_layout::single::Single;
use pane_layout::window_context::reserved_lines;
use pane_layout::window_context::resize_cursor;
use pane_layout::window_context::Action;
use pane_layout::window_context::CursorIcon;
use pane_layout::window_context::ElementState;
use pane_layout::window_context::EventTarget;
use pane_layout::window_context::InputState;
use pane_layout::window_context::Mouse;
use pane_layout::window_context::MouseButton;
use pane_layout::window_context::PaneSize;
use pane_layout::window_context::PendingPaneOp;
use pane_layout::window_context::SizeInfo;
use pane_layout::window_context::WindowContext;
use pane_layout::window_context::WindowEvent;

fn px(value: f32) -> Single {
    Single::from_bits(value.to_bits())
}

fn size() -> SizeInfo {
    SizeInfo {
        width: px(210.),
        height: px(204.),
        cell_width: px(10.),
        cell_height: px(20.),
        padding_x: px(5.),
        padding_y: px(2.),
    }
}

fn mouse() -> Mouse {
    Mouse { x: 0, y: 0, left_button_state: ElementState::Released, hint_highlight_dirty: false }
}

fn pane_size(columns: usize, screen_lines: usize) -> PaneSize {
    PaneSize { columns, screen_lines }
}

fn rect(x: f32, y: f32, width: f32, height: f32) -> Rect {
    Rect { x: px(x), y: px(y), width: px(width), height: px(height) }
}

fn window() -> (WindowContext, PaneId) {
    let (layout, root) = Layout::new();
    let mut actions = Vec::new();
    let window =
        WindowContext::new(layout, root, pane_size(20, 10), mouse(), false, size(), &mut actions);
    (window, root)
}

fn request(window: &mut WindowContext, op: PendingPaneOp) -> Vec<Action> {
    let state = window.input_state();
    window.set_input_state(InputState { pending_pane_op: Some(op), ..state });
    let mut actions = Vec::new();
    assert!(window.can_apply_pending_op());
    window.apply_pending_op(size(), &mut actions);
    assert_eq!(window.input_state().pending_pane_op, None);
    actions
}

fn split(window: &mut WindowContext, axis: Axis) -> PaneId {
    match request(window, PendingPaneOp::Split(axis))[..] {
        [Action::SpawnPane { leaf, .. }] => {
            let mut actions = Vec::new();
            let pane = pane_size(leaf.columns, leaf.screen_lines);
            window.pane_spawned(leaf.id, pane, size(), &mut actions);
            leaf.id
        },
        _ => panic!("a split asks for one terminal"),
    }
}

fn send(window: &mut WindowContext, event: WindowEvent) -> (bool, Vec<Action>) {
    let mut actions = Vec::new();
    assert!(window.can_take(event, size()));
    let consumed = window.consume_layout_event(event, size(), &mut actions);
    (consumed, actions)
}

fn press(state: ElementState) -> WindowEvent {
    WindowEvent::MouseInput { state, button: MouseButton::Left }
}

fn moved(x: i32, y: i32) -> WindowEvent {
    WindowEvent::CursorMoved { x, y }
}

#[test]
fn content_lies_inside_padding() {
    assert_eq!(size().content_bounds(), rect(5., 2., 200., 200.));
    let narrow = SizeInfo { width: px(8.), ..size() };
    assert_eq!(narrow.content_bounds(), rect(5., 2., 0., 200.));
    let metrics = size().layout_metrics();
    assert_eq!(metrics.bar_thickness, px(10.));
    assert_eq!(metrics.hit_slop, px(4.));
    let fine = SizeInfo { cell_width: px(3.), ..size() }.layout_metrics();
    assert_eq!(fine.bar_thickness, px(4.));
}

#[test]
fn cursors_follow_bars() {
    assert_eq!(resize_cursor(Axis::Vertical), CursorIcon::ColResize);
    assert_eq!(resize_cursor(Axis::Horizontal), CursorIcon::RowResize);
}

#[test]
fn new_window_has_one_pane() {
    let (layout, root) = Layout::new();
    let mut actions = Vec::new();
    let window =
        WindowContext::new(layout, root, pane_size(20, 10), mouse(), true, size(), &mut actions);
    assert_eq!(
        actions,
        vec![Action::FocusTerminal { id: root, focused: true }, Action::ResizePanes]
    );
    assert_eq!(window.focused(), root);
    assert!(window.input_state().dirty);
    assert!(!window.closing());
    assert!(window.preserve_title());
    let leaves = window.drawn_leaves();
    assert_eq!(leaves.len(), 1);
    assert_eq!(leaves[0].rect, rect(5., 2., 200., 200.));
    assert_eq!((leaves[0].columns, leaves[0].screen_lines), (20, 10));
}

#[test]
fn split_asks_for_a_terminal() {
    let (mut window, root) = window();
    let actions = request(&mut window, PendingPaneOp::Split(Axis::Vertical));
    let leaf = match actions[..] {
        [Action::SpawnPane { leaf, parent }] => {
            assert_eq!(parent, Some(root));
            leaf
        },
        _ => panic!("a split asks for one terminal"),
    };
    assert_eq!(leaf.id.raw(), 2);
    assert_eq!(leaf.rect, rect(105., 2., 100., 200.));
    assert_eq!((leaf.columns, leaf.screen_lines), (10, 10));
    // Nothing is laid out before the terminal runs.
    assert_eq!(window.drawn_leaves().len(), 1);
    assert_eq!(window.focused(), root);

    let mut actions = Vec::new();
    window.pane_spawned(leaf.id, pane_size(10, 10), size(), &mut actions);
    assert_eq!(
        actions,
        vec![
            Action::FocusTerminal { id: root, focused: false },
            Action::FocusTerminal { id: leaf.id, focused: true },
            Action::ResizePanes,
        ]
    );
    assert_eq!(window.focused(), leaf.id);
    let leaves = window.drawn_leaves();
    assert_eq!(leaves.len(), 2);
    assert_eq!(leaves[0].rect, rect(5., 2., 90., 200.));
    assert_eq!(leaves[1].rect, rect(105., 2., 100., 200.));
}

#[test]
fn pane_without_terminal_is_not_drawn() {
    let (mut window, root) = window();
    let actions = request(&mut window, PendingPaneOp::Split(Axis::Vertical));
    assert_eq!(actions.len(), 1);
    // The terminal could not be started: the pane stays, empty.
    let mut actions = Vec::new();
    window.relayout_panes(size(), &mut actions);
    assert_eq!(actions, vec![Action::ResizePanes]);
    let leaves = window.drawn_leaves();
    assert_eq!(leaves.len(), 1);
    assert_eq!(leaves[0].id, root);
    assert_eq!(leaves[0].rect, rect(5., 2., 90., 200.));
    // It cannot take the focus.
    let actions = request(&mut window, PendingPaneOp::Focus(FocusDirection::Right));
    assert!(actions.is_empty());
    assert_eq!(window.focused(), root);
    // Closing the other one leaves it with the focus, and no input.
    let mut actions = Vec::new();
    assert!(window.close_pane(None, size(), &mut actions));
    assert_eq!(actions, vec![Action::DropPane(root), Action::ResizePanes]);
    assert!(window.input_leaf().is_none());
    assert!(!window.wants_hint_update());
    let actions = request(&mut window, PendingPaneOp::QuitWindow);
    assert!(actions.is_empty());
    assert!(window.closing());
}

#[test]
fn close_returns_whether_panes_remain() {
    let (mut window, root) = window();
    let right = split(&mut window, Axis::Vertical);
    let mut actions = Vec::new();
    assert!(window.close_pane(Some(right), size(), &mut actions));
    assert_eq!(
        actions,
        vec![
            Action::DropPane(right),
            Action::FocusTerminal { id: root, focused: true },
            Action::ResizePanes,
        ]
    );
    assert_eq!(window.focused(), root);
    assert_eq!(window.drawn_leaves().len(), 1);
    // A pane that is gone already.
    actions.clear();
    assert!(window.close_pane(Some(right), size(), &mut actions));
    assert!(actions.is_empty());
    // The last pane.
    assert!(!window.close_pane(Some(root), size(), &mut actions));
    assert!(!window.close_pane(None, size(), &mut actions));
    assert!(actions.is_empty());
    assert_eq!(window.drawn_leaves().len(), 1);
}

#[test]
fn unknown_pane_leaves_several() {
    let (mut window, _) = window();
    let right = split(&mut window, Axis::Vertical);
    let bottom = split(&mut window, Axis::Horizontal);
    let mut actions = Vec::new();
    assert!(window.close_pane(Some(bottom), size(), &mut actions));
    actions.clear();
    assert!(window.close_pane(Some(bottom), size(), &mut actions));
    assert!(actions.is_empty());
    assert_eq!(window.focused(), right);
}

#[test]
fn closing_the_last_pane_closes_the_window() {
    let (mut window, root) = window();
    let right = split(&mut window, Axis::Horizontal);
    let actions = request(&mut window, PendingPaneOp::Close);
    assert_eq!(actions[0], Action::DropPane(right));
    assert!(!window.closing());
    let actions = request(&mut window, PendingPaneOp::Close);
    assert_eq!(actions, vec![Action::ExitTerminal(root)]);
    assert!(window.closing());
}

#[test]
fn quit_closes_the_window() {
    let (mut window, _) = window();
    let right = split(&mut window, Axis::Vertical);
    let actions = request(&mut window, PendingPaneOp::QuitWindow);
    assert_eq!(actions, vec![Action::ExitTerminal(right)]);
    assert!(window.closing());
}

#[test]
fn focus_moves_to_neighbor() {
    let (mut window, root) = window();
    let right = split(&mut window, Axis::Vertical);
    let actions = request(&mut window, PendingPaneOp::Focus(FocusDirection::Left));
    assert_eq!(
        actions,
        vec![
            Action::FocusTerminal { id: right, focused: false },
            Action::FocusTerminal { id: root, focused: true },
        ]
    );
    assert_eq!(window.focused(), root);
    assert!(request(&mut window, PendingPaneOp::Focus(FocusDirection::Left)).is_empty());
    assert!(request(&mut window, PendingPaneOp::Focus(FocusDirection::Up)).is_empty());
    assert_eq!(window.focused(), root);
}

#[test]
fn nothing_pending_changes_nothing() {
    let (mut window, root) = window();
    let mut actions = Vec::new();
    window.apply_pending_op(size(), &mut actions);
    assert!(actions.is_empty());
    assert_eq!(window.focused(), root);
    assert!(!window.closing());
}

#[test]
fn bar_is_dragged() {
    let (mut window, _) = window();
    split(&mut window, Axis::Vertical);
    let cursor = Action::SetMouseCursor(CursorIcon::ColResize);

    // The bar spans 95 to 105.
    assert_eq!(send(&mut window, moved(100, 50)), (true, vec![cursor]));
    assert_eq!(send(&mut window, press(ElementState::Pressed)), (true, vec![cursor]));
    assert_eq!(send(&mut window, moved(75, 50)), (true, vec![Action::ResizePanes, cursor]));
    let leaves = window.drawn_leaves();
    assert_eq!(leaves[0].rect, rect(5., 2., 70., 200.));
    assert_eq!(leaves[1].rect, rect(85., 2., 120., 200.));
    // The same place again.
    assert_eq!(send(&mut window, moved(75, 70)), (true, vec![cursor]));
    // The share of 60 pixels, taken of 190 again, falls just short of 6 cells.
    assert_eq!(send(&mut window, moved(65, 50)), (true, vec![Action::ResizePanes, cursor]));
    let share = 190f32 * (60f32 / 190f32);
    assert!(share < 60.);
    assert_eq!(window.drawn_leaves()[0].rect.width, px((share / 10.).floor() * 10.));
    // Far outside: the first pane keeps its least columns.
    assert_eq!(send(&mut window, moved(-500, 50)), (true, vec![Action::ResizePanes, cursor]));
    assert_eq!(window.drawn_leaves()[0].columns, 2);
    assert_eq!(window.input_state().mouse.x, 0);
    assert_eq!(
        send(&mut window, press(ElementState::Released)),
        (true, vec![Action::ResizePanes])
    );
    // The drag is over.
    assert_eq!(send(&mut window, press(ElementState::Released)), (false, vec![]));
    assert_eq!(send(&mut window, moved(150, 50)), (false, vec![]));
    assert_eq!(window.drawn_leaves()[0].columns, 2);
}

#[test]
fn horizontal_bar_has_its_cursor() {
    let (mut window, _) = window();
    split(&mut window, Axis::Horizontal);
    // The bar spans 82 to 92.
    let cursor = Action::SetMouseCursor(CursorIcon::RowResize);
    assert_eq!(send(&mut window, moved(50, 85)), (true, vec![cursor]));
    assert_eq!(send(&mut window, moved(50, 60)), (false, vec![]));
}

#[test]
fn press_on_a_pane_gives_it_the_focus() {
    let (mut window, root) = window();
    let right = split(&mut window, Axis::Vertical);
    assert_eq!(send(&mut window, moved(20, 20)), (false, vec![]));
    let (consumed, actions) = send(&mut window, press(ElementState::Pressed));
    assert!(!consumed);
    assert_eq!(
        actions,
        vec![
            Action::FocusTerminal { id: right, focused: false },
            Action::FocusTerminal { id: root, focused: true },
        ]
    );
    assert_eq!(window.focused(), root);
    assert_eq!(window.input_state().mouse.left_button_state, ElementState::Pressed);
    // A second press changes nothing.
    assert_eq!(send(&mut window, press(ElementState::Pressed)), (false, vec![]));
    assert_eq!(send(&mut window, press(ElementState::Released)), (false, vec![]));
    assert_eq!(window.input_state().mouse.left_button_state, ElementState::Released);
}

#[test]
fn press_in_the_padding_hits_nothing() {
    let (mut window, _) = window();
    let right = split(&mut window, Axis::Vertical);
    assert_eq!(send(&mut window, moved(2, 100)), (false, vec![]));
    assert_eq!(send(&mut window, press(ElementState::Pressed)), (false, vec![]));
    assert_eq!(window.focused(), right);
}

#[test]
fn other_events_pass() {
    let (mut window, _) = window();
    split(&mut window, Axis::Vertical);
    send(&mut window, moved(100, 50));
    let before = window.input_state();
    let buttons = [
        MouseButton::Right,
        MouseButton::Middle,
        MouseButton::Back,
        MouseButton::Forward,
        MouseButton::Other(7),
    ];
    for button in buttons {
        let event = WindowEvent::MouseInput { state: ElementState::Pressed, button };
        assert_eq!(send(&mut window, event), (false, vec![]));
    }
    assert_eq!(send(&mut window, WindowEvent::Other), (false, vec![]));
    assert_eq!(window.input_state(), before);
}

#[test]
fn mouse_stays_in_the_window() {
    let (mut window, _) = window();
    send(&mut window, moved(1000, -7));
    assert_eq!((window.input_state().mouse.x, window.input_state().mouse.y), (209, 0));
    send(&mut window, moved(-1, 204));
    assert_eq!((window.input_state().mouse.x, window.input_state().mouse.y), (0, 203));
    send(&mut window, moved(12, 34));
    assert_eq!((window.input_state().mouse.x, window.input_state().mouse.y), (12, 34));
}

#[test]
fn window_without_pixels_takes_no_pointer() {
    let (window, _) = window();
    let flat = SizeInfo { height: px(0.5), ..size() };
    assert!(!window.can_take(moved(0, 0), flat));
    assert!(window.can_take(press(ElementState::Pressed), flat));
    assert!(window.can_take(moved(0, 0), SizeInfo { height: px(1.), ..size() }));
}

#[test]
fn endless_window_cannot_be_dragged() {
    let (mut window, _) = window();
    split(&mut window, Axis::Vertical);
    send(&mut window, moved(100, 50));
    send(&mut window, press(ElementState::Pressed));
    let endless = SizeInfo { width: px(f32::INFINITY), ..size() };
    assert!(window.can_take(moved(0, 0), endless));
    let huge_cells = SizeInfo { cell_width: px(f32::MAX), ..endless };
    assert!(!window.can_take(moved(0, 0), huge_cells));
}

#[test]
fn events_reach_their_target() {
    let (mut window, root) = window();
    let right = split(&mut window, Axis::Vertical);
    let mut actions = Vec::new();
    assert_eq!(window.dispatch(moved(100, 50), size(), &mut actions), EventTarget::Layout);
    match window.dispatch(WindowEvent::Other, size(), &mut actions) {
        EventTarget::Terminal(leaf) => assert_eq!(leaf.id, right),
        _ => panic!("the focused terminal gets it"),
    }
    window.dispatch(moved(20, 20), size(), &mut actions);
    match window.dispatch(press(ElementState::Pressed), size(), &mut actions) {
        EventTarget::Terminal(leaf) => assert_eq!(leaf.id, root),
        _ => panic!("the pressed terminal gets it"),
    }
}

#[test]
fn event_without_terminal_goes_nowhere() {
    let (mut window, root) = window();
    request(&mut window, PendingPaneOp::Split(Axis::Vertical));
    let mut actions = Vec::new();
    window.close_pane(Some(root), size(), &mut actions);
    assert_eq!(
        window.dispatch(WindowEvent::Other, size(), &mut actions),
        EventTarget::Nothing
    );
}

#[test]
fn terminals_are_resized_only_when_they_change() {
    let (mut window, root) = window();
    assert!(!window.fit_pane(root, pane_size(20, 10)));
    assert!(window.fit_pane(root, pane_size(20, 9)));
    assert!(!window.fit_pane(root, pane_size(20, 9)));
    assert!(window.fit_pane(root, pane_size(19, 9)));
    let other = split(&mut window, Axis::Vertical);
    let mut actions = Vec::new();
    window.close_pane(Some(other), size(), &mut actions);
    assert!(!window.fit_pane(other, pane_size(3, 3)));
}

#[test]
fn search_and_messages_take_lines() {
    assert_eq!(reserved_lines(false, None), 0);
    assert_eq!(reserved_lines(true, None), 1);
    assert_eq!(reserved_lines(false, Some(3)), 3);
    assert_eq!(reserved_lines(true, Some(3)), 4);
    assert_eq!(reserved_lines(false, Some(usize::MAX)), usize::MAX);
}

#[test]
fn hidden_window_draws_nothing() {
    let (mut window, _) = window();
    let state = window.input_state();
    window.set_input_state(InputState { occluded: true, ..state });
    assert!(!window.start_frame());
    assert!(window.input_state().dirty);
    assert!(!window.wants_redraw(true, false));
    window.set_input_state(InputState { occluded: false, ..state });
    assert!(window.start_frame());
    assert!(!window.input_state().dirty);
}

#[test]
fn frame_holds_panes_and_bars() {
    let (mut window, root) = window();
    let right = split(&mut window, Axis::Vertical);
    assert!(window.start_frame());
    let frame = window.draw(true, true);
    assert!(!frame.request_redraw);
    assert!(!window.input_state().dirty);
    assert_eq!(frame.leaves.iter().map(|leaf| leaf.id).collect::<Vec<_>>(), vec![root, right]);
    assert_eq!(frame.bars.len(), 1);
    assert_eq!(frame.bars[0].rect, rect(95., 2., 10., 200.));
}

#[test]
fn bell_keeps_drawing() {
    let (mut window, _) = window();
    assert!(window.start_frame());
    assert!(window.draw(false, true).request_redraw);
    assert!(!window.input_state().dirty);
    assert!(!window.draw(false, false).request_redraw);
    assert!(window.input_state().dirty);
}

#[test]
fn redraw_is_requested_once() {
    let (mut window, _) = window();
    assert!(window.wants_redraw(true, false));
    assert!(!window.wants_redraw(false, false));
    assert!(!window.wants_redraw(true, true));
    assert!(window.redraw_after(2, true, false));
    assert!(!window.redraw_after(2, true, true));
    assert!(!window.redraw_after(2, false, false));
    // Nothing was waiting.
    assert!(!window.redraw_after(0, true, false));
    window.start_frame();
    assert!(!window.wants_redraw(true, false));
    assert!(!window.redraw_after(2, true, false));
}

#[test]
fn closing_can_be_set() {
    let (mut window, _) = window();
    window.set_closing(true);
    assert!(window.closing());
    window.set_closing(false);
    assert!(!window.closing());
}

#[test]
fn input_lays_out_anew_where_lines_change() {
    let (mut window, _) = window();
    let mut actions = Vec::new();
    window.after_input(false, false, false, size(), &mut actions);
    window.after_input(false, true, true, size(), &mut actions);
    assert!(actions.is_empty());
    window.after_input(false, false, true, size(), &mut actions);
    window.after_input(false, true, false, size(), &mut actions);
    window.after_input(true, false, false, size(), &mut actions);
    assert_eq!(actions, vec![Action::ResizePanes, Action::ResizePanes, Action::ResizePanes]);
}

#[test]
fn hints_are_updated_when_dirty() {
    let (mut window, _) = window();
    assert!(window.wants_hint_update());
    window.start_frame();
    assert!(!window.wants_hint_update());
    let state = window.input_state();
    window.set_input_state(InputState {
        mouse: Mouse { hint_highlight_dirty: true, ..state.mouse },
        ..state
    });
    assert!(window.wants_hint_update());
    window.hints_updated(false);
    assert!(!window.wants_hint_update());
    assert!(!window.input_state().dirty);
    window.hints_updated(true);
    assert!(window.input_state().dirty);
}

fn config() -> WindowConfig {
    WindowConfig {
        cursor_thickness: px(0.15),
        padding: (px(0.), px(2.)),
        dynamic_padding: false,
        resize_increments: false,
        dynamic_title: true,
        title: String::from("Terminal"),
        opacity: px(1.),
    }
}

fn update(old: &WindowConfig, new: &WindowConfig, shown: &str) -> ConfigUpdate {
    let (mut window, _) = window();
    window.start_frame();
    let font = FontChange { changed: false, size_follows_config: true };
    let update = window.update_config(old, new, font, &String::from(shown));
    assert!(window.input_state().dirty);
    update
}

#[test]
fn same_config_keeps_display() {
    assert_eq!(
        update(&config(), &config(), "vim"),
        ConfigUpdate {
            cursor_dirty: false,
            rescale_font: false,
            update_font: false,
            display_dirty: false,
            set_title: false,
            transparent: false,
        }
    );
}

#[test]
fn config_changes_are_found() {
    let old = config();
    let thick = WindowConfig { cursor_thickness: px(0.3), ..config() };
    assert!(update(&old, &thick, "vim").cursor_dirty);
    let same = WindowConfig { cursor_thickness: px(0.15 + 1e-8), ..config() };
    assert!(!update(&old, &same, "vim").cursor_dirty);
    let padded = WindowConfig { padding: (px(0.), px(3.)), ..config() };
    assert!(update(&old, &padded, "vim").display_dirty);
    let padded = WindowConfig { padding: (px(1.), px(2.)), ..config() };
    assert!(update(&old, &padded, "vim").display_dirty);
    let signed = WindowConfig { padding: (px(-0.), px(2.)), ..config() };
    assert!(!update(&old, &signed, "vim").display_dirty);
    let dynamic = WindowConfig { dynamic_padding: true, ..config() };
    assert!(update(&old, &dynamic, "vim").display_dirty);
    let increments = WindowConfig { resize_increments: true, ..config() };
    assert!(update(&old, &increments, "vim").display_dirty);
    let glass = WindowConfig { opacity: px(0.9), ..config() };
    assert!(update(&old, &glass, "vim").transparent);
    let undefined = WindowConfig { opacity: px(f32::NAN), ..config() };
    assert!(update(&old, &undefined, "vim").transparent);
}

#[test]
fn font_follows_config_until_changed() {
    let (mut window, _) = window();
    let shown = String::from("vim");
    let cases = [
        (true, true, true, true),
        (true, false, false, true),
        (false, true, false, false),
        (false, false, false, false),
    ];
    for (changed, size_follows_config, rescale, load) in cases {
        let font = FontChange { changed, size_follows_config };
        let update = window.update_config(&config(), &config(), font, &shown);
        assert_eq!((update.rescale_font, update.update_font), (rescale, load));
    }
}

#[test]
fn title_is_kept_where_it_was_set() {
    let fixed = WindowConfig { dynamic_title: false, ..config() };
    // Shown is what the old configuration says, or titles are not dynamic.
    assert!(update(&config(), &config(), "Terminal").set_title);
    assert!(update(&config(), &fixed, "vim").set_title);
    assert!(!update(&fixed, &config(), "vim").set_title);
    // A title that was given for the window stays.
    let (layout, root) = Layout::new();
    let mut actions = Vec::new();
    let mut window =
        WindowContext::new(layout, root, pane_size(20, 10), mouse(), true, size(), &mut actions);
    let font = FontChange { changed: false, size_follows_config: true };
    let update = window.update_config(&config(), &fixed, font, &String::from("Terminal"));
    assert!(!update.set_title);
}

#[test]
fn layout_settles() {
    let (mut window, _) = window();
    split(&mut window, Axis::Vertical);
    let before = window.drawn_leaves();
    let mut actions = Vec::new();
    window.relayout_panes(size(), &mut actions);
    assert_eq!(window.drawn_leaves(), before);
    assert_eq!(actions, vec![Action::ResizePanes]);
}

#[test]
fn closing_undoes_a_split() {
    let (mut window, root) = window();
    let before = window.drawn_leaves();
    for axis in [Axis::Horizontal, Axis::Vertical] {
        let new = split(&mut window, axis);
        let mut actions = Vec::new();
        assert!(window.close_pane(Some(new), size(), &mut actions));
        assert_eq!(window.drawn_leaves(), before);
        assert_eq!(window.focused(), root);
        // The terminal of the closed pane is gone, and the other one is kept.
        assert!(!window.fit_pane(new, pane_size(1, 1)));
        assert!(!window.fit_pane(root, pane_size(20, 10)));
    }
}

#[test]
fn moves_without_drag_change_no_pane() {
    let (mut window, _) = window();
    let right = split(&mut window, Axis::Vertical);
    let before = window.drawn_leaves();
    for x in 0..210 {
        send(&mut window, moved(x, 50));
    }
    assert_eq!(window.drawn_leaves(), before);
    assert_eq!(window.focused(), right);
}
