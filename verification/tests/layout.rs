use alacritty_terminal::term::{MIN_COLUMNS, MIN_SCREEN_LINES};
use pane_layout::layout::{Axis, FocusDirection, Hit, Layout, LayoutMetrics, Rect};
use pane_layout::single::Single;

fn px(value: f32) -> Single {
    Single::from_bits(value.to_bits())
}

fn value(single: Single) -> f32 {
    f32::from_bits(single.to_bits())
}

fn metrics() -> LayoutMetrics {
    LayoutMetrics {
        cell_width: px(10.),
        cell_height: px(20.),
        bar_thickness: px(10.),
        hit_slop: px(4.),
    }
}

fn bounds() -> Rect {
    Rect { x: px(0.), y: px(0.), width: px(200.), height: px(200.) }
}

#[test]
fn nested_split_geometry() {
    let (mut layout, root) = Layout::new();
    let right = layout.split(root, Axis::Vertical).unwrap();
    let bottom = layout.split(root, Axis::Horizontal).unwrap();

    let geometry = layout.compute(bounds(), metrics());
    assert_eq!(geometry.leaves.len(), 3);
    assert_eq!(geometry.bars.len(), 2);

    let left_top = geometry.leaf(root).unwrap();
    let left_bottom = geometry.leaf(bottom).unwrap();
    let right_pane = geometry.leaf(right).unwrap();

    assert!(value(left_top.rect.x) < value(right_pane.rect.x));
    assert!(value(left_top.rect.y) < value(left_bottom.rect.y));
    assert_eq!(left_top.columns + right_pane.columns, 19);
    assert!((left_top.columns as i32 - right_pane.columns as i32).abs() <= 1);
    assert!(left_top.screen_lines >= MIN_SCREEN_LINES);
    assert!(left_bottom.screen_lines >= MIN_SCREEN_LINES);
}

#[test]
fn hit_test_leaf_vs_bar() {
    let (mut layout, root) = Layout::new();
    layout.split(root, Axis::Vertical).unwrap();
    let geometry = layout.compute(bounds(), metrics());
    let bar = geometry.bars[0];

    assert!(matches!(layout.hit_test(bounds(), metrics(), px(20.), px(20.)), Some(Hit::Pane(_))));
    assert_eq!(
        layout.hit_test(bounds(), metrics(), px(value(bar.rect.x) + 1.), px(50.)),
        Some(Hit::Bar { id: bar.id, axis: Axis::Vertical })
    );
    // Slop around the bar still hits the divider.
    assert_eq!(
        layout.hit_test(bounds(), metrics(), px(value(bar.rect.x) - 2.), px(50.)),
        Some(Hit::Bar { id: bar.id, axis: Axis::Vertical })
    );
}

#[test]
fn drag_clamps_at_min_cols() {
    let (mut layout, root) = Layout::new();
    layout.split(root, Axis::Vertical).unwrap();
    let geometry = layout.compute(bounds(), metrics());
    let bar_id = geometry.bars[0].id;

    layout.drag_split(bar_id, bounds(), metrics(), px(0.), px(0.));
    let geometry = layout.compute(bounds(), metrics());
    assert!(geometry.leaves.iter().all(|leaf| leaf.columns >= MIN_COLUMNS));

    layout.drag_split(bar_id, bounds(), metrics(), px(200.), px(0.));
    let geometry = layout.compute(bounds(), metrics());
    assert!(geometry.leaves.iter().all(|leaf| leaf.columns >= MIN_COLUMNS));
}

#[test]
fn close_collapses_to_single_leaf() {
    let (mut layout, root) = Layout::new();
    let right = layout.split(root, Axis::Vertical).unwrap();
    let focus = layout.close(right).unwrap();
    assert_eq!(focus, root);
    assert!(layout.is_single_pane());

    let geometry = layout.compute(bounds(), metrics());
    assert_eq!(geometry.leaves.len(), 1);
    assert!(geometry.bars.is_empty());
    assert_eq!(geometry.leaves[0].id, root);
    assert!(layout.close(root).is_none());
}

#[test]
fn neighbor_focus() {
    let (mut layout, root) = Layout::new();
    let right = layout.split(root, Axis::Vertical).unwrap();
    assert_eq!(layout.neighbor(bounds(), metrics(), root, FocusDirection::Right), Some(right));
    assert_eq!(layout.neighbor(bounds(), metrics(), right, FocusDirection::Left), Some(root));
    assert_eq!(layout.neighbor(bounds(), metrics(), root, FocusDirection::Left), None);
}
