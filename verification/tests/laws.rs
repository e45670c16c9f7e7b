use pane_layout::layout::Axis;
use pane_layout::layout::FocusDirection;
use pane_layout::layout::Hit;
use pane_layout::layout::Layout;
use pane_layout::layout::LayoutGeometry;
use pane_layout::layout::LayoutMetrics;
use pane_layout::layout::PaneId;
use pane_layout::layout::Rect;
use pane_layout::rect::can_take_ratio;
use pane_layout::rect::min_primary;
use pane_layout::rect::ratio_from_pointer;
use pane_layout::rect::rects_overlap_1d;
use pane_layout::rect::snapped_first_len;
use pane_layout::rect::split_rect;
use pane_layout::single::Single;

fn px(value: f32) -> Single {
    Single::from_bits(value.to_bits())
}

fn value(single: Single) -> f32 {
    f32::from_bits(single.to_bits())
}

fn rect(x: f32, y: f32, width: f32, height: f32) -> Rect {
    Rect { x: px(x), y: px(y), width: px(width), height: px(height) }
}

fn metrics() -> LayoutMetrics {
    LayoutMetrics::from_cell_size(px(7.), px(13.))
}

fn bounds() -> Rect {
    rect(3., 5., 120., 90.)
}

/// Four panes: the first above the last on the left, the other two above each other on the right.
fn nested() -> (Layout, [PaneId; 4]) {
    let (mut layout, root) = Layout::new();
    let right = layout.split(root, Axis::Vertical).unwrap();
    let lower_right = layout.split(right, Axis::Horizontal).unwrap();
    let lower_left = layout.split(root, Axis::Horizontal).unwrap();
    (layout, [root, lower_left, right, lower_right])
}

fn ids(geometry: &LayoutGeometry) -> Vec<PaneId> {
    geometry.leaves.iter().map(|leaf| leaf.id).collect()
}

#[test]
fn closing_undoes_splitting() {
    let (mut layout, panes) = nested();
    let before = layout.compute(bounds(), metrics());
    for pane in panes {
        for axis in [Axis::Horizontal, Axis::Vertical] {
            let new = layout.split(pane, axis).unwrap();
            assert_ne!(layout.compute(bounds(), metrics()), before);
            assert_eq!(layout.close(new), Some(pane));
            assert_eq!(layout.compute(bounds(), metrics()), before);
        }
    }
}

#[test]
fn split_puts_new_pane_behind() {
    let (mut layout, panes) = nested();
    assert_eq!(ids(&layout.compute(bounds(), metrics())), panes.to_vec());
    let new = layout.split(panes[1], Axis::Vertical).unwrap();
    assert_eq!(new.raw(), 5);
    assert_eq!(
        ids(&layout.compute(bounds(), metrics())),
        vec![panes[0], panes[1], new, panes[2], panes[3]]
    );
}

#[test]
fn split_of_unknown_pane_fails() {
    let (mut layout, panes) = nested();
    let before = layout.compute(bounds(), metrics());
    assert_eq!(layout.close(panes[3]), Some(panes[2]));
    assert_eq!(layout.split(panes[3], Axis::Vertical), None);
    assert_eq!(layout.close(panes[3]), None);
    // The numbers that the failed split took are not handed out again.
    let new = layout.split(panes[2], Axis::Horizontal).unwrap();
    assert_eq!(new.raw(), 6);
    let after = layout.compute(bounds(), metrics());
    assert_eq!(after.leaves.len(), before.leaves.len());
    assert!(layout.can_split());
}

#[test]
fn close_gives_focus_to_the_sibling() {
    let (mut layout, panes) = nested();
    assert_eq!(layout.close(panes[1]), Some(panes[0]));
    assert_eq!(ids(&layout.compute(bounds(), metrics())), vec![panes[0], panes[2], panes[3]]);
    // The sibling is now a split, whose first pane gets the focus.
    assert_eq!(layout.close(panes[0]), Some(panes[2]));
    assert_eq!(layout.close(panes[2]), Some(panes[3]));
    assert!(layout.is_single_pane());
    assert_eq!(layout.close(panes[3]), None);
    assert!(layout.is_single_pane());
}

#[test]
fn geometry_follows_tree() {
    let (layout, panes) = nested();
    let geometry = layout.compute(bounds(), metrics());
    assert_eq!(ids(&geometry), panes.to_vec());
    assert_eq!(geometry.bars.len(), 3);
    assert_eq!(
        geometry.bars.iter().map(|bar| bar.axis).collect::<Vec<_>>(),
        vec![Axis::Horizontal, Axis::Vertical, Axis::Horizontal]
    );
    for pane in panes {
        assert_eq!(geometry.leaf(pane).unwrap().id, pane);
    }
    let (mut other, _) = nested();
    let absent = other.split(panes[0], Axis::Vertical).unwrap();
    assert!(geometry.leaf(absent).is_none());
}

#[test]
fn every_pane_holds_a_terminal() {
    let (layout, _) = nested();
    for extent in [0., 1., 9., 30., 1e30] {
        let geometry = layout.compute(rect(0., 0., extent, extent), metrics());
        for leaf in &geometry.leaves {
            assert!(leaf.columns >= 2 && leaf.screen_lines >= 1);
        }
    }
    let geometry = layout.compute(rect(0., 0., 0., 0.), metrics());
    assert_eq!((geometry.leaves[0].columns, geometry.leaves[0].screen_lines), (2, 1));
}

#[test]
fn panes_and_bars_fill_the_window() {
    let (mut layout, _) = nested();
    let bar = layout.compute(bounds(), metrics()).bars[1].id;
    for step in 0..6 {
        layout.drag_split(bar, bounds(), metrics(), px(step as f32 * 25.), px(0.));
        let geometry = layout.compute(bounds(), metrics());
        for x in 0..130 {
            for y in 0..100 {
                let (x, y) = (px(x as f32 + 0.5), px(y as f32));
                let inside = bounds().contains(x, y);
                let panes = geometry.leaves.iter().filter(|leaf| leaf.rect.contains(x, y)).count();
                let bars = geometry.bars.iter().filter(|bar| bar.rect.contains(x, y)).count();
                assert!(panes <= 1);
                assert!(inside || panes == 0);
                assert_eq!(panes + bars, if inside { 1 } else { 0 });
                assert!(!inside || layout.hit_test(bounds(), metrics(), x, y).is_some());
            }
        }
    }
}

#[test]
fn hit_names_a_part() {
    let (layout, panes) = nested();
    let geometry = layout.compute(bounds(), metrics());
    for x in -5..130 {
        for y in -5..100 {
            match layout.hit_test(bounds(), metrics(), px(x as f32), px(y as f32)) {
                Some(Hit::Pane(id)) => assert!(panes.contains(&id)),
                Some(Hit::Bar { id, axis }) => {
                    assert!(geometry.bars.iter().any(|bar| bar.id == id && bar.axis == axis))
                },
                None => (),
            }
        }
    }
    assert_eq!(layout.hit_test(bounds(), metrics(), px(-20.), px(-20.)), None);
}

#[test]
fn parts_keep_their_minimum() {
    for ratio in [-1., 0., 0.1, 0.5, 0.9, 1., 7.] {
        let (first, bar, second) = split_rect(bounds(), Axis::Vertical, px(ratio), metrics());
        assert!(value(first.width) >= 14. && value(second.width) >= 14.);
        assert_eq!(value(first.width) + value(bar.width) + value(second.width), 120.);
        let (first, bar, second) = split_rect(bounds(), Axis::Horizontal, px(ratio), metrics());
        assert!(value(first.height) >= 13. && value(second.height) >= 13.);
        assert_eq!(value(first.height) + value(bar.height) + value(second.height), 90.);
    }
    assert_eq!(min_primary(Axis::Vertical, metrics()), px(14.));
    assert_eq!(min_primary(Axis::Horizontal, metrics()), px(13.));
}

#[test]
fn split_of_a_narrow_rectangle() {
    let narrow = rect(0., 0., 5., 50.);
    let (first, bar, second) = split_rect(narrow, Axis::Vertical, px(0.5), metrics());
    assert_eq!(first, rect(0., 0., 0., 50.));
    assert_eq!(bar, rect(0., 0., 7., 50.));
    assert_eq!(second, rect(7., 0., 0., 50.));
    // There is room for one of the two.
    let narrow = rect(0., 0., 27., 50.);
    let (first, _, second) = split_rect(narrow, Axis::Vertical, px(0.5), metrics());
    assert_eq!(first, rect(0., 0., 14., 50.));
    assert_eq!(second, rect(21., 0., 6., 50.));
}

#[test]
fn first_length_is_snapped() {
    assert_eq!(snapped_first_len(px(190.), px(0.5), px(10.), px(20.)), px(90.));
    assert_eq!(snapped_first_len(px(190.), px(0.5), px(0.), px(20.)), px(95.));
    assert_eq!(snapped_first_len(px(190.), px(0.), px(10.), px(20.)), px(20.));
    assert_eq!(snapped_first_len(px(190.), px(2.), px(10.), px(20.)), px(170.));
    assert_eq!(snapped_first_len(px(15.), px(0.5), px(10.), px(20.)), px(15.));
    assert_eq!(snapped_first_len(px(0.), px(0.5), px(10.), px(20.)), px(0.));
    assert_eq!(snapped_first_len(px(-3.), px(0.5), px(10.), px(20.)), px(0.));
}

#[test]
fn pointer_gives_a_ratio() {
    let bounds = rect(0., 0., 200., 200.);
    let metrics = LayoutMetrics {
        cell_width: px(10.),
        cell_height: px(20.),
        bar_thickness: px(10.),
        hit_slop: px(4.),
    };
    let ratio = |axis, x, y| ratio_from_pointer(bounds, axis, metrics, px(x), px(y));
    assert_eq!(ratio(Axis::Vertical, 94., 0.), px(90. / 190.));
    assert_eq!(ratio(Axis::Vertical, 95., 0.), px(100. / 190.));
    assert_eq!(ratio(Axis::Vertical, -50., 0.), px(20. / 190.));
    assert_eq!(ratio(Axis::Vertical, 500., 0.), px(170. / 190.));
    assert_eq!(ratio(Axis::Horizontal, 0., 45.), px(40. / 190.));
    assert_eq!(
        ratio_from_pointer(rect(0., 0., 5., 5.), Axis::Vertical, metrics, px(3.), px(3.)),
        px(0.5)
    );
    assert!(can_take_ratio(bounds, Axis::Vertical, metrics));
    let endless = rect(0., 0., f32::INFINITY, 200.);
    let huge = LayoutMetrics { cell_width: px(f32::MAX), ..metrics };
    assert!(can_take_ratio(endless, Axis::Vertical, metrics));
    assert!(!can_take_ratio(endless, Axis::Vertical, huge));
    assert!(can_take_ratio(endless, Axis::Horizontal, huge));
}

#[test]
fn drag_moves_one_divider_and_settles() {
    let (mut layout, _) = nested();
    let before = layout.compute(bounds(), metrics());
    let bar = before.bars[1].id;
    assert!(layout.can_drag(bar, bounds(), metrics()));
    assert!(layout.drag_split(bar, bounds(), metrics(), px(80.), px(40.)));
    let after = layout.compute(bounds(), metrics());
    assert_eq!(ids(&after), ids(&before));
    assert_ne!(after.bars[1], before.bars[1]);
    // The bars on both sides keep their height.
    assert_eq!(after.bars[0].rect.y, before.bars[0].rect.y);
    assert_eq!(after.bars[2].rect.y, before.bars[2].rect.y);
    assert!(!layout.drag_split(bar, bounds(), metrics(), px(80.), px(40.)));
    assert_eq!(layout.compute(bounds(), metrics()), after);
    // A bar that is gone.
    let (mut other, panes) = nested();
    let inner = other.compute(bounds(), metrics()).bars[0].id;
    other.close(panes[0]);
    assert!(!other.drag_split(inner, bounds(), metrics(), px(80.), px(40.)));
}

#[test]
fn neighbor_is_another_pane() {
    let (layout, [upper_left, lower_left, upper_right, lower_right]) = nested();
    let neighbor = |pane, direction| layout.neighbor(bounds(), metrics(), pane, direction);
    assert_eq!(neighbor(upper_left, FocusDirection::Right), Some(upper_right));
    assert_eq!(neighbor(upper_left, FocusDirection::Down), Some(lower_left));
    assert_eq!(neighbor(lower_right, FocusDirection::Left), Some(lower_left));
    assert_eq!(neighbor(lower_right, FocusDirection::Up), Some(upper_right));
    assert_eq!(neighbor(lower_right, FocusDirection::Right), None);
    assert_eq!(neighbor(lower_right, FocusDirection::Down), None);
    assert_eq!(neighbor(upper_left, FocusDirection::Up), None);
    let (mut other, panes) = nested();
    let absent = other.split(panes[0], Axis::Vertical).unwrap();
    assert_eq!(neighbor(absent, FocusDirection::Left), None);
}

#[test]
fn nearest_neighbor_wins() {
    // A tall pane on the left; of two equally near panes on the right, the first wins.
    let (mut layout, left) = Layout::new();
    let top = layout.split(left, Axis::Vertical).unwrap();
    let bottom = layout.split(top, Axis::Horizontal).unwrap();
    let bounds = rect(0., 0., 207., 215.);
    assert_eq!(layout.neighbor(bounds, metrics(), left, FocusDirection::Right), Some(top));
    assert_eq!(layout.neighbor(bounds, metrics(), bottom, FocusDirection::Left), Some(left));
    let middle = layout.split(top, Axis::Horizontal).unwrap();
    assert_eq!(layout.neighbor(bounds, metrics(), left, FocusDirection::Right), Some(middle));
}

#[test]
fn intervals_overlap() {
    assert!(rects_overlap_1d(px(0.), px(10.), px(9.), px(5.)));
    assert!(!rects_overlap_1d(px(0.), px(10.), px(10.), px(5.)));
    assert!(!rects_overlap_1d(px(10.), px(5.), px(0.), px(10.)));
    assert!(!rects_overlap_1d(px(f32::NAN), px(5.), px(0.), px(10.)));
}

#[test]
fn rectangles() {
    let part = rect(10., 20., 30., 40.);
    assert!(part.contains(px(10.), px(20.)));
    assert!(part.contains(px(39.), px(59.)));
    assert!(!part.contains(px(40.), px(59.)));
    assert!(!part.contains(px(39.), px(60.)));
    assert!(!part.contains(px(9.), px(20.)));
    assert!(!part.contains(px(f32::NAN), px(20.)));
    assert_eq!(part.inflate(px(4.)), rect(6., 16., 38., 48.));
    assert_eq!(part.center(), (px(25.), px(40.)));
}

#[test]
fn bar_follows_pointer() {
    // 113 pixels are available, and each side keeps 14 of them.
    for pointer in -30..200 {
        let offset = pointer - 3;
        let line = if offset <= 0 { 0 } else { (2 * offset + 7) / 14 * 7 };
        let target = line.clamp(14, 99);
        let ratio =
            ratio_from_pointer(bounds(), Axis::Vertical, metrics(), px(pointer as f32), px(0.));
        let (first, bar, _) = split_rect(bounds(), Axis::Vertical, ratio, metrics());
        let length = value(first.width) as i32;
        assert!(length <= target && length >= (target / 7 - 1) * 7);
        assert_eq!(value(bar.x), 3. + length as f32);
    }
}

#[test]
fn drag_takes_pointed_ratio() {
    let (mut layout, _) = nested();
    let before = layout.compute(bounds(), metrics());
    // The first bar divides the left half of the window.
    let half = Rect { width: before.bars[0].rect.width, ..bounds() };
    assert!(layout.drag_split(before.bars[0].id, bounds(), metrics(), px(0.), px(70.)));
    let ratio = ratio_from_pointer(half, Axis::Horizontal, metrics(), px(0.), px(70.));
    let (first, bar, second) = split_rect(half, Axis::Horizontal, ratio, metrics());
    let after = layout.compute(bounds(), metrics());
    assert_eq!(after.leaves[0].rect, first);
    assert_eq!(after.bars[0].rect, bar);
    assert_eq!(after.leaves[1].rect, second);
}

#[test]
fn finite_windows_can_be_dragged() {
    let (mut layout, _) = nested();
    let bars = layout.compute(bounds(), metrics()).bars;
    for extent in [0., 0.3, 7.5, 33.3, 1234.5, 1e20, f32::MAX, f32::NAN] {
        for cell in [0., 0.1, 7., 1e30, f32::INFINITY] {
            let bounds = rect(0.25, 0.25, extent, extent);
            let metrics = LayoutMetrics::from_cell_size(px(cell), px(cell));
            for bar in &bars {
                assert!(layout.can_drag(bar.id, bounds, metrics));
                layout.drag_split(bar.id, bounds, metrics, px(11.1), px(f32::NAN));
            }
        }
    }
}

#[test]
fn thick_bar_reaches_outside() {
    // A rectangle shorter than its bar is thick: the bar does not fit.
    let narrow = rect(0., 0., 5., 50.);
    let (_, bar, _) = split_rect(narrow, Axis::Vertical, px(0.5), metrics());
    assert!(bar.contains(px(6.), px(1.)) && !narrow.contains(px(6.), px(1.)));
}

#[test]
fn ratio_grows_with_pointer() {
    for bounds in [bounds(), rect(0.3, 0.7, 97.1, 33.3)] {
        for axis in [Axis::Vertical, Axis::Horizontal] {
            let ratio = |pointer: f32, other: f32| match axis {
                Axis::Vertical => {
                    ratio_from_pointer(bounds, axis, metrics(), px(pointer), px(other))
                },
                Axis::Horizontal => {
                    ratio_from_pointer(bounds, axis, metrics(), px(other), px(pointer))
                },
            };
            let mut last = value(ratio(f32::MIN, 0.));
            assert!(last > 0.);
            for step in -100..400 {
                let next = value(ratio(step as f32 * 0.45, 0.));
                assert!(last <= next);
                assert_eq!(next, value(ratio(step as f32 * 0.45, 77.)));
                last = next;
            }
            assert!(last <= value(ratio(f32::MAX, 0.)));
            assert!(value(ratio(f32::MAX, 0.)) < 1.);
        }
    }
    let flat = rect(0., 0., 5., 5.);
    assert_eq!(ratio_from_pointer(flat, Axis::Vertical, metrics(), px(3.), px(3.)), px(0.5));
}

#[test]
fn exact_sums_tile() {
    // Quarter pixels, and an origin left of and above the window.
    let bounds = rect(-33.5, -7.25, 120.25, 90.5);
    let metrics = LayoutMetrics::from_cell_size(px(7.25), px(13.5));
    let (layout, _) = nested();
    let geometry = layout.compute(bounds, metrics);
    for x in -160..400 {
        for y in -40..360 {
            let (x, y) = (px(x as f32 / 4.), px(y as f32 / 4.));
            let panes = geometry.leaves.iter().filter(|leaf| leaf.rect.contains(x, y)).count();
            let bars = geometry.bars.iter().filter(|bar| bar.rect.contains(x, y)).count();
            assert_eq!(panes + bars, if bounds.contains(x, y) { 1 } else { 0 });
        }
    }
}

#[test]
fn split_keeps_the_rest() {
    let (mut layout, panes) = nested();
    let before = layout.compute(bounds(), metrics());
    layout.split(panes[1], Axis::Vertical).unwrap();
    let after = layout.compute(bounds(), metrics());
    let (first, bar, second) =
        split_rect(before.leaves[1].rect, Axis::Vertical, px(0.5), metrics());
    assert_eq!(after.leaves[..1], before.leaves[..1]);
    assert_eq!((after.leaves[1].rect, after.leaves[2].rect), (first, second));
    assert_eq!(after.leaves[3..], before.leaves[2..]);
    assert_eq!(after.bars[..1], before.bars[..1]);
    assert_eq!(after.bars[1].rect, bar);
    assert_eq!(after.bars[2..], before.bars[1..]);
}

#[test]
fn close_keeps_the_rest() {
    let (mut layout, panes) = nested();
    let before = layout.compute(bounds(), metrics());
    layout.close(panes[2]).unwrap();
    let after = layout.compute(bounds(), metrics());
    assert_eq!(after.leaves[..2], before.leaves[..2]);
    assert_eq!(after.bars[..], before.bars[..2]);
    // The sibling takes the whole right half.
    let whole = after.leaves[2];
    assert_eq!(whole.id, panes[3]);
    let half = before.bars[2].rect;
    assert_eq!((whole.rect.x, whole.rect.width), (half.x, half.width));
    assert_eq!((whole.rect.y, whole.rect.height), (bounds().y, bounds().height));
}

#[test]
fn drag_keeps_the_rest() {
    let (mut layout, _) = nested();
    let before = layout.compute(bounds(), metrics());
    assert!(layout.drag_split(before.bars[2].id, bounds(), metrics(), px(0.), px(20.)));
    let after = layout.compute(bounds(), metrics());
    assert_eq!(after.leaves[..2], before.leaves[..2]);
    assert_eq!(after.bars[..2], before.bars[..2]);
    assert_ne!(after.leaves[2..], before.leaves[2..]);
    assert_ne!(after.bars[2], before.bars[2]);
}

#[test]
fn focus_moves_back() {
    let (mut layout, panes) = nested();
    layout.split(panes[2], Axis::Vertical).unwrap();
    layout.split(panes[1], Axis::Horizontal).unwrap();
    let geometry = layout.compute(bounds(), metrics());
    let distance = |a: PaneId, b: PaneId| {
        let (ax, ay) = geometry.leaf(a).unwrap().rect.center();
        let (bx, by) = geometry.leaf(b).unwrap().rect.center();
        let (dx, dy) = (value(bx) - value(ax), value(by) - value(ay));
        dx * dx + dy * dy
    };
    let ways = [
        (FocusDirection::Left, FocusDirection::Right),
        (FocusDirection::Right, FocusDirection::Left),
        (FocusDirection::Up, FocusDirection::Down),
        (FocusDirection::Down, FocusDirection::Up),
    ];
    let mut moves = 0;
    for from in ids(&geometry) {
        for (there, opposite) in ways {
            if let Some(to) = layout.neighbor(bounds(), metrics(), from, there) {
                let back = layout.neighbor(bounds(), metrics(), to, opposite).unwrap();
                assert!(distance(to, back) <= distance(from, to));
                moves += 1;
            }
        }
    }
    assert!(moves >= 8);
}
