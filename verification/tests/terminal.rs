use pane_layout::display_update::search_anchor;
use pane_layout::display_update::search_scroll;
use pane_layout::display_update::SearchAnchor;
use pane_layout::event_queue::EventQueue;
use pane_layout::event_queue::Incoming;
use pane_layout::ref_test::config_json;
use pane_layout::ref_test::size_json;

#[test]
fn anchor_without_vi_mode() {
    assert_eq!(
        search_anchor(23, 24, None, false),
        SearchAnchor { cursor_at_bottom: true, origin_at_bottom: false }
    );
    assert_eq!(
        search_anchor(22, 24, None, true),
        SearchAnchor { cursor_at_bottom: false, origin_at_bottom: true }
    );
    assert_eq!(
        search_anchor(-1, 0, None, false),
        SearchAnchor { cursor_at_bottom: true, origin_at_bottom: false }
    );
}

#[test]
fn anchor_in_vi_mode() {
    assert_eq!(
        search_anchor(0, 24, Some(23), false),
        SearchAnchor { cursor_at_bottom: false, origin_at_bottom: true }
    );
    assert_eq!(
        search_anchor(0, 24, Some(22), true),
        SearchAnchor { cursor_at_bottom: false, origin_at_bottom: false }
    );
}

#[test]
fn view_scrolls_when_a_search_starts() {
    let cursor = SearchAnchor { cursor_at_bottom: true, origin_at_bottom: false };
    let origin = SearchAnchor { cursor_at_bottom: true, origin_at_bottom: true };
    let neither = SearchAnchor { cursor_at_bottom: false, origin_at_bottom: false };
    assert_eq!(search_scroll(false, true, 0, cursor), Some(1));
    assert_eq!(search_scroll(false, true, 0, origin), None);
    assert_eq!(search_scroll(false, true, 5, origin), Some(-1));
    assert_eq!(search_scroll(false, true, 5, cursor), None);
    assert_eq!(search_scroll(false, true, 0, neither), None);
    for anchor in [cursor, origin, neither] {
        for offset in [0, 5] {
            assert_eq!(search_scroll(true, true, offset, anchor), None);
            assert_eq!(search_scroll(true, false, offset, anchor), None);
            assert_eq!(search_scroll(false, false, offset, anchor), None);
        }
    }
}

#[test]
fn events_keep_their_order() {
    let mut queue = EventQueue::new();
    assert!(queue.handle_event(Incoming::AboutToWait).is_empty());
    assert!(queue.handle_event(Incoming::RedrawRequested).is_empty());
    assert!(queue.handle_event(Incoming::Event(1)).is_empty());
    assert!(queue.handle_event(Incoming::Event(2)).is_empty());
    queue.push(3);
    assert_eq!(queue.handle_event(Incoming::AboutToWait), vec![1, 2, 3]);
    assert!(queue.handle_event(Incoming::AboutToWait).is_empty());
    assert!(queue.handle_event(Incoming::Event(4)).is_empty());
    assert_eq!(queue.handle_event(Incoming::RedrawRequested), vec![4]);
}

#[test]
fn size_is_written_as_json() {
    assert_eq!(size_json(80, 24), "{\"columns\":80,\"screen_lines\":24}");
    assert_eq!(size_json(0, 1), "{\"columns\":0,\"screen_lines\":1}");
    let most = usize::MAX;
    assert_eq!(size_json(most, 10), format!("{{\"columns\":{},\"screen_lines\":10}}", most));
}

#[test]
fn config_is_written_as_json() {
    assert_eq!(config_json(0), "{\"history_size\":0}");
    assert_eq!(config_json(10), "{\"history_size\":10}");
    assert_eq!(config_json(9876543210), "{\"history_size\":9876543210}");
    assert_eq!(config_json(usize::MAX), format!("{{\"history_size\":{}}}", usize::MAX));
}
