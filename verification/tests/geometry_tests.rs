use wmfocus::geometry::intersects;
use wmfocus::windows::{
    find_overlaps, hint_position, nudge_rect, sort_by_pos, DesktopWindow, RenderWindow,
};
use wmfocus::config::{HorizontalAlign, Offset, VerticalAlign};

fn window_at(id: i64, x: i32, y: i32) -> DesktopWindow {
    DesktopWindow {
        id,
        x_window_id: Some(id as i32),
        pos: (x, y),
        size: (100, 50),
        is_focused: false,
    }
}

#[test]
fn test_intersects() {
    assert!(intersects((1905, 705, 31, 82), (1905, 723, 38, 64)));
}

#[test]
fn test_no_intersect() {
    assert!(!intersects((1905, 705, 31, 82), (2000, 723, 38, 64)));
}

#[test]
fn test_touching_edges_do_not_intersect() {
    assert!(!intersects((0, 0, 10, 10), (10, 0, 10, 10)));
    assert!(!intersects((0, 0, 10, 10), (0, 10, 10, 10)));
}

#[test]
fn test_find_overlaps_keeps_order() {
    let a = RenderWindow { desktop_window: window_at(1, 0, 0), rect: (0, 0, 50, 20) };
    let b = RenderWindow { desktop_window: window_at(2, 0, 0), rect: (200, 0, 50, 20) };
    let c = RenderWindow { desktop_window: window_at(3, 0, 0), rect: (30, 0, 50, 20) };
    let overlaps = find_overlaps(vec![&a, &b, &c], (10, 5, 50, 20));
    assert_eq!(overlaps, vec![(0, 0, 50, 20), (30, 0, 50, 20)]);
}

#[test]
fn test_nudge_moves_candidate_clear() {
    let placed = vec![RenderWindow { desktop_window: window_at(1, 0, 0), rect: (0, 0, 50, 20) }];
    let nudged = nudge_rect(&placed, (10, 5, 50, 20));
    assert_eq!(nudged, (60, 5, 50, 20));
    assert!(!intersects((0, 0, 50, 20), nudged));
}

#[test]
fn test_nudge_leaves_clear_candidate_alone() {
    let placed = vec![RenderWindow { desktop_window: window_at(1, 0, 0), rect: (0, 0, 50, 20) }];
    let nudged = nudge_rect(&placed, (100, 5, 50, 20));
    assert_eq!(nudged, (100, 5, 50, 20));
}

#[test]
fn test_sort_by_pos_rows_then_columns() {
    let sorted = sort_by_pos(vec![
        window_at(1, 500, 100),
        window_at(2, 0, 100),
        window_at(3, 250, 0),
    ]);
    let ids: Vec<i64> = sorted.iter().map(|w| w.id).collect();
    assert_eq!(ids, vec![3, 2, 1]);
}

#[test]
fn test_hint_position_alignments() {
    let dw = window_at(1, 100, 200);
    let offset = Offset { x: 3, y: 4 };
    assert_eq!(
        hint_position(&dw, 20, 10, HorizontalAlign::Left, VerticalAlign::Top, &offset),
        (103, 204)
    );
    assert_eq!(
        hint_position(&dw, 20, 10, HorizontalAlign::Center, VerticalAlign::Center, &offset),
        (140, 220)
    );
    assert_eq!(
        hint_position(&dw, 20, 10, HorizontalAlign::Right, VerticalAlign::Bottom, &offset),
        (177, 236)
    );
}
