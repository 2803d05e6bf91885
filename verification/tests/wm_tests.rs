use wmfocus::wm::{crawl_windows, find_parent_of, find_workspace_node, WmDialect, WmError, WmLayout, WmNode};

fn leaf(id: i64, window: Option<i32>, rect: (i32, i32, i32, i32), deco: (i32, i32, i32, i32)) -> WmNode {
    WmNode {
        id,
        name: None,
        is_workspace: false,
        layout: WmLayout::Other,
        window,
        rect,
        deco_rect: deco,
        focused: false,
        nodes: vec![],
        floating_nodes: vec![],
    }
}

fn branch(id: i64, name: Option<&str>, is_workspace: bool, layout: WmLayout, nodes: Vec<WmNode>) -> WmNode {
    WmNode {
        id,
        name: name.map(|s| s.to_string()),
        is_workspace,
        layout,
        window: None,
        rect: (0, 0, 1920, 1080),
        deco_rect: (0, 0, 0, 0),
        focused: false,
        nodes,
        floating_nodes: vec![],
    }
}

fn sample_tree(ws_layout: WmLayout) -> WmNode {
    let win_a = leaf(30, Some(111), (0, 0, 500, 300), (5, 2, 123, 20));
    let win_b = leaf(40, Some(222), (500, 0, 500, 300), (0, 0, 500, 20));
    let ws = branch(20, Some("1"), true, ws_layout, vec![win_a, win_b]);
    let output = branch(10, Some("eDP-1"), false, WmLayout::Other, vec![ws]);
    branch(0, None, false, WmLayout::Other, vec![output])
}

#[test]
fn test_find_workspace_node() {
    let root = sample_tree(WmLayout::Other);
    let ws = find_workspace_node(&root, "1").expect("workspace should be found");
    assert_eq!(ws.id, 20);
    assert!(find_workspace_node(&root, "2").is_none());
}

#[test]
fn test_find_parent_of() {
    let root = sample_tree(WmLayout::Other);
    let parent = find_parent_of(&root, 30).expect("the window has a parent");
    assert_eq!(parent.id, 20);
    // the search never reports the root itself
    assert!(find_parent_of(&root, 10).is_none());
}

#[test]
fn test_crawl_windows_default_layout() {
    let root = sample_tree(WmLayout::Other);
    let windows = crawl_windows(&root, "1", WmDialect::I3).unwrap();
    assert_eq!(windows.len(), 2);
    assert_eq!(windows[0].id, 30);
    assert_eq!(windows[0].x_window_id, Some(111));
    // the window top edge sits below its decoration row
    assert_eq!(windows[0].pos, (0, 20));
    assert_eq!(windows[0].size, (500, 320));
    assert_eq!(windows[1].pos, (500, 20));
}

#[test]
fn test_crawl_windows_tabbed_parent() {
    let root = sample_tree(WmLayout::Tabbed);
    let windows = crawl_windows(&root, "1", WmDialect::I3).unwrap();
    // a tabbed parent draws each child inside the decoration row
    assert_eq!(windows[0].pos, (5, 20));
    assert_eq!(windows[0].size, (123, 320));
}

#[test]
fn test_crawl_windows_stacked_parent() {
    let root = sample_tree(WmLayout::Stacked);
    let windows = crawl_windows(&root, "1", WmDialect::I3).unwrap();
    // a stacked parent offsets each child from its own top edge
    assert_eq!(windows[0].pos, (0, 2));
}

#[test]
fn test_crawl_windows_sway_offsets_upward() {
    let root = sample_tree(WmLayout::Other);
    let windows = crawl_windows(&root, "1", WmDialect::Sway).unwrap();
    assert_eq!(windows[0].pos, (0, -20));
}

#[test]
fn test_crawl_windows_missing_workspace() {
    let root = sample_tree(WmLayout::Other);
    assert!(matches!(crawl_windows(&root, "9", WmDialect::I3), Err(WmError::WorkspaceNotFound)));
}
