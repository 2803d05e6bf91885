use wmfocus::engine::{remove_last_key, KeyAction, SelectionEngine};
use wmfocus::hints::generate_hints;
use wmfocus::sequence::Sequence;
use wmfocus::windows::{DesktopWindow, RenderWindow};

fn window_at(id: i64, x: i32, y: i32) -> DesktopWindow {
    DesktopWindow {
        id,
        x_window_id: Some(1000 + id as i32),
        pos: (x, y),
        size: (100, 50),
        is_focused: false,
    }
}

fn engine_for_three_windows(exit_keys: Vec<Sequence>, print_only: bool) -> SelectionEngine {
    let windows = vec![window_at(1, 0, 0), window_at(2, 200, 0), window_at(3, 400, 0)];
    let hints = generate_hints(windows.len(), "ab").unwrap();
    let mut entries: Vec<(String, RenderWindow)> = Vec::new();
    for (hint, dw) in hints.into_iter().zip(windows.into_iter()) {
        let rect = (dw.pos.0, dw.pos.1, 40, 20);
        entries.push((hint, RenderWindow { desktop_window: dw, rect }));
    }
    SelectionEngine::new(entries, "ab".to_string(), exit_keys, print_only)
}

#[test]
fn test_prefix_narrows_then_selects() {
    // hints are "aa", "ab", "ba"; typing 'b' leaves only "ba" possible
    let mut engine = engine_for_three_windows(vec![], false);
    let action = engine.handle_key_press("b");
    assert!(matches!(action, KeyAction::Redraw));
    engine.handle_key_release("b");
    let action = engine.handle_key_press("a");
    match action {
        KeyAction::Focus(w) => assert_eq!(w.id, 3),
        other => panic!("expected a focus decision, got {:?}", other),
    }
}

#[test]
fn test_print_only_reports_instead_of_focusing() {
    let mut engine = engine_for_three_windows(vec![], true);
    engine.handle_key_press("a");
    engine.handle_key_release("a");
    let action = engine.handle_key_press("a");
    match action {
        KeyAction::Print(w) => {
            assert_eq!(w.id, 1);
            assert_eq!(w.x_window_id, Some(1001));
        },
        other => panic!("expected a print decision, got {:?}", other),
    }
}

#[test]
fn test_exit_chord_aborts() {
    let exit = vec![Sequence::new(Some("Control_L+g"))];
    let mut engine = engine_for_three_windows(exit, false);
    // hold Control_L, then press g while it is held
    let action = engine.handle_key_press("Control_L");
    assert!(matches!(action, KeyAction::Wait));
    let action = engine.handle_key_press("g");
    assert!(matches!(action, KeyAction::Abort));
}

#[test]
fn test_exit_chord_aborts_despite_typed_prefix() {
    let exit = vec![Sequence::new(Some("Control_L+g"))];
    let mut engine = engine_for_three_windows(exit, false);
    let action = engine.handle_key_press("b");
    assert!(matches!(action, KeyAction::Redraw));
    engine.handle_key_release("b");
    engine.handle_key_press("Control_L");
    let action = engine.handle_key_press("g");
    assert!(matches!(action, KeyAction::Abort));
}

#[test]
fn test_escape_aborts() {
    let mut engine = engine_for_three_windows(vec![], false);
    let action = engine.handle_key_press("Escape");
    assert!(matches!(action, KeyAction::Abort));
}

#[test]
fn test_dead_end_aborts_without_exit_keys() {
    let mut engine = engine_for_three_windows(vec![], false);
    engine.handle_key_press("b");
    engine.handle_key_release("b");
    let action = engine.handle_key_press("b");
    // no hint starts with "bb": the run is over
    assert!(matches!(action, KeyAction::Abort));
}

#[test]
fn test_dead_end_waits_when_exit_keys_configured() {
    let exit = vec![Sequence::new(Some("Control_L+g"))];
    let mut engine = engine_for_three_windows(exit, false);
    engine.handle_key_press("b");
    engine.handle_key_release("b");
    let action = engine.handle_key_press("b");
    assert!(matches!(action, KeyAction::Wait));
    // the rollback leaves "b" typed, so the hint "ba" can still be reached
    assert_eq!(engine.pressed().as_str(), "b");
}

#[test]
fn test_modifier_keystroke_rolls_prefix_back() {
    let mut engine = engine_for_three_windows(vec![], false);
    engine.handle_key_press("b");
    // 'a' pressed while 'b' is still held: part of a chord, not a hint key
    let action = engine.handle_key_press("a");
    assert!(matches!(action, KeyAction::Wait));
    assert_eq!(engine.pressed().as_str(), "b");
}

#[test]
fn test_remove_last_key() {
    let mut pressed = "ba".to_string();
    remove_last_key(&mut pressed, "a");
    assert_eq!(pressed, "b");
    let mut pressed = "ba".to_string();
    remove_last_key(&mut pressed, "x");
    assert_eq!(pressed, "ba");
}
