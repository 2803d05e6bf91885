use wmfocus::hints::{generate_hints, get_next_hint, HintError};

#[test]
fn test_next_hint_takes_last_unused_candidate() {
    // candidates of length 2 over the reversed alphabet "ba" run
    // "bb", "ba", "ab", "aa"; the last unused one wins
    let hint = get_next_hint(vec![], "ab", 3).unwrap();
    assert_eq!(hint, "aa");

    let taken = "aa".to_string();
    let hint = get_next_hint(vec![&taken], "ab", 3).unwrap();
    assert_eq!(hint, "ab");
}

#[test]
fn test_next_hint_fails_without_alphabet() {
    assert_eq!(get_next_hint(vec![], "", 0), Err(HintError::NoHintChars));
}

#[test]
fn test_generate_hints_three_windows_two_chars() {
    // 2^1 = 2 < 3, so the hint length becomes 2 (2^2 = 4 >= 3)
    let hints = generate_hints(3, "ab").unwrap();
    assert_eq!(hints, vec!["aa", "ab", "ba"]);
    assert!(hints.iter().all(|h| h.len() == 2));
}

#[test]
fn test_generate_hints_distinct_and_sized() {
    let hints = generate_hints(5, "sadfjklewcmpgh").unwrap();
    assert_eq!(hints.len(), 5);
    for h in &hints {
        assert_eq!(h.len(), 1);
    }
    for p in 0..hints.len() {
        for q in p + 1..hints.len() {
            assert_ne!(hints[p], hints[q]);
        }
    }
}

#[test]
fn test_generate_hints_length_grows_with_count() {
    let hints = generate_hints(17, "ab").unwrap();
    assert_eq!(hints.len(), 17);
    for h in &hints {
        assert_eq!(h.len(), 5);
    }
    for p in 0..hints.len() {
        for q in p + 1..hints.len() {
            assert_ne!(hints[p], hints[q]);
        }
    }
}

#[test]
fn test_generate_hints_none_for_no_windows() {
    assert_eq!(generate_hints(0, "ab").unwrap(), Vec::<String>::new());
}
