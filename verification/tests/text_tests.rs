use wmfocus::text::{split_str, str_contains, str_eq, str_starts_with, strip_typed_prefix};

#[test]
fn test_str_eq() {
    assert!(str_eq("abc", "abc"));
    assert!(!str_eq("abc", "abd"));
    assert!(!str_eq("abc", "ab"));
    assert!(str_eq("", ""));
}

#[test]
fn test_str_starts_with() {
    assert!(str_starts_with("ba", "b"));
    assert!(str_starts_with("ba", ""));
    assert!(!str_starts_with("ba", "a"));
    assert!(!str_starts_with("b", "ba"));
}

#[test]
fn test_str_contains() {
    assert!(str_contains("sadfjklewcmpgh", "a"));
    assert!(str_contains("abc", ""));
    assert!(!str_contains("sadfjklewcmpgh", "Control_L"));
    assert!(str_contains("Control_L", "rol"));
}

#[test]
fn test_split_str() {
    assert_eq!(split_str("Control_L+g", '+'), vec!["Control_L", "g"]);
    assert_eq!(split_str("1,2,3", ','), vec!["1", "2", "3"]);
    assert_eq!(split_str("", ','), vec![""]);
    assert_eq!(split_str("a+", '+'), vec!["a", ""]);
}

#[test]
fn test_strip_typed_prefix() {
    assert_eq!(strip_typed_prefix("ba", "b"), "a");
    assert_eq!(strip_typed_prefix("ba", "x"), "ba");
    assert_eq!(strip_typed_prefix("ba", ""), "ba");
}
