use wmfocus::sequence::Sequence;

#[test]
fn test_sequences_equal() {
    let a = Sequence::new(Some("Control_L+Shift_L+a"));
    let b = Sequence::new(Some("Control_L+a+Shift_L"));

    assert_eq!(a, b);

    let mut c = Sequence::new(None);

    c.push("Shift_L".to_owned());
    c.push("Control_L".to_owned());
    c.push("a".to_owned());

    assert_eq!(a, c);
}

#[test]
fn test_sequences_not_equal() {
    let a = Sequence::new(Some("Control_L+Shift_L+a"));
    let b = Sequence::new(Some("Control_L+a"));

    assert_ne!(a, b);

    let mut c = Sequence::new(None);

    c.push("Shift_L".to_owned());
    c.push("a".to_owned());

    assert_ne!(a, c);
}

#[test]
fn test_sequences_is_started() {
    let mut sequence = Sequence::new(None);
    assert!(!sequence.is_started());

    sequence.push("Control_L".to_owned());
    assert!(!sequence.is_started());

    sequence.push("g".to_owned());
    assert!(sequence.is_started());

    sequence.remove("g");

    assert!(!sequence.is_started());
}

#[test]
fn test_push_then_remove_round_trips() {
    let original = Sequence::new(Some("Control_L+Shift_L"));
    let mut s = Sequence::new(Some("Control_L+Shift_L"));
    s.push("Control_L".to_owned());
    s.remove("Control_L");
    assert_eq!(s, original);

    let empty = Sequence::new(None);
    let mut t = Sequence::new(None);
    t.push("x".to_owned());
    t.remove("x");
    assert_eq!(t, empty);
}

#[test]
fn test_construction_order_is_immaterial() {
    let parsed = Sequence::new(Some("b+a+c"));
    let mut forward = Sequence::new(None);
    forward.push("a".to_owned());
    forward.push("b".to_owned());
    forward.push("c".to_owned());
    let mut backward = Sequence::new(None);
    backward.push("c".to_owned());
    backward.push("b".to_owned());
    backward.push("a".to_owned());
    assert_eq!(parsed, forward);
    assert_eq!(parsed, backward);
}

#[test]
fn test_case_insensitive_ordering() {
    // tokens sort by their case-folded names: "b" lands between "A" and "C"
    let a = Sequence::new(Some("C+b+A"));
    let mut b = Sequence::new(None);
    b.push("b".to_owned());
    b.push("A".to_owned());
    b.push("C".to_owned());
    assert_eq!(a, b);
}

#[test]
fn test_remove_drops_one_occurrence() {
    let mut s = Sequence::new(Some("g+g"));
    assert!(s.is_started());
    s.remove("g");
    assert!(!s.is_started());
    assert_eq!(s, Sequence::new(Some("g")));
}
