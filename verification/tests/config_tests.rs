use wmfocus::config::{parse_exit_keys, parse_i32, parse_offset, Offset};
use wmfocus::sequence::Sequence;

#[test]
fn test_parse_offset_plain() {
    assert_eq!(parse_offset("1,2"), Ok(Offset { x: 1, y: 2 }));
}

#[test]
fn test_parse_offset_negative() {
    assert_eq!(parse_offset("-3,40"), Ok(Offset { x: -3, y: 40 }));
}

#[test]
fn test_parse_offset_extra_parts_ignored() {
    assert_eq!(parse_offset("1,2,3"), Ok(Offset { x: 1, y: 2 }));
}

#[test]
fn test_parse_offset_missing_part() {
    assert_eq!(
        parse_offset("12"),
        Err("Wrong coordinate format, expected x,y coordinates".to_string())
    );
}

#[test]
fn test_parse_offset_bad_x() {
    assert_eq!(parse_offset("a,2"), Err("Couldn't parse x coordinate".to_string()));
}

#[test]
fn test_parse_offset_bad_y() {
    assert_eq!(parse_offset("1,"), Err("Couldn't parse y coordinate".to_string()));
}

#[test]
fn test_parse_i32_bounds() {
    assert_eq!(parse_i32("2147483647"), Ok(2147483647));
    assert_eq!(parse_i32("-2147483648"), Ok(-2147483648));
    assert_eq!(parse_i32("2147483648"), Err(()));
    assert_eq!(parse_i32("-2147483649"), Err(()));
    assert_eq!(parse_i32("+17"), Ok(17));
    assert_eq!(parse_i32(""), Err(()));
    assert_eq!(parse_i32("-"), Err(()));
    assert_eq!(parse_i32("12a"), Err(()));
}

#[test]
fn test_parse_exit_keys_builds_chord() {
    let parsed = parse_exit_keys("Control_L+g").unwrap();
    let mut built = Sequence::new(None);
    built.push("g".to_owned());
    built.push("Control_L".to_owned());
    assert_eq!(parsed, built);
}
