use live_counter::codec::{encode_event, parse_event};

fn bytes(s: &str) -> Vec<u8> {
    s.as_bytes().to_vec()
}

#[test]
fn encode_exact_values() {
    assert_eq!(encode_event(0), bytes("0"));
    assert_eq!(encode_event(1), bytes("1"));
    assert_eq!(encode_event(-1), bytes("-1"));
    assert_eq!(encode_event(42), bytes("42"));
    assert_eq!(encode_event(-105), bytes("-105"));
    assert_eq!(encode_event(i32::MAX), bytes("2147483647"));
    assert_eq!(encode_event(i32::MIN), bytes("-2147483648"));
}

#[test]
fn round_trip_is_identity() {
    for v in [0, 1, -1, 7, -10, 100, -12345, i32::MAX, i32::MIN, i32::MAX - 1, i32::MIN + 1] {
        assert_eq!(parse_event(&encode_event(v)), Some(v));
    }
}

#[test]
fn parse_exact_values() {
    assert_eq!(parse_event(&bytes("0")), Some(0));
    assert_eq!(parse_event(&bytes("9")), Some(9));
    assert_eq!(parse_event(&bytes("10")), Some(10));
    assert_eq!(parse_event(&bytes("-8")), Some(-8));
    assert_eq!(parse_event(&bytes("2147483647")), Some(i32::MAX));
    assert_eq!(parse_event(&bytes("-2147483648")), Some(i32::MIN));
}

#[test]
fn parse_rejects_out_of_range() {
    assert_eq!(parse_event(&bytes("2147483648")), None);
    assert_eq!(parse_event(&bytes("-2147483649")), None);
    assert_eq!(parse_event(&bytes("99999999999999999999")), None);
    assert_eq!(parse_event(&bytes("-99999999999999999999")), None);
}

#[test]
fn parse_rejects_non_canonical() {
    assert_eq!(parse_event(&bytes("")), None);
    assert_eq!(parse_event(&bytes("-")), None);
    assert_eq!(parse_event(&bytes("-0")), None);
    assert_eq!(parse_event(&bytes("01")), None);
    assert_eq!(parse_event(&bytes("-01")), None);
    assert_eq!(parse_event(&bytes("+1")), None);
    assert_eq!(parse_event(&bytes("12a")), None);
    assert_eq!(parse_event(&bytes("1.5")), None);
    assert_eq!(parse_event(&bytes(" 1")), None);
    assert_eq!(parse_event(&bytes("--1")), None);
}
