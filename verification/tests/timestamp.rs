use rust_can::asc::parse::parse_line;
use rust_can::asc::timestamp::parse_timestamp_ns;
use rust_can::event::LogEvent;

fn ts(token: &str) -> Option<i64> {
    parse_timestamp_ns(token.as_bytes())
}

fn unknown_timestamp(line: &str) -> Option<i64> {
    match parse_line(line).expect("line should parse").expect("line should be an event") {
        LogEvent::Unknown(unknown) => {
            assert_eq!(unknown.kind, "FlexRay");
            assert_eq!(unknown.raw, line);
            unknown.timestamp_ns
        }
        _ => panic!("expected unknown event"),
    }
}

#[test]
fn exponent_timestamp_gives_unknown_event() {
    assert_eq!(unknown_timestamp("1e-3 FlexRay 1 2 3"), Some(1_000_000));
}

#[test]
fn infinite_and_nan_timestamps_give_unknown_events() {
    assert_eq!(unknown_timestamp("inf FlexRay 1 2 3"), Some(i64::MAX));
    assert_eq!(unknown_timestamp("-Infinity FlexRay 1 2 3"), Some(i64::MIN));
    assert_eq!(unknown_timestamp("NaN FlexRay 1 2 3"), Some(0));
}

#[test]
fn exponent_timestamp_on_a_classic_frame() {
    match parse_line("8E-5 2 1D1 Rx d 1 0A").expect("line should parse").expect("event") {
        LogEvent::Can(frame) => assert_eq!(frame.timestamp_ns, 80_000),
        _ => panic!("expected CAN event"),
    }
}

#[test]
fn decimal_timestamps() {
    assert_eq!(ts("0.000080"), Some(80_000));
    assert_eq!(ts("12"), Some(12_000_000_000));
    assert_eq!(ts(".5"), Some(500_000_000));
    assert_eq!(ts("5."), Some(5_000_000_000));
    assert_eq!(ts("+1.25"), Some(1_250_000_000));
    assert_eq!(ts("-0.000000001"), Some(-1));
    assert_eq!(ts("-0"), Some(0));
}

#[test]
fn exponent_timestamps() {
    assert_eq!(ts("1.5E2"), Some(150_000_000_000));
    assert_eq!(ts("1e-3"), Some(1_000_000));
    assert_eq!(ts("25e-10"), Some(3));
    assert_eq!(ts("-25e-10"), Some(-3));
    assert_eq!(ts("24e-10"), Some(2));
    assert_eq!(ts("1e+0"), Some(1_000_000_000));
    assert_eq!(ts("0.5e-9"), Some(1));
    assert_eq!(ts("0.4e-9"), Some(0));
}

#[test]
fn rounding_goes_through_the_nearest_binary64_value() {
    assert_eq!(ts("75e-10"), Some(7));
    assert_eq!(ts("266.9849069395"), Some(266_984_906_939));
    assert_eq!(ts("4.5e-9"), Some(5));
}

#[test]
fn rounding_to_nanoseconds() {
    assert_eq!(ts("0.0000000015"), Some(2));
    assert_eq!(ts("0.0000000014999"), Some(1));
    assert_eq!(ts("-0.0000000015"), Some(-2));
}

#[test]
fn saturating_timestamps() {
    assert_eq!(ts("1e300"), Some(i64::MAX));
    assert_eq!(ts("-1e300"), Some(i64::MIN));
    assert_eq!(ts("1e-300"), Some(0));
    assert_eq!(ts("0e999999999999999999999999"), Some(0));
    assert_eq!(ts("9223372036.854775807"), Some(i64::MAX));
    assert_eq!(ts("-9223372036.854775808"), Some(i64::MIN));
    assert_eq!(ts("9223372036.854775806"), Some(i64::MAX));
    assert_eq!(ts("9223372036.854775"), Some(9_223_372_036_854_774_784));
    assert_eq!(ts("9223372035.854775807"), Some(9_223_372_035_854_776_320));
    assert_eq!(ts("1.7976931348623157e308"), Some(i64::MAX));
    assert_eq!(ts("2e308"), Some(i64::MAX));
    assert_eq!(ts("1e99999999999999999999999"), Some(i64::MAX));
    assert_eq!(ts("1e-99999999999999999999999"), Some(0));
}

#[test]
fn special_spellings() {
    assert_eq!(ts("inf"), Some(i64::MAX));
    assert_eq!(ts("+INF"), Some(i64::MAX));
    assert_eq!(ts("-inf"), Some(i64::MIN));
    assert_eq!(ts("infinity"), Some(i64::MAX));
    assert_eq!(ts("-InFiNiTy"), Some(i64::MIN));
    assert_eq!(ts("nan"), Some(0));
    assert_eq!(ts("-NAN"), Some(0));
}

#[test]
fn rejected_tokens() {
    for token in ["", "+", "-", ".", "e5", "1e", "1e+", "1.2.3", "1x", "infin", "nana", "--1", "1e5.0", " 1"] {
        assert_eq!(ts(token), None, "{token}");
    }
}
