use geolocation::parse_coordinate;

#[test]
fn plain_decimals_are_scaled_to_units() {
    assert_eq!(parse_coordinate("13.7563"), Some(137_563_000));
    assert_eq!(parse_coordinate("100.5018"), Some(1_005_018_000));
    assert_eq!(parse_coordinate("13.0"), Some(130_000_000));
    assert_eq!(parse_coordinate("0"), Some(0));
    assert_eq!(parse_coordinate("0.0000001"), Some(1));
    assert_eq!(parse_coordinate("1"), Some(10_000_000));
    assert_eq!(parse_coordinate("007.5"), Some(75_000_000));
}

#[test]
fn signs_are_read() {
    assert_eq!(parse_coordinate("-0.5"), Some(-5_000_000));
    assert_eq!(parse_coordinate("+100"), Some(1_000_000_000));
    assert_eq!(parse_coordinate("-13.7563"), Some(-137_563_000));
    assert_eq!(parse_coordinate("-0"), Some(0));
    assert_eq!(parse_coordinate("-0.0"), Some(0));
}

#[test]
fn point_may_stand_first_or_last() {
    assert_eq!(parse_coordinate(".25"), Some(2_500_000));
    assert_eq!(parse_coordinate("7."), Some(70_000_000));
    assert_eq!(parse_coordinate("-.5"), Some(-5_000_000));
    assert_eq!(parse_coordinate("+7."), Some(70_000_000));
}

#[test]
fn digits_beyond_the_seventh_place_are_dropped() {
    assert_eq!(parse_coordinate("1.23456789"), Some(12_345_678));
    assert_eq!(parse_coordinate("-1.23456789"), Some(-12_345_678));
    assert_eq!(parse_coordinate("0.00000009"), Some(0));
    assert_eq!(parse_coordinate("0.99999999999999999999999999"), Some(9_999_999));
    assert_eq!(parse_coordinate("13.756300000000000000000000001"), Some(137_563_000));
}

#[test]
fn range_ends_at_the_limits_of_the_integer() {
    assert_eq!(parse_coordinate("922337203685.4775807"), Some(i64::MAX));
    assert_eq!(parse_coordinate("922337203685.4775808"), None);
    assert_eq!(parse_coordinate("-922337203685.4775808"), Some(i64::MIN));
    assert_eq!(parse_coordinate("-922337203685.4775809"), None);
    assert_eq!(parse_coordinate("922337203685.47758079"), Some(i64::MAX));
    assert_eq!(parse_coordinate("9223372036854775807e-7"), Some(i64::MAX));
    assert_eq!(parse_coordinate("9223372036854775808e-7"), None);
    assert_eq!(parse_coordinate("-9223372036854775808e-7"), Some(i64::MIN));
    assert_eq!(parse_coordinate("922337203686"), None);
    assert_eq!(parse_coordinate("-922337203686"), None);
    assert_eq!(parse_coordinate("99999999999999999999999999999999999999"), None);
    assert_eq!(parse_coordinate("000000000000000000000000000000000214.5"), Some(2_145_000_000));
}

#[test]
fn degrees_beyond_the_globe_are_coordinates() {
    assert_eq!(parse_coordinate("214.7483648"), Some(2_147_483_648));
    assert_eq!(parse_coordinate("-214.7483649"), Some(-2_147_483_649));
    assert_eq!(parse_coordinate("400"), Some(4_000_000_000));
    assert_eq!(parse_coordinate("500.0"), Some(5_000_000_000));
    assert_eq!(parse_coordinate("-1000"), Some(-10_000_000_000));
}

#[test]
fn exponents_move_the_point() {
    assert_eq!(parse_coordinate("1e1"), Some(100_000_000));
    assert_eq!(parse_coordinate("1e2"), Some(1_000_000_000));
    assert_eq!(parse_coordinate("1.5E-3"), Some(15_000));
    assert_eq!(parse_coordinate("+2e0"), Some(20_000_000));
    assert_eq!(parse_coordinate("-2.5e+1"), Some(-250_000_000));
    assert_eq!(parse_coordinate("1.37563e1"), Some(137_563_000));
    assert_eq!(parse_coordinate("137563e-4"), Some(137_563_000));
    assert_eq!(parse_coordinate("1005018E-4"), Some(1_005_018_000));
    assert_eq!(parse_coordinate(".5e1"), Some(50_000_000));
    assert_eq!(parse_coordinate("5.e1"), Some(500_000_000));
    assert_eq!(parse_coordinate("1e-7"), Some(1));
    assert_eq!(parse_coordinate("1e-8"), Some(0));
    assert_eq!(parse_coordinate("19e-8"), Some(1));
    assert_eq!(parse_coordinate("123456789e-10"), Some(123_456));
    assert_eq!(parse_coordinate("0.000123456789e3"), Some(1_234_567));
    assert_eq!(parse_coordinate("1e00000000000000000000000000000000000001"), Some(100_000_000));
    assert_eq!(parse_coordinate("1e-0"), Some(10_000_000));
    assert_eq!(parse_coordinate("1e+0"), Some(10_000_000));
}

#[test]
fn large_exponents_give_zero_or_nothing() {
    assert_eq!(parse_coordinate("1e11"), Some(1_000_000_000_000_000_000));
    assert_eq!(parse_coordinate("9e11"), Some(9_000_000_000_000_000_000));
    assert_eq!(parse_coordinate("1e12"), None);
    assert_eq!(parse_coordinate("-1e12"), None);
    assert_eq!(parse_coordinate("1e308"), None);
    assert_eq!(parse_coordinate("1e99999999999999999999999999999999999999999"), None);
    assert_eq!(parse_coordinate("0e99999999999999999999999999999999999999999"), Some(0));
    assert_eq!(parse_coordinate("0.000e99999999999999999999999999999999999999999"), Some(0));
    assert_eq!(parse_coordinate("1e-99999999999999999999999999999999999999999"), Some(0));
    assert_eq!(parse_coordinate("-7.5e-400"), Some(0));
    assert_eq!(parse_coordinate("123456789012345678901234567890e-28"), Some(123_456_789));
    assert_eq!(parse_coordinate("0.0000000000000000000000000001e29"), Some(100_000_000));
}

#[test]
fn exponent_without_number_is_no_coordinate() {
    assert_eq!(parse_coordinate("1e"), None);
    assert_eq!(parse_coordinate("1e+"), None);
    assert_eq!(parse_coordinate("1e-"), None);
    assert_eq!(parse_coordinate("e5"), None);
    assert_eq!(parse_coordinate(".e5"), None);
    assert_eq!(parse_coordinate("-e5"), None);
    assert_eq!(parse_coordinate("1e5.0"), None);
    assert_eq!(parse_coordinate("1e5e5"), None);
    assert_eq!(parse_coordinate("1e 5"), None);
    assert_eq!(parse_coordinate("1e++5"), None);
    assert_eq!(parse_coordinate("1x5"), None);
}

#[test]
fn text_without_digits_is_no_coordinate() {
    assert_eq!(parse_coordinate(""), None);
    assert_eq!(parse_coordinate("+"), None);
    assert_eq!(parse_coordinate("-"), None);
    assert_eq!(parse_coordinate("."), None);
    assert_eq!(parse_coordinate("-."), None);
}

#[test]
fn other_text_is_no_coordinate() {
    assert_eq!(parse_coordinate("abc"), None);
    assert_eq!(parse_coordinate("not-a-number"), None);
    assert_eq!(parse_coordinate("1.2.3"), None);
    assert_eq!(parse_coordinate("1,5"), None);
    assert_eq!(parse_coordinate(" 1.5"), None);
    assert_eq!(parse_coordinate("1.5 "), None);
    assert_eq!(parse_coordinate("--1"), None);
    assert_eq!(parse_coordinate("+-1"), None);
    assert_eq!(parse_coordinate("1-"), None);
    assert_eq!(parse_coordinate("1.5x"), None);
    assert_eq!(parse_coordinate("x1.5"), None);
    assert_eq!(parse_coordinate("NaN"), None);
    assert_eq!(parse_coordinate("inf"), None);
    assert_eq!(parse_coordinate("12/3"), None);
    assert_eq!(parse_coordinate("12:3"), None);
}

#[test]
fn digits_of_other_scripts_are_no_coordinate() {
    assert_eq!(parse_coordinate("\u{0E51}\u{0E53}.\u{0E57}"), None);
    assert_eq!(parse_coordinate("\u{FF11}\u{FF13}"), None);
    assert_eq!(parse_coordinate("13.7\u{00B0}"), None);
}
