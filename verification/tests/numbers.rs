use rotterna_lib::number::{
    digit_to_char, is_digit_char, push_fixed, push_integer, push_natural, push_places,
    read_decimal, read_digits, read_unsigned,
};

fn text(s: &str) -> Vec<char> {
    s.chars().collect()
}

fn decimal(s: &str) -> Option<i64> {
    read_decimal(&text(s))
}

#[test]
fn decimals_are_read_in_millionths() {
    assert_eq!(decimal("0"), Some(0));
    assert_eq!(decimal("120"), Some(120_000_000));
    assert_eq!(decimal("120.000"), Some(120_000_000));
    assert_eq!(decimal("1.5"), Some(1_500_000));
    assert_eq!(decimal("0.000001"), Some(1));
    assert_eq!(decimal("128.125"), Some(128_125_000));
    assert_eq!(decimal("007.250"), Some(7_250_000));
}

#[test]
fn decimals_may_have_a_sign() {
    assert_eq!(decimal("-0.012"), Some(-12_000));
    assert_eq!(decimal("+2"), Some(2_000_000));
    assert_eq!(decimal("-120"), Some(-120_000_000));
    assert_eq!(decimal("-0"), Some(0));
}

#[test]
fn decimals_may_lack_one_side_of_the_point() {
    assert_eq!(decimal(".5"), Some(500_000));
    assert_eq!(decimal("5."), Some(5_000_000));
    assert_eq!(decimal("-.25"), Some(-250_000));
}

#[test]
fn decimals_drop_places_after_the_sixth() {
    assert_eq!(decimal("0.1234567"), Some(123_456));
    assert_eq!(decimal("0.9999999999"), Some(999_999));
    assert_eq!(decimal("-1.0000009"), Some(-1_000_000));
}

#[test]
fn what_is_no_decimal_is_refused() {
    assert_eq!(decimal(""), None);
    assert_eq!(decimal("."), None);
    assert_eq!(decimal("-"), None);
    assert_eq!(decimal("+"), None);
    assert_eq!(decimal("-."), None);
    assert_eq!(decimal("abc"), None);
    assert_eq!(decimal("1e3"), None);
    assert_eq!(decimal("1.2.3"), None);
    assert_eq!(decimal("1,5"), None);
    assert_eq!(decimal(" 1"), None);
    assert_eq!(decimal("1 "), None);
    assert_eq!(decimal("--1"), None);
    assert_eq!(decimal("1-"), None);
    assert_eq!(decimal("0.5:"), None);
    assert_eq!(decimal("inf"), None);
    assert_eq!(decimal("NaN"), None);
    assert_eq!(decimal("1.x"), None);
    assert_eq!(decimal("0.1234567x"), None);
}

#[test]
fn decimals_stay_below_one_billion() {
    assert_eq!(decimal("999999999"), Some(999_999_999_000_000));
    assert_eq!(decimal("999999999.999999"), Some(999_999_999_999_999));
    assert_eq!(decimal("-999999999.999999"), Some(-999_999_999_999_999));
    assert_eq!(decimal("1000000000"), None);
    assert_eq!(decimal("-1000000000"), None);
    assert_eq!(decimal("00000000000000000000000001"), Some(1_000_000));
    assert_eq!(decimal("99999999999999999999999999999999"), None);
}

#[test]
fn unsigned_numbers_of_32_bits() {
    assert_eq!(read_unsigned(&text("9")), Some(9));
    assert_eq!(read_unsigned(&text("0")), Some(0));
    assert_eq!(read_unsigned(&text("+7")), Some(7));
    assert_eq!(read_unsigned(&text("010")), Some(10));
    assert_eq!(read_unsigned(&text("4294967295")), Some(4_294_967_295));
    assert_eq!(read_unsigned(&text("4294967296")), None);
    assert_eq!(read_unsigned(&text("99999999999999999999999")), None);
    assert_eq!(read_unsigned(&text("")), None);
    assert_eq!(read_unsigned(&text("+")), None);
    assert_eq!(read_unsigned(&text("-1")), None);
    assert_eq!(read_unsigned(&text("9:")), None);
    assert_eq!(read_unsigned(&text("1.0")), None);
    assert_eq!(read_unsigned(&text("++1")), None);
}

#[test]
fn digits_between_two_indices() {
    let s = text("ab123cd");
    assert_eq!(read_digits(&s, 2, 5, 1000), Some(123));
    assert_eq!(read_digits(&s, 2, 5, 123), None);
    assert_eq!(read_digits(&s, 2, 5, 124), Some(123));
    assert_eq!(read_digits(&s, 1, 5, 1000), None);
    assert_eq!(read_digits(&s, 2, 6, 1000), None);
    assert_eq!(read_digits(&s, 3, 3, 1000), Some(0));
    assert_eq!(read_digits(&s, 3, 3, 0), None);
}

#[test]
fn digit_characters() {
    assert!(is_digit_char('0'));
    assert!(is_digit_char('9'));
    assert!(!is_digit_char('/'));
    assert!(!is_digit_char(':'));
    assert!(!is_digit_char('a'));
    let all: String = (0..10u64).map(digit_to_char).collect();
    assert_eq!(all, "0123456789");
}

#[test]
fn integers_are_written_in_base_ten() {
    let mut out = String::from("x=");
    push_integer(&mut out, 0);
    out.push(',');
    push_integer(&mut out, 192);
    out.push(',');
    push_integer(&mut out, -7);
    out.push(',');
    push_integer(&mut out, i64::MAX);
    out.push(',');
    push_integer(&mut out, i64::MIN);
    assert_eq!(out, "x=0,192,-7,9223372036854775807,-9223372036854775808");
    let mut n = String::new();
    push_natural(&mut n, u64::MAX);
    assert_eq!(n, "18446744073709551615");
}

#[test]
fn places_keep_their_zeros() {
    let mut out = String::new();
    push_places(&mut out, 42, 6);
    assert_eq!(out, "000042");
    let mut none = String::from("a");
    push_places(&mut none, 42, 0);
    assert_eq!(none, "a");
    let mut cut = String::new();
    push_places(&mut cut, 123456, 3);
    assert_eq!(cut, "456");
}

#[test]
fn millionths_are_written_as_decimals() {
    let cases: [(i64, &str); 12] = [
        (0, "0"),
        (5_000_000, "5"),
        (8_500_000, "8.5"),
        (500_000_000, "500"),
        (461_538_461, "461.538461"),
        (1, "0.000001"),
        (10, "0.00001"),
        (1_000_001, "1.000001"),
        (-12_000, "-0.012"),
        (-3_000_000, "-3"),
        (120_250_000, "120.25"),
        (999_999_999_999_999, "999999999.999999"),
    ];
    for (value, expected) in cases {
        let mut out = String::new();
        push_fixed(&mut out, value);
        assert_eq!(out, expected);
    }
}

#[test]
fn written_decimals_read_back() {
    for value in [0i64, 1, -1, 999_999, 1_000_000, 123_456_789, -987_654_321_000, 461_538_461] {
        let mut out = String::new();
        push_fixed(&mut out, value);
        assert_eq!(decimal(&out), Some(value));
    }
}

#[test]
fn unsigned_numbers_are_read_as_std_reads_them() {
    for s in ["", "0", "7", "+7", "-7", "007", "4294967295", "4294967296", "12a", "a12", " 1", "1 ", "+", "++1", "+-1", "1_000", "９", "1.0", "0x10"] {
        assert_eq!(read_unsigned(&text(s)), s.parse::<u32>().ok(), "{:?}", s);
    }
}

#[test]
fn decimals_agree_with_floating_point() {
    let samples = ["0", "1", "-1", "+1", "0.5", ".5", "5.", "-.5", "120.000", "0.000001", "128.125", "999999999.999999", "-0.012", "3.14159", "00.10", "-0", "+.0"];
    for s in samples {
        let ours = decimal(s).unwrap();
        let theirs: f64 = s.parse().unwrap();
        assert!((ours as f64 - theirs * 1e6).abs() < 0.5, "{:?}: {} against {}", s, ours, theirs);
    }
    for s in ["", ".", "-", "+", "-.", "abc", "1.2.3", "1,5", " 1", "1 ", "--1", "1-", "0.5:", "1.x", "=", "1=2"] {
        assert_eq!(decimal(s), None, "{:?}", s);
        assert!(s.parse::<f64>().is_err(), "{:?}", s);
    }
}
