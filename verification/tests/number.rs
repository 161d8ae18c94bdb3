use sentrix::number::{
    parse_fixed, parse_reading, parse_unsigned, render, render_decimal, scale, READING_LIMIT,
};

fn chars(s: &str) -> Vec<char> {
    s.chars().collect()
}

fn read(s: &str) -> Option<i64> {
    parse_reading(&chars(s))
}

#[test]
fn decimal_notation_is_read() {
    assert_eq!(read("133.19"), Some(133_190_000));
    assert_eq!(read("+04"), Some(4_000_000));
    assert_eq!(read("-51"), Some(-51_000_000));
    assert_eq!(read(".5"), Some(500_000));
    assert_eq!(read("5."), Some(5_000_000));
    assert_eq!(read("-0.0000019"), Some(-1));
    assert_eq!(read("12e2"), Some(1_200_000_000));
    assert_eq!(read("12E-1"), Some(1_200_000));
    assert_eq!(read("0.000000000001e12"), Some(1_000_000));
    assert_eq!(read("1e-99999999999999999999999"), Some(0));
}

#[test]
fn what_is_no_number_is_not_read() {
    for s in ["", "+", "-", ".", "e5", "1e", "1e+", "1.2.3", "1_0", "0x10", "12a", " 1", "--1"] {
        assert_eq!(read(s), None, "{s:?}");
    }
    assert_eq!(read("nan"), None);
    assert_eq!(read("-NaN"), None);
}

#[test]
fn large_numbers_are_held_at_the_limit() {
    assert_eq!(read("1e300"), Some(READING_LIMIT));
    assert_eq!(read("-100000000001"), Some(-READING_LIMIT));
    assert_eq!(read("inf"), Some(READING_LIMIT));
    assert_eq!(read("-Infinity"), Some(-READING_LIMIT));
    assert_eq!(read("100000000000"), Some(READING_LIMIT));
    assert_eq!(read("99999999999.999999"), Some(READING_LIMIT - 1));
    assert_eq!(read("20000000"), Some(20_000_000_000_000));
}

#[test]
fn flight_levels_are_hundreds() {
    assert_eq!(parse_fixed(&chars("050"), 8, READING_LIMIT), Some(5_000_000_000));
}

#[test]
fn unsigned_numbers_have_a_bound() {
    assert_eq!(parse_unsigned(&chars("4294967295"), u32::MAX as u64), Some(u32::MAX as u64));
    assert_eq!(parse_unsigned(&chars("4294967296"), u32::MAX as u64), None);
    assert_eq!(parse_unsigned(&chars("+7"), 10), Some(7));
    assert_eq!(parse_unsigned(&chars("-7"), 10), None);
    assert_eq!(parse_unsigned(&chars(""), 10), None);
}

#[test]
fn numbers_are_written_in_a_radix() {
    assert_eq!(render(0, 10).iter().collect::<String>(), "0");
    assert_eq!(render(u64::MAX, 10).iter().collect::<String>(), u64::MAX.to_string());
    assert_eq!(render(0x4b1234, 16).iter().collect::<String>(), "4b1234");
}

#[test]
fn quantities_are_written_and_read_back() {
    for (v, s) in [
        (45_800_000, "45.8"),
        (53_000_000, "53"),
        (-2_000_000, "-2"),
        (0, "0"),
        (1, "0.000001"),
        (-1_200_300, "-1.2003"),
        (READING_LIMIT, "100000000000"),
    ] {
        let text = render_decimal(v);
        assert_eq!(text.iter().collect::<String>(), s);
        assert_eq!(parse_reading(&text), Some(v));
    }
}

#[test]
fn parts_are_rounded_towards_zero() {
    assert_eq!(scale(10, 1, 3), 3);
    assert_eq!(scale(-10, 1, 3), -3);
    assert_eq!(scale(i64::MIN, u64::MAX, u64::MAX), i64::MIN);
    assert_eq!(scale(7, 0, 3), 0);
}
