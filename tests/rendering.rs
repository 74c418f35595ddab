use ecma_number::{to_chars, to_chars_detail, Decimal, MAX_OUTPUT_STRING_LENGTH};

fn render(negative: bool, value: Option<Decimal>) -> String {
    let mut buffer = [0u8; 32];
    let end = to_chars(negative, value, &mut buffer, 0);
    String::from_utf8(buffer[..end].to_vec()).unwrap()
}

fn dec(significand: u64, exponent: i32) -> Option<Decimal> {
    Some(Decimal { significand, exponent })
}

fn detail(significand: u64, exponent: i32) -> String {
    let mut buffer = [0u8; 32];
    let end = to_chars_detail(significand, exponent, &mut buffer, 0);
    String::from_utf8(buffer[..end].to_vec()).unwrap()
}

#[test]
fn zero_renders_as_single_digit() {
    assert_eq!(render(false, None), "0");
    assert_eq!(render(true, None), "0");
}

#[test]
fn one_renders_plain() {
    assert_eq!(render(false, dec(1, 0)), "1");
}

#[test]
fn hundred_renders_plain_from_raw_and_reduced() {
    assert_eq!(render(false, dec(100, 0)), "100");
    assert_eq!(render(false, dec(1, 2)), "100");
}

#[test]
fn one_tenth_renders_fixed() {
    assert_eq!(render(false, dec(1, -1)), "0.1");
}

#[test]
fn fifteen_digit_integer_renders_plain() {
    let s = render(false, dec(123456789012345, 0));
    assert_eq!(s, "123456789012345");
    assert_eq!(s.len(), 15);
}

#[test]
fn one_e21_renders_exponential() {
    assert_eq!(render(false, dec(1, 21)), "1e+21");
}

#[test]
fn one_e_minus_7_renders_exponential() {
    assert_eq!(render(false, dec(1, -7)), "1e-7");
}

#[test]
fn one_e_minus_6_renders_leading_zeros() {
    assert_eq!(render(false, dec(1, -6)), "0.000001");
}

#[test]
fn one_and_a_half_e21_renders_exponential() {
    assert_eq!(render(false, dec(15, 20)), "1.5e+21");
}

#[test]
fn one_e20_renders_21_character_integer() {
    let s = render(false, dec(1, 20));
    assert_eq!(s, "100000000000000000000");
    assert_eq!(s.len(), 21);
}

#[test]
fn decimal_point_at_21_is_plain() {
    let s = detail(123, 18);
    assert_eq!(s, "123000000000000000000");
    assert_eq!(s.len(), 21);
}

#[test]
fn decimal_point_at_1_is_fixed() {
    assert_eq!(detail(15, -1), "1.5");
}

#[test]
fn decimal_point_at_0_has_leading_zero() {
    assert_eq!(detail(5, -1), "0.5");
    assert_eq!(detail(25, -2), "0.25");
}

#[test]
fn decimal_point_at_minus_5_and_minus_6() {
    assert_eq!(detail(123, -8), "0.00000123");
    assert_eq!(detail(123, -9), "1.23e-7");
}

#[test]
fn fixed_point_inside_the_digits() {
    assert_eq!(detail(123456, -3), "123.456");
}

#[test]
fn negative_value_gets_sign() {
    assert_eq!(render(true, dec(15, -1)), "-1.5");
    assert_eq!(render(true, dec(1, 21)), "-1e+21");
}

#[test]
fn smallest_subnormal_has_three_digit_exponent() {
    assert_eq!(render(false, dec(5, -324)), "5e-324");
}

#[test]
fn largest_double_renders_exponential() {
    assert_eq!(
        render(false, dec(17976931348623157, 292)),
        "1.7976931348623157e+308"
    );
}

#[test]
fn two_digit_positive_exponent() {
    assert_eq!(render(false, dec(12, 30)), "1.2e+31");
}

#[test]
fn longest_text_fits_the_bound() {
    let s = render(true, dec(15809161985788154, -22));
    assert_eq!(s, "-0.0000015809161985788154");
    assert_eq!(s.len(), MAX_OUTPUT_STRING_LENGTH);
    assert!(s.len() - 1 <= MAX_OUTPUT_STRING_LENGTH);
}

#[test]
fn seventeen_nines_render_every_digit() {
    assert_eq!(detail(99999999999999999, 0), "99999999999999999");
    assert_eq!(detail(99999999999999999, -17), "0.99999999999999999");
}

#[test]
fn digit_blocks_keep_inner_zeros() {
    assert_eq!(detail(100000001, 0), "100000001");
    assert_eq!(detail(10000000000000001, 0), "10000000000000001");
    assert_eq!(detail(1000005, 0), "1000005");
    assert_eq!(detail(10203, 0), "10203");
    assert_eq!(detail(101, 0), "101");
    assert_eq!(detail(12345678, 0), "12345678");
}

#[test]
fn writes_only_at_the_given_position() {
    let mut buffer = [b'#'; 40];
    let end = to_chars(false, dec(25, -1), &mut buffer, 5);
    assert_eq!(end, 8);
    assert_eq!(&buffer[5..8], b"2.5");
    assert!(buffer[..5].iter().all(|&b| b == b'#'));
    assert!(buffer[8..].iter().all(|&b| b == b'#'));
}

#[test]
fn rendered_text_parses_back_to_the_double() {
    let cases: [(f64, u64, i32); 8] = [
        (0.1, 1, -1),
        (1.0, 1, 0),
        (123456789012345.0, 123456789012345, 0),
        (1e21, 1, 21),
        (1e-7, 1, -7),
        (5e-324, 5, -324),
        (f64::MAX, 17976931348623157, 292),
        (0.30000000000000004, 30000000000000004, -17),
    ];
    for (x, significand, exponent) in cases {
        let s = render(false, dec(significand, exponent));
        assert_eq!(s.parse::<f64>().unwrap().to_bits(), x.to_bits());
        let n = render(true, dec(significand, exponent));
        assert_eq!(n.parse::<f64>().unwrap().to_bits(), (-x).to_bits());
    }
}

fn digit_string(text: &str) -> String {
    let mantissa = text.split('e').next().unwrap();
    let digits: String = mantissa.chars().filter(|c| c.is_ascii_digit()).collect();
    digits.trim_start_matches('0').to_string()
}

#[test]
fn rendered_digits_do_not_end_in_zero() {
    let cases: [(u64, i32, &str); 5] = [
        (5000000, -9, "0.005"),
        (10, 25, "1e+26"),
        (70, -10, "7e-9"),
        (1230, -2, "12.3"),
        (99999999999999990, -30, "9.999999999999999e-14"),
    ];
    for (significand, exponent, expected) in cases {
        let s = render(false, dec(significand, exponent));
        assert_eq!(s, expected);
        assert!(!digit_string(&s).ends_with('0'), "{}", s);
    }
}

#[test]
fn sixteen_trailing_zeros_keep_one() {
    assert_eq!(render(false, dec(10_000_000_000_000_000, -20)), "0.00010");
}
