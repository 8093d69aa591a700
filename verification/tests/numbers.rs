use tabview::num::{dec_cmp, parse_dec, parse_int, parse_numerator, render_scaled, u128_to_string,
    i128_to_string, CmpRes};

fn cmp(a: &str, b: &str) -> CmpRes {
    let pa = parse_dec(a).expect("left operand should parse");
    let pb = parse_dec(b).expect("right operand should parse");
    dec_cmp(&pa, &pb)
}

#[test]
fn parse_accepts_the_decimal_grammar() {
    assert!(parse_dec("0").is_some());
    assert!(parse_dec("-17").is_some());
    assert!(parse_dec("+4").is_some());
    assert!(parse_dec("3.25").is_some());
    assert!(parse_dec(".5").is_some());
    assert!(parse_dec("5.").is_some());
    assert!(parse_dec("-0.0").is_some());
}

#[test]
fn parse_rejects_everything_else() {
    assert!(parse_dec("").is_none());
    assert!(parse_dec("abc").is_none());
    assert!(parse_dec(".").is_none());
    assert!(parse_dec("-").is_none());
    assert!(parse_dec("1.2.3").is_none());
    assert!(parse_dec("1e5").is_none());
    assert!(parse_dec(" 1").is_none());
    assert!(parse_dec("12a").is_none());
}

#[test]
fn comparison_is_numeric_not_lexicographic() {
    assert!(matches!(cmp("9", "10"), CmpRes::Lt));
    assert!(matches!(cmp("10", "9"), CmpRes::Gt));
    assert!(matches!(cmp("2", "2"), CmpRes::Eq));
}

#[test]
fn comparison_aligns_fractions_exactly() {
    assert!(matches!(cmp("0.5", "0.50"), CmpRes::Eq));
    assert!(matches!(cmp("0.5", "0.51"), CmpRes::Lt));
    assert!(matches!(cmp("2.10", "2.9"), CmpRes::Lt));
    assert!(matches!(cmp("10.25", "10.3"), CmpRes::Lt));
}

#[test]
fn comparison_handles_signs_and_zeros() {
    assert!(matches!(cmp("-1", "1"), CmpRes::Lt));
    assert!(matches!(cmp("-2", "-10"), CmpRes::Gt));
    assert!(matches!(cmp("-0", "0"), CmpRes::Eq));
    assert!(matches!(cmp("-0.0", "0.00"), CmpRes::Eq));
    assert!(matches!(cmp("0", "0.1"), CmpRes::Lt));
}

#[test]
fn leading_zeros_do_not_change_the_value() {
    assert!(matches!(cmp("007", "7"), CmpRes::Eq));
    assert!(matches!(cmp("0010", "9"), CmpRes::Gt));
}

#[test]
fn integers_render_in_decimal() {
    assert_eq!(u128_to_string(0), "0");
    assert_eq!(u128_to_string(7), "7");
    assert_eq!(u128_to_string(12345), "12345");
    assert_eq!(i128_to_string(-42), "-42");
    assert_eq!(i128_to_string(0), "0");
}

#[test]
fn parse_int_reads_integral_decimals_only() {
    assert_eq!(parse_int("42"), Some(42));
    assert_eq!(parse_int("-7"), Some(-7));
    assert_eq!(parse_int("007"), Some(7));
    assert_eq!(parse_int("2.5"), None);
    assert_eq!(parse_int("abc"), None);
    assert_eq!(parse_int("9223372036854775807"), Some(i64::MAX));
    assert_eq!(parse_int("9223372036854775808"), None);
}

#[test]
fn parse_numerator_reads_the_scaled_numerator() {
    assert_eq!(parse_numerator("42"), Some(42));
    assert_eq!(parse_numerator("2.5"), Some(25));
    assert_eq!(parse_numerator("-0.75"), Some(-75));
    assert_eq!(parse_numerator("abc"), None);
    assert_eq!(parse_numerator("9223372036854775808"), None);
}

#[test]
fn render_scaled_places_the_point_and_pads_with_zeros() {
    assert_eq!(render_scaled(6, 0), "6");
    assert_eq!(render_scaled(65, 1), "6.5");
    assert_eq!(render_scaled(5, 2), "0.05");
    assert_eq!(render_scaled(650, 2), "6.50");
    assert_eq!(render_scaled(-75, 2), "-0.75");
    assert_eq!(render_scaled(0, 1), "0.0");
}

#[test]
fn renderings_carry_no_leading_zeros() {
    assert_eq!(u128_to_string(7), "7");
    assert_eq!(i128_to_string(-7), "-7");
    assert_eq!(render_scaled(10, 0), "10");
    assert_eq!(render_scaled(100, 1), "10.0");
}
