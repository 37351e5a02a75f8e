use toolkit::number::{
    as_i128, as_i128d, as_i16, as_i16d, as_i32, as_i32d, as_i64, as_i64d, as_i8, as_i8d, as_isize,
    as_isized, as_u128, as_u128d, as_u16, as_u16d, as_u32, as_u32d, as_u64, as_u64d, as_u8,
    as_u8d, as_usize, as_usized, char_is_digit, is_digit, is_idigit, is_number, is_udigit,
};
use toolkit::parse::{parse_signed, parse_unsigned, ParseError};

#[test]
fn test_is_number() {
    assert_eq!(true, is_number("0"));
    assert_eq!(false, is_number("-1u32"));
    assert_eq!(true, is_number("2usize"));
    assert_eq!(true, is_number("3.5f32"));
    assert_eq!(false, is_number("0.2.1f32"));
}

#[test]
fn test_is_digit() {
    assert_eq!(true, is_digit("2", false));
    assert_eq!(false, is_digit("-2", false));
    assert_eq!(false, is_digit("0.2", false));
    assert_eq!(true, is_idigit("-2"));
    assert_eq!(true, is_udigit("2"));
}

#[test]
fn test_as() {
    assert_eq!(1 as isize, as_isize("1").unwrap());
    assert_eq!(-1 as isize, as_isized("a", -1 as isize));
    assert_eq!(1 as usize, as_usize("1").unwrap());
    assert_eq!(52 as i128, as_i128("52").unwrap());
}

#[test]
fn number_suffixes_and_bodies() {
    assert!(is_number("-1i32"));
    assert!(!is_number("1.5i32"));
    assert!(is_number("1.5f64"));
    assert!(!is_number("1.5u8"));
    assert!(is_number("128u128"));
    assert!(is_number("7isize"));
    assert!(!is_number("7u"));
    assert!(!is_number("7u32x"));
    assert!(!is_number("7u3-"));
    assert!(!is_number("1-2"));
    assert!(!is_number("--1"));
    assert!(!is_number("1e5"));
    assert!(!is_number(" 1"));
    assert!(is_number("1.25"));
    assert!(is_number("-0.5"));
}

#[test]
fn number_bare_suffix_and_empty_are_accepted() {
    assert!(is_number("u32"));
    assert!(is_number("f64"));
    assert!(is_number(""));
    assert!(is_number("-"));
}

#[test]
fn number_classification_repeats() {
    for t in ["0", "-1u32", "3.5f32", "x", "", "u8"] {
        assert_eq!(is_number(t), is_number(t));
    }
}

#[test]
fn digit_text_with_and_without_sign() {
    for t in ["0", "123", "-45", "-", "", "007"] {
        assert!(is_digit(t, true));
        assert_eq!(is_digit(t, false), !t.starts_with('-'));
    }
    assert!(!is_digit("1-", true));
    assert!(!is_digit("--1", true));
    assert!(!is_digit("1 ", false));
    assert!(char_is_digit('0'));
    assert!(char_is_digit('9'));
    assert!(!char_is_digit('a'));
    assert!(!char_is_digit('٣'));
}

#[test]
fn strict_forms_fail_on_empty_text() {
    assert_eq!(as_i8(""), Err(ParseError::Empty));
    assert_eq!(as_i16(""), Err(ParseError::Empty));
    assert_eq!(as_i32(""), Err(ParseError::Empty));
    assert_eq!(as_i64(""), Err(ParseError::Empty));
    assert_eq!(as_i128(""), Err(ParseError::Empty));
    assert_eq!(as_isize(""), Err(ParseError::Empty));
    assert_eq!(as_u8(""), Err(ParseError::Empty));
    assert_eq!(as_u16(""), Err(ParseError::Empty));
    assert_eq!(as_u32(""), Err(ParseError::Empty));
    assert_eq!(as_u64(""), Err(ParseError::Empty));
    assert_eq!(as_u128(""), Err(ParseError::Empty));
    assert_eq!(as_usize(""), Err(ParseError::Empty));
}

#[test]
fn defaulting_forms_give_default_on_empty_text() {
    assert_eq!(as_i8d("", -3), -3);
    assert_eq!(as_i16d("", 300), 300);
    assert_eq!(as_i32d("", -70000), -70000);
    assert_eq!(as_i64d("", 5), 5);
    assert_eq!(as_i128d("", i128::MIN), i128::MIN);
    assert_eq!(as_isized("", 9), 9);
    assert_eq!(as_u8d("", 7), 7);
    assert_eq!(as_u16d("", 65535), 65535);
    assert_eq!(as_u32d("", 1), 1);
    assert_eq!(as_u64d("", 2), 2);
    assert_eq!(as_u128d("", u128::MAX), u128::MAX);
    assert_eq!(as_usized("", 4), 4);
}

#[test]
fn defaulting_forms_keep_parsed_values() {
    assert_eq!(as_i8d("-12", 0), -12);
    assert_eq!(as_u16d("999", 0), 999);
    assert_eq!(as_u8d("256", 3), 3);
    assert_eq!(as_i32d("12x", 8), 8);
    assert_eq!(as_u64d("-1", 6), 6);
    assert_eq!(as_usized("a", 1), 1);
}

#[test]
fn wide_defaults_are_not_narrowed() {
    let big: i128 = 1 << 100;
    assert_eq!(as_i128d("x", big), big);
    assert_eq!(as_i128d("-170141183460469231731687303715884105728", 0), i128::MIN);
    assert_eq!(as_u128d("x", u128::MAX), u128::MAX);
    assert_eq!(as_u128d("340282366920938463463374607431768211455", 0), u128::MAX);
}

#[test]
fn error_kinds() {
    assert_eq!(as_i32("12a"), Err(ParseError::InvalidDigit));
    assert_eq!(as_i32("a12"), Err(ParseError::InvalidDigit));
    assert_eq!(as_i32("-"), Err(ParseError::InvalidDigit));
    assert_eq!(as_i32("+"), Err(ParseError::InvalidDigit));
    assert_eq!(as_u32("-"), Err(ParseError::InvalidDigit));
    assert_eq!(as_u32("-5"), Err(ParseError::InvalidDigit));
    assert_eq!(as_u32("-0"), Err(ParseError::InvalidDigit));
    assert_eq!(as_i32(" 1"), Err(ParseError::InvalidDigit));
    assert_eq!(as_u8("256"), Err(ParseError::Overflow));
    assert_eq!(as_u8("300a"), Err(ParseError::Overflow));
    assert_eq!(as_i8("128"), Err(ParseError::Overflow));
    assert_eq!(as_i8("-129"), Err(ParseError::Overflow));
    assert_eq!(as_i8("-128"), Ok(-128));
    assert_eq!(as_u8("+255"), Ok(255));
    assert_eq!(as_i64("-0"), Ok(0));
    assert_eq!(as_u16("000123"), Ok(123));
}

#[test]
fn errors_match_std_parse() {
    let cases = ["", "0", "+", "-", "-0", "+7", "12a", "300a", "256", "-129", "127", "-128",
        "99999999999999999999", "x1", "1.0", " 5"];
    for t in cases {
        assert_eq!(as_i8(t).is_ok(), t.parse::<i8>().is_ok(), "{}", t);
        assert_eq!(as_u8(t).is_ok(), t.parse::<u8>().is_ok(), "{}", t);
        assert_eq!(as_i64(t).ok(), t.parse::<i64>().ok(), "{}", t);
        assert_eq!(as_u128(t).ok(), t.parse::<u128>().ok(), "{}", t);
    }
}

#[test]
fn conversion_repeats() {
    for t in ["1", "", "x", "300", "-5"] {
        assert_eq!(as_u8(t), as_u8(t));
        assert_eq!(as_i16d(t, 4), as_i16d(t, 4));
        assert_eq!(parse_signed(t, -10, 10), parse_signed(t, -10, 10));
        assert_eq!(parse_unsigned(t, 10), parse_unsigned(t, 10));
    }
}

#[test]
fn decimal_round_trip_at_the_bounds() {
    assert_eq!(as_i8(&i8::MIN.to_string()), Ok(i8::MIN));
    assert_eq!(as_i8(&i8::MAX.to_string()), Ok(i8::MAX));
    assert_eq!(as_i16(&i16::MIN.to_string()), Ok(i16::MIN));
    assert_eq!(as_i32(&i32::MIN.to_string()), Ok(i32::MIN));
    assert_eq!(as_i64(&i64::MIN.to_string()), Ok(i64::MIN));
    assert_eq!(as_i128(&i128::MIN.to_string()), Ok(i128::MIN));
    assert_eq!(as_i128(&i128::MAX.to_string()), Ok(i128::MAX));
    assert_eq!(as_isize(&isize::MIN.to_string()), Ok(isize::MIN));
    assert_eq!(as_u8(&u8::MAX.to_string()), Ok(u8::MAX));
    assert_eq!(as_u16(&u16::MAX.to_string()), Ok(u16::MAX));
    assert_eq!(as_u32(&u32::MAX.to_string()), Ok(u32::MAX));
    assert_eq!(as_u64(&u64::MAX.to_string()), Ok(u64::MAX));
    assert_eq!(as_u128(&u128::MAX.to_string()), Ok(u128::MAX));
    assert_eq!(as_usize(&usize::MAX.to_string()), Ok(usize::MAX));
    for v in [-300i32, -1, 0, 9, 10, 4567] {
        assert_eq!(as_i32(&v.to_string()), Ok(v));
    }
}

#[test]
fn one_past_the_bounds_overflows() {
    assert_eq!(as_i128("170141183460469231731687303715884105728"), Err(ParseError::Overflow));
    assert_eq!(as_u128("340282366920938463463374607431768211456"), Err(ParseError::Overflow));
    assert_eq!(as_u64("18446744073709551616"), Err(ParseError::Overflow));
    assert_eq!(as_i16("-32769"), Err(ParseError::Overflow));
}
