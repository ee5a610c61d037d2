use migjorn::parser_utils::common_parsing_functions::skip_whitespace;
use migjorn::parser_utils::number_parsing::{
    i32_negation_overflows_at, parse_i32_fast, parse_u32_fast, scan_float_text,
};
use migjorn::parser_utils::parser_errors::PrimitiveError;

#[test]
fn test_fast_integer_parsing() {
    let bytes = b"12345 ";
    let mut pos = 0;
    let result = parse_i32_fast(bytes, &mut pos).unwrap();
    assert_eq!(result, 12345);

    let bytes = b"-999";
    let mut pos = 0;
    let result = parse_i32_fast(bytes, &mut pos).unwrap();
    assert_eq!(result, -999);
}

#[test]
fn integer_parsing_stops_after_the_digits() {
    let bytes = b"  +42 7";
    let mut pos = 0;
    assert_eq!(parse_i32_fast(bytes, &mut pos), Ok(42));
    assert_eq!(pos, 5);
    assert_eq!(parse_i32_fast(bytes, &mut pos), Ok(7));
    assert_eq!(pos, 7);
    assert_eq!(parse_i32_fast(bytes, &mut pos), Err(PrimitiveError::UnexpectedEnd));
    assert_eq!(pos, 7);
}

#[test]
fn integer_parsing_errors() {
    let mut pos = 0;
    assert_eq!(parse_i32_fast(b"   ", &mut pos), Err(PrimitiveError::UnexpectedEnd));
    assert_eq!(pos, 3);

    let mut pos = 0;
    assert_eq!(parse_i32_fast(b" -x", &mut pos), Err(PrimitiveError::InvalidInteger));
    assert_eq!(pos, 2);

    let mut pos = 0;
    assert_eq!(parse_i32_fast(b"abc", &mut pos), Err(PrimitiveError::InvalidInteger));
    assert_eq!(pos, 0);

    let mut pos = 10;
    assert_eq!(parse_i32_fast(b"12", &mut pos), Err(PrimitiveError::UnexpectedEnd));
    assert_eq!(pos, 10);
}

#[test]
fn integer_parsing_wraps_around() {
    let mut pos = 0;
    assert_eq!(parse_i32_fast(b"2147483648", &mut pos), Ok(i32::MIN));
    let mut pos = 0;
    assert_eq!(parse_i32_fast(b"4294967295", &mut pos), Ok(-1));
    let mut pos = 0;
    assert_eq!(parse_i32_fast(b"-2147483647", &mut pos), Ok(-2147483647));
    let mut pos = 0;
    assert_eq!(parse_u32_fast(b"4294967296", &mut pos), Ok(0));
    let mut pos = 0;
    assert_eq!(parse_u32_fast(b"4294967295", &mut pos), Ok(u32::MAX));
}

#[test]
fn unsigned_parsing() {
    let mut pos = 0;
    assert_eq!(parse_u32_fast(b" +17$x", &mut pos), Ok(17));
    assert_eq!(pos, 4);

    let mut pos = 0;
    assert_eq!(parse_u32_fast(b" -17", &mut pos), Err(PrimitiveError::InvalidUnsigned));
    assert_eq!(pos, 1);

    let mut pos = 0;
    assert_eq!(parse_u32_fast(b"+", &mut pos), Err(PrimitiveError::InvalidUnsigned));
    assert_eq!(pos, 1);

    let mut pos = 0;
    assert_eq!(parse_u32_fast(b"", &mut pos), Err(PrimitiveError::UnexpectedEnd));
    assert_eq!(pos, 0);
}

#[test]
fn whitespace_and_comments_are_skipped() {
    let bytes = b"c a comment line\n  $ trailing comment\n\t 42";
    let mut pos = 0;
    skip_whitespace(bytes, &mut pos);
    assert_eq!(pos, 40);
    assert_eq!(parse_u32_fast(bytes, &mut 0), Ok(42));

    // A `c` that does not start a line, or that is followed by more letters, is kept.
    let bytes = b"  c1";
    let mut pos = 0;
    skip_whitespace(bytes, &mut pos);
    assert_eq!(pos, 2);
    let bytes = b"cell";
    let mut pos = 0;
    skip_whitespace(bytes, &mut pos);
    assert_eq!(pos, 0);

    // A comment line at the very end of the input.
    let bytes = b"\nC";
    let mut pos = 0;
    skip_whitespace(bytes, &mut pos);
    assert_eq!(pos, 2);
}

#[test]
fn skipping_twice_stops_where_skipping_once_does() {
    let bytes = b"C x\n  $ y\n 5";
    let mut once = 0;
    skip_whitespace(bytes, &mut once);
    let mut twice = once;
    skip_whitespace(bytes, &mut twice);
    assert_eq!(once, 11);
    assert_eq!(twice, once);
}

#[test]
fn float_text_is_found() {
    let bytes = b"1.22223";
    let mut pos = 0;
    assert_eq!(scan_float_text(bytes, &mut pos), Ok(0));
    assert_eq!(pos, 7);

    let bytes = b"C comment\n    -2.7e-3 $ other comment";
    let mut pos = 0;
    assert_eq!(scan_float_text(bytes, &mut pos), Ok(14));
    assert_eq!(pos, 21);

    let bytes = b" 3E+08x";
    let mut pos = 0;
    assert_eq!(scan_float_text(bytes, &mut pos), Ok(1));
    assert_eq!(pos, 6);

    let bytes = b"  ";
    let mut pos = 0;
    assert_eq!(scan_float_text(bytes, &mut pos), Err(PrimitiveError::UnexpectedEnd));
    assert_eq!(pos, 2);

    let bytes = b"abc";
    let mut pos = 0;
    assert_eq!(scan_float_text(bytes, &mut pos), Ok(0));
    assert_eq!(pos, 0);
}

#[test]
fn negation_overflow_is_detected_before_parsing() {
    assert!(i32_negation_overflows_at(b" -2147483648", 0));
    assert!(i32_negation_overflows_at(b"c x\n-6442450944", 0));
    assert!(!i32_negation_overflows_at(b"-2147483647", 0));
    assert!(!i32_negation_overflows_at(b"2147483648", 0));
    assert!(!i32_negation_overflows_at(b"-", 0));
    assert!(!i32_negation_overflows_at(b"", 5));
}
