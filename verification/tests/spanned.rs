use migjorn::parser_utils::decimal_text::DisplayBytes;
use migjorn::parser_utils::number_parsing::{parse_i32_fast, parse_u32_fast};
use migjorn::parser_utils::parser_errors::PrimitiveError;
use migjorn::parser_utils::spanned::{
    pad_sci_exponent, parse_spanned_i32, parse_spanned_u32, write_spanned, write_spanned_text,
    Span, Spanned,
};

#[test]
fn test_parse_spanned_i32() {
    let bytes = b"C comment\n 12345 $ other comment";
    let mut pos = 0;
    let result = parse_spanned_i32(bytes, &mut pos).unwrap();
    assert_eq!(result.value, 12345);
    assert_eq!(result.span, Span(11, 16));

    let bytes = b"-999";
    let mut pos = 0;
    let result = parse_spanned_i32(bytes, &mut pos).unwrap();
    assert_eq!(result.value, -999);
    assert_eq!(result.span, Span(0, 4));
}

#[test]
fn spanned_parsing_reports_one_error_kind() {
    let mut pos = 0;
    assert_eq!(parse_spanned_i32(b"   ", &mut pos), Err(PrimitiveError::InvalidInteger));
    let mut pos = 0;
    assert_eq!(parse_spanned_u32(b"", &mut pos), Err(PrimitiveError::InvalidUnsigned));
    let mut pos = 0;
    assert_eq!(parse_spanned_u32(b" -3", &mut pos), Err(PrimitiveError::InvalidUnsigned));
    assert_eq!(pos, 1);
}

#[test]
fn parse_spanned_u32_records_the_span() {
    let bytes = b"M101 92235";
    let mut pos = 1;
    let result = parse_spanned_u32(bytes, &mut pos).unwrap();
    assert_eq!(result, Spanned::new(101, Span(1, 4)));
    let result = parse_spanned_u32(bytes, &mut pos).unwrap();
    assert_eq!(result, Spanned::new(92235, Span(5, 10)));
    assert_eq!(pos, 10);
}

#[test]
fn spans() {
    let s = Span::empty_at(7);
    assert_eq!(s, Span(7, 7));
    assert!(s.is_insertion());
    assert!(!Span(3, 5).is_insertion());
    let v = Spanned::new(5u32, Span(1, 2));
    assert_eq!(v.value, 5);
    assert_eq!(v.span, Span(1, 2));
}

#[test]
fn write_into_writes_decimal_text() {
    let mut buf = b"x=".to_vec();
    Spanned::new(-120i32, Span(0, 0)).write_into(&mut buf);
    assert_eq!(buf, b"x=-120".to_vec());

    let mut buf = Vec::new();
    Spanned::new(0u32, Span(0, 0)).write_into(&mut buf);
    Spanned::new(u32::MAX, Span(0, 0)).write_into(&mut buf);
    Spanned::new(i32::MIN, Span(0, 0)).write_into(&mut buf);
    assert_eq!(buf, b"04294967295-2147483648".to_vec());

    let mut buf = Vec::new();
    7i32.write_display(&mut buf);
    assert_eq!(buf, b"7".to_vec());
}

#[test]
fn write_spanned_keeps_the_source_between_values() {
    let source = b"10 101  -1 $ comment";
    let mut result = Vec::new();
    let mut pos = 0;
    write_spanned(source, &mut result, &mut pos, &Spanned::new(15u32, Span(0, 2)));
    assert_eq!(pos, 2);
    write_spanned(source, &mut result, &mut pos, &Spanned::new(101u32, Span(3, 6)));
    write_spanned(source, &mut result, &mut pos, &Spanned::new(-1i32, Span(8, 10)));
    assert_eq!(pos, 10);
    assert_eq!(result, b"15 101  -1".to_vec());
}

#[test]
fn write_spanned_inserts_a_virtual_value() {
    let source = b"10 101";
    let mut result = Vec::new();
    let mut pos = 0;
    write_spanned(source, &mut result, &mut pos, &Spanned::new(10u32, Span(0, 2)));
    write_spanned(source, &mut result, &mut pos, &Spanned::new(5u32, Span::empty_at(2)));
    assert_eq!(pos, 2);
    write_spanned(source, &mut result, &mut pos, &Spanned::new(101u32, Span(3, 6)));
    assert_eq!(result, b"10 5 101".to_vec());
}

#[test]
fn unchanged_values_write_back_the_source() {
    let source = b"C title\n 30 102 -3 #300";
    let mut read = 0;
    let a = parse_spanned_u32(source, &mut read).unwrap();
    let b = parse_spanned_u32(source, &mut read).unwrap();
    let c = parse_spanned_i32(source, &mut read).unwrap();
    let mut result = Vec::new();
    let mut pos = 0;
    write_spanned(source, &mut result, &mut pos, &a);
    write_spanned(source, &mut result, &mut pos, &b);
    write_spanned(source, &mut result, &mut pos, &c);
    assert_eq!(result, source[..pos].to_vec());
    assert_eq!(pos, 18);
}

#[test]
fn written_text_reads_back() {
    for v in [0u32, 7, 10, 4096, u32::MAX] {
        let mut text = Vec::new();
        v.write_display(&mut text);
        text.push(b' ');
        let mut pos = 0;
        assert_eq!(parse_u32_fast(&text, &mut pos), Ok(v));
        assert_eq!(pos, text.len() - 1);
    }
    for v in [0i32, -1, 42, i32::MAX, i32::MIN + 1] {
        let mut text = Vec::new();
        v.write_display(&mut text);
        let mut pos = 0;
        assert_eq!(parse_i32_fast(&text, &mut pos), Ok(v));
        assert_eq!(pos, text.len());
    }
}

#[test]
fn exponent_is_padded_to_two_digits() {
    assert_eq!(pad_sci_exponent(b"3.21543E-8"), b"3.21543E-08".to_vec());
    assert_eq!(pad_sci_exponent(b"1.00000E0"), b"1.00000E+00".to_vec());
    assert_eq!(pad_sci_exponent(b"1.00000E10"), b"1.00000E10".to_vec());
    assert_eq!(pad_sci_exponent(b"2.50000E-12"), b"2.50000E-12".to_vec());
    assert_eq!(pad_sci_exponent(b"2.50000E"), b"2.50000E+0".to_vec());
    assert_eq!(pad_sci_exponent(b"12.5"), b"12.5".to_vec());
}

#[test]
fn write_spanned_text_places_rendered_bytes() {
    let source = b"TR3 1.0 2.0";
    let mut result = Vec::new();
    let mut pos = 0;
    write_spanned_text(source, &mut result, &mut pos, Span(2, 3), b"7");
    write_spanned_text(source, &mut result, &mut pos, Span(4, 7), b"1.25");
    assert_eq!(pos, 7);
    write_spanned_text(source, &mut result, &mut pos, Span::empty_at(7), b"0.5");
    assert_eq!(pos, 7);
    assert_eq!(result, b"TR7 1.25 0.5".to_vec());
}

#[test]
fn writing_a_card_replaces_each_span() {
    // Values read in order from a card and written back, some changed:
    // the output followed by the rest of the source is the source with each
    // span replaced by the new text.
    let source = b"20 101 -1.23  2 #200 IMP:N=1";
    let mut read = 0;
    let id = parse_spanned_u32(source, &mut read).unwrap();
    let mat = parse_spanned_u32(source, &mut read).unwrap();
    let mut result = Vec::new();
    let mut pos = 0;
    write_spanned(source, &mut result, &mut pos, &Spanned::new(25u32, id.span));
    write_spanned(source, &mut result, &mut pos, &mat);
    let mut whole = result.clone();
    whole.extend_from_slice(&source[pos..]);
    assert_eq!(whole, b"25 101 -1.23  2 #200 IMP:N=1".to_vec());
    assert!(id.span.0 < id.span.1 && mat.span.0 < mat.span.1);
}
