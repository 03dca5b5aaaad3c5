use bumpalo::Bump;
use datavalue::{DataValue, ParseError, ParseErrorKind};

fn float_bits(s: &[u8]) -> Option<u64> {
    fast_float2::parse::<f64, _>(s).ok().map(f64::to_bits)
}

fn parse(s: &str) -> DataValue<'_> {
    let arena = Box::leak(Box::new(Bump::new()));
    DataValue::from_str(s, arena, &float_bits).expect("parse")
}

fn as_f64(v: &DataValue) -> Option<f64> {
    v.as_number().map(|n| f64::from_bits(n.as_f64_bits()))
}

fn error_of(s: &str) -> ParseError {
    let arena = Bump::new();
    DataValue::from_str(s, &arena, &float_bits).unwrap_err()
}

#[test]
fn parser_primitives() {
    assert!(parse("null").is_null());
    assert_eq!(parse("true").as_bool(), Some(true));
    assert_eq!(parse("false").as_bool(), Some(false));
    assert_eq!(parse("0").as_i64(), Some(0));
    assert_eq!(parse("-7").as_i64(), Some(-7));
    assert_eq!(as_f64(&parse("3.5")), Some(3.5));
    assert_eq!(as_f64(&parse("1e3")), Some(1000.0));
    assert_eq!(parse(r#""hello""#).as_str(), Some("hello"));
}

#[test]
fn integer_overflow_falls_to_float() {
    let v = parse("123456789012345678901234567890");
    assert!(v.is_f64());
}

#[test]
fn i64_boundaries() {
    assert_eq!(parse("9223372036854775807").as_i64(), Some(i64::MAX));
    assert_eq!(parse("-9223372036854775808").as_i64(), Some(i64::MIN));
    assert!(parse("9223372036854775808").is_f64());
    assert!(parse("-9223372036854775809").is_f64());
}

#[test]
fn empty_collections() {
    assert_eq!(parse("[]").len(), Some(0));
    assert_eq!(parse("{}").len(), Some(0));
}

#[test]
fn arrays_and_objects() {
    let v = parse(r#"{"a":[1,2,3],"b":{"c":true}}"#);
    assert_eq!(v["a"][0].as_i64(), Some(1));
    assert_eq!(v["a"][2].as_i64(), Some(3));
    assert_eq!(v["b"]["c"].as_bool(), Some(true));
}

#[test]
fn string_escapes() {
    assert_eq!(parse(r#""a\nb""#).as_str(), Some("a\nb"));
    assert_eq!(parse(r#""a\\b""#).as_str(), Some("a\\b"));
    assert_eq!(parse(r#""é""#).as_str(), Some("é"));
    assert_eq!(parse(r#""😀""#).as_str(), Some("😀"));
}

#[test]
fn whitespace_tolerant() {
    let v = parse(" {\n \"a\" :\t1 ,\n \"b\":2\n} ");
    assert_eq!(v["a"].as_i64(), Some(1));
    assert_eq!(v["b"].as_i64(), Some(2));
}

#[test]
fn rejects_trailing_data() {
    let arena = Bump::new();
    assert!(DataValue::from_str("1 2", &arena, &float_bits).is_err());
}

#[test]
fn rejects_bad_escape() {
    let arena = Bump::new();
    assert!(DataValue::from_str(r#""\q""#, &arena, &float_bits).is_err());
}

#[test]
fn rejects_unescaped_control_bytes_in_string() {
    let arena = Bump::new();
    for ctl in 0u8..0x20 {
        let mut s = Vec::from(b"\"abcdefghijklmnop".as_slice());
        s.push(ctl);
        s.push(b'"');
        let input = std::str::from_utf8(&s).unwrap();
        assert!(
            DataValue::from_str(input, &arena, &float_bits).is_err(),
            "control byte 0x{ctl:02x} should error",
        );
    }
}

#[test]
fn long_escape_string_round_trips() {
    let mut json = String::from("\"");
    for _ in 0..10 {
        json.push_str(&"x".repeat(40));
        json.push_str(r"\n");
    }
    json.push('"');
    let arena = Bump::new();
    let v = DataValue::from_str(&json, &arena, &float_bits).unwrap();
    let s = v.as_str().unwrap();
    assert_eq!(s.matches('\n').count(), 10);
    assert!(s.starts_with(&"x".repeat(40)));
}

#[test]
fn long_string_round_trips() {
    let s = "x".repeat(200);
    let json = format!("\"{s}\"");
    let arena = Bump::new();
    let v = DataValue::from_str(&json, &arena, &float_bits).unwrap();
    assert_eq!(v.as_str(), Some(s.as_str()));
}

#[test]
fn deep_nesting_under_limit_ok() {
    let n = 200;
    let s = "[".repeat(n) + &"]".repeat(n);
    let arena = Bump::new();
    assert!(DataValue::from_str(&s, &arena, &float_bits).is_ok());
}

#[test]
fn deep_nesting_over_limit_errors() {
    let n = 1000;
    let s = "[".repeat(n) + &"]".repeat(n);
    let arena = Bump::new();
    assert!(DataValue::from_str(&s, &arena, &float_bits).is_err());
}

#[test]
fn nesting_limit_is_exact() {
    let at = "[".repeat(257) + &"]".repeat(257);
    let over = "[".repeat(258) + &"]".repeat(258);
    let arena = Bump::new();
    assert!(DataValue::from_str(&at, &arena, &float_bits).is_ok());
    let e = DataValue::from_str(&over, &arena, &float_bits).unwrap_err();
    assert_eq!(e.kind, ParseErrorKind::DepthLimitExceeded);
}

#[test]
fn error_kinds_and_positions() {
    assert_eq!(error_of(""), ParseError { kind: ParseErrorKind::UnexpectedEof, position: 0 });
    assert_eq!(error_of("  "), ParseError { kind: ParseErrorKind::UnexpectedEof, position: 2 });
    assert_eq!(error_of("[1,"), ParseError { kind: ParseErrorKind::UnexpectedEof, position: 3 });
    assert_eq!(error_of("\"abc"), ParseError { kind: ParseErrorKind::UnexpectedEof, position: 4 });
    assert_eq!(error_of("x"), ParseError { kind: ParseErrorKind::UnexpectedByte(b'x'), position: 0 });
    assert_eq!(error_of("[1 2]"), ParseError { kind: ParseErrorKind::UnexpectedByte(b'2'), position: 4 });
    assert_eq!(error_of("{1:2}"), ParseError { kind: ParseErrorKind::UnexpectedByte(b'1'), position: 1 });
    assert_eq!(error_of(r#"{"a" 1}"#), ParseError { kind: ParseErrorKind::UnexpectedByte(b'1'), position: 6 });
    assert_eq!(error_of(r#""\q""#).kind, ParseErrorKind::InvalidEscape);
    assert_eq!(error_of(r#""\u12G4""#).kind, ParseErrorKind::InvalidUnicodeEscape);
    assert_eq!(error_of("-"), ParseError { kind: ParseErrorKind::UnexpectedEof, position: 1 });
    assert_eq!(error_of("-x"), ParseError { kind: ParseErrorKind::InvalidNumber, position: 1 });
    assert_eq!(error_of("1.").kind, ParseErrorKind::InvalidNumber);
    assert_eq!(error_of("1e+").kind, ParseErrorKind::InvalidNumber);
    assert_eq!(error_of("1 2"), ParseError { kind: ParseErrorKind::TrailingData, position: 2 });
    assert_eq!(error_of("[1]x").kind, ParseErrorKind::TrailingData);
}

#[test]
fn float_literals_go_to_the_float_reader() {
    assert_eq!(as_f64(&parse("-0.5")), Some(-0.5));
    assert_eq!(as_f64(&parse("2.5E-3")), Some(0.0025));
    assert!(parse("1.0").is_f64());
    assert!(parse("123456789012345678").is_i64());
    assert_eq!(parse("1234567890123456789").as_i64(), Some(1_234_567_890_123_456_789));
    assert_eq!(parse("1000000000000000000").as_i64(), Some(1_000_000_000_000_000_000));
    assert!(parse("9223372036854775807").is_i64());
    assert!(parse("-9223372036854775808").is_i64());
    assert!(parse("123456789012345678901").is_f64());
    let arena = Bump::new();
    let refuse = |_: &[u8]| None;
    let e = DataValue::from_str("[1, 2.5]", &arena, &refuse).unwrap_err();
    assert_eq!(e, ParseError { kind: ParseErrorKind::InvalidNumber, position: 4 });
    assert!(DataValue::from_str("[1, 2]", &arena, &refuse).is_ok());
}

#[test]
fn leading_zeros_stop_the_number() {
    assert_eq!(error_of("01").kind, ParseErrorKind::TrailingData);
    assert_eq!(parse("0").as_i64(), Some(0));
    assert_eq!(parse("-0").as_i64(), Some(0));
}

#[test]
fn unicode_escapes_decode() {
    assert_eq!(parse(r#""\u00e9""#).as_str(), Some("é"));
    assert_eq!(parse(r#""\ud83d\ude00""#).as_str(), Some("😀"));
    assert_eq!(parse(r#""\/\b\f\r\t""#).as_str(), Some("/\u{8}\u{c}\r\t"));
}

#[test]
fn strings_without_escapes_borrow_the_input() {
    let input = String::from(r#"["plain"]"#);
    let arena = Bump::new();
    let v = DataValue::from_str(&input, &arena, &float_bits).unwrap();
    let s = v[0].as_str().unwrap();
    let range = input.as_bytes().as_ptr_range();
    assert!(range.contains(&s.as_ptr()));
}
