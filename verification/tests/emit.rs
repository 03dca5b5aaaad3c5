use bumpalo::Bump;
use datavalue::datetime::{DataDateTime, DataDuration};
use datavalue::{DataValue, NumberValue, OwnedDataValue};

fn float_bits(s: &[u8]) -> Option<u64> {
    fast_float2::parse::<f64, _>(s).ok().map(f64::to_bits)
}

fn float_text(bits: u64) -> Vec<u8> {
    let mut buf = ryu::Buffer::new();
    buf.format_finite(f64::from_bits(bits)).as_bytes().to_vec()
}

fn round_trip(s: &str) -> String {
    let arena = Bump::new();
    let v = DataValue::from_str(s, &arena, &float_bits).unwrap();
    v.to_json_string(&float_text)
}

#[test]
fn emit_primitives() {
    assert_eq!(round_trip("null"), "null");
    assert_eq!(round_trip("true"), "true");
    assert_eq!(round_trip("false"), "false");
    assert_eq!(round_trip("42"), "42");
    assert_eq!(round_trip("-7"), "-7");
    assert_eq!(round_trip("3.5"), "3.5");
}

#[test]
fn strings_with_escapes() {
    assert_eq!(round_trip(r#""hello""#), r#""hello""#);
    assert_eq!(round_trip(r#""a\nb""#), r#""a\nb""#);
    assert_eq!(round_trip(r#""a\\b""#), r#""a\\b""#);
    assert_eq!(round_trip(r#""a\"b""#), r#""a\"b""#);
    assert_eq!(round_trip(r#""café""#), r#""café""#);
}

#[test]
fn control_bytes_render_as_unicode_escapes() {
    let arena = Bump::new();
    let v = DataValue::from_str("\"\\u0001\"", &arena, &float_bits).unwrap();
    assert_eq!(v.to_json_string(&float_text), "\"\\u0001\"");
}

#[test]
fn nested_round_trip_matches_serde_json() {
    let input = r#"{"a":[1,2,{"b":"hi\n","c":null,"d":true}],"e":-3.5,"f":[],"g":{}}"#;
    let arena = Bump::new();
    let v = DataValue::from_str(input, &arena, &float_bits).unwrap();
    let ours = v.to_json_string(&float_text);
    let serde: serde_json::Value = serde_json::from_str(input).unwrap();
    let theirs = serde_json::to_string(&serde).unwrap();
    assert_eq!(ours, theirs);
}

#[test]
fn long_string_swar_path() {
    let arena = Bump::new();
    let s = format!("\"{}\"", "x".repeat(200));
    let v = DataValue::from_str(&s, &arena, &float_bits).unwrap();
    assert_eq!(v.to_json_string(&float_text), s);
}

#[test]
fn non_finite_floats_render_as_null() {
    let v = DataValue::Number(NumberValue::Float(f64::NAN.to_bits()));
    assert_eq!(v.to_json_string(&float_text), "null");
    let v = DataValue::Number(NumberValue::Float(f64::INFINITY.to_bits()));
    assert_eq!(v.to_json_string(&float_text), "null");
    let v = DataValue::Number(NumberValue::Float(f64::NEG_INFINITY.to_bits()));
    assert_eq!(v.to_json_string(&float_text), "null");
}

#[test]
fn owned_round_trip() {
    let v = OwnedDataValue::from_json(r#"{"name":"alice","age":30}"#, &float_bits).unwrap();
    let serde: serde_json::Value = serde_json::from_str(&v.to_json_string(&float_text)).unwrap();
    assert_eq!(serde["name"], "alice");
    assert_eq!(serde["age"], 30);
}

#[test]
fn write_json_into_buffer() {
    let arena = Bump::new();
    let v = DataValue::from_str(r#"[1,2,3]"#, &arena, &float_bits).unwrap();
    let mut buf = Vec::new();
    v.write_json_into(&mut buf, &float_text);
    assert_eq!(buf, b"[1,2,3]");
}

#[test]
fn emit_pretty_matches_serde_json_pretty() {
    let input = r#"{"a":[1,2,{"b":"hi","c":null}],"e":-3.5,"f":[],"g":{}}"#;
    let arena = Bump::new();
    let v = DataValue::from_str(input, &arena, &float_bits).unwrap();
    let ours = v.pretty().to_json_string(&float_text);
    let serde: serde_json::Value = serde_json::from_str(input).unwrap();
    let theirs = serde_json::to_string_pretty(&serde).unwrap();
    assert_eq!(ours, theirs);
}

#[test]
fn pretty_owned_matches_serde_json_pretty() {
    let input = r#"{"a":[1,2,{"b":"hi","c":null}],"e":-3.5,"f":[],"g":{}}"#;
    let v = OwnedDataValue::from_json(input, &float_bits).unwrap();
    let serde: serde_json::Value = serde_json::from_str(input).unwrap();
    assert_eq!(
        v.pretty().to_json_string(&float_text),
        serde_json::to_string_pretty(&serde).unwrap()
    );
}

#[test]
fn pretty_empty_collections_inline() {
    let arena = Bump::new();
    let v = DataValue::from_str(r#"{"a":[],"b":{}}"#, &arena, &float_bits).unwrap();
    assert_eq!(v.pretty().to_json_string(&float_text), "{\n  \"a\": [],\n  \"b\": {}\n}");
}

#[test]
fn pretty_deep_indent_beyond_64_spaces() {
    let arena = Bump::new();
    let mut s = String::new();
    for _ in 0..35 {
        s.push('[');
    }
    s.push('1');
    for _ in 0..35 {
        s.push(']');
    }
    let v = DataValue::from_str(&s, &arena, &float_bits).unwrap();
    let ours = v.pretty().to_json_string(&float_text);
    let serde: serde_json::Value = serde_json::from_str(&s).unwrap();
    assert_eq!(ours, serde_json::to_string_pretty(&serde).unwrap());
}

#[test]
fn write_pretty_appends_to_existing_buffer() {
    let arena = Bump::new();
    let v = DataValue::from_str(r#"[true,{"k":"v"}]"#, &arena, &float_bits).unwrap();
    let mut buf = b"x=".to_vec();
    v.write_json_pretty_into(&mut buf, &float_text);
    assert_eq!(buf, b"x=[\n  true,\n  {\n    \"k\": \"v\"\n  }\n]".to_vec());
}

#[test]
fn integers_render_exactly() {
    assert_eq!(round_trip("0"), "0");
    assert_eq!(round_trip("-0"), "0");
    assert_eq!(round_trip("123456789012345678"), "123456789012345678");
    assert_eq!(round_trip("-123456789012345678"), "-123456789012345678");
}

#[test]
fn extreme_integers_render_exactly() {
    let v = DataValue::from_i64(i64::MIN);
    assert_eq!(v.to_json_string(&float_text), "-9223372036854775808");
    let v = DataValue::from_i64(i64::MAX);
    assert_eq!(v.to_json_string(&float_text), "9223372036854775807");
}

#[test]
fn every_control_byte_is_escaped() {
    for b in 0u8..0x20 {
        let s = String::from_utf8(vec![b'a', b, b'z']).unwrap();
        let v = DataValue::from_borrowed_str(&s);
        let out = v.to_json_string(&float_text);
        let expected = serde_json::to_string(&s).unwrap();
        assert_eq!(out, expected, "byte {b:#x}");
    }
}

#[test]
fn owned_emit_matches_arena_emit() {
    let input = r#"{"a":[1,-2.25,"s\t"],"b":{"c":false}}"#;
    let arena = Bump::new();
    let v = DataValue::from_str(input, &arena, &float_bits).unwrap();
    let o = v.to_owned();
    assert_eq!(v.to_json_string(&float_text), o.to_json_string(&float_text));
    assert_eq!(v.pretty().to_json_string(&float_text), o.pretty().to_json_string(&float_text));
}

#[test]
fn emitted_text_parses_back_to_the_same_value() {
    let inputs = [
        r#"{"a":[1,2,{"b":"hi\n","c":null,"d":true}],"e":-3.5,"f":[],"g":{}}"#,
        r#"[0.1,-0.0,1e300,5e-324,1.7976931348623157e308,-123456789012345678]"#,
        r#""\u0000\u001f\"\\ é 😀""#,
        r#"{"k":{"k":{"k":[[],[{}],{"x":false}]}}}"#,
    ];
    for input in inputs {
        let arena = Bump::new();
        let v = DataValue::from_str(input, &arena, &float_bits).unwrap();
        let text = v.to_json_string(&float_text);
        let arena2 = Bump::new();
        let back = DataValue::from_str(&text, &arena2, &float_bits).unwrap();
        assert_eq!(back.to_owned(), v.to_owned(), "{input}");
        assert_eq!(back.to_json_string(&float_text), text);
        let pretty = v.pretty().to_json_string(&float_text);
        let arena3 = Bump::new();
        let back = DataValue::from_str(&pretty, &arena3, &float_bits).unwrap();
        assert_eq!(back.to_owned(), v.to_owned(), "{input}");
    }
}

#[test]
fn every_i64_comes_back_as_an_integer() {
    for i in [i64::MAX, i64::MIN, 1_000_000_000_000_000_000, -1_000_000_000_000_000_000, 0] {
        let v = DataValue::from_i64(i);
        let text = v.to_json_string(&float_text);
        let arena = Bump::new();
        let back = DataValue::from_str(&text, &arena, &float_bits).unwrap();
        assert_eq!(back.as_i64(), Some(i));
        assert!(back.is_i64());
    }
    let n = DataValue::Number(NumberValue::Float(f64::NAN.to_bits()));
    let arena = Bump::new();
    let null_text = n.to_json_string(&float_text);
    let back = DataValue::from_str(&null_text, &arena, &float_bits).unwrap();
    assert!(back.is_null());
}

#[test]
fn datetime_and_duration_emit_as_quoted_text() {
    let dt = DataDateTime::parse("2024-01-15T12:30:45Z").unwrap();
    let d = DataDuration::parse("3d:4h").unwrap();
    assert_eq!(DataValue::datetime(dt).to_json_string(&float_text), "\"2024-01-15T12:30:45Z\"");
    assert_eq!(DataValue::duration(d).to_json_string(&float_text), "\"3d:4h:0m:0s\"");
    let arena = Bump::new();
    let items = arena.alloc_slice_copy(&[DataValue::datetime(dt), DataValue::duration(d)]);
    let arr = DataValue::Array(items);
    assert_eq!(arr.to_json_string(&float_text), "[\"2024-01-15T12:30:45Z\",\"3d:4h:0m:0s\"]");
    assert_eq!(arr.to_owned().to_json_string(&float_text), "[\"2024-01-15T12:30:45Z\",\"3d:4h:0m:0s\"]");
}
