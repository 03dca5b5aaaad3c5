use bumpalo::Bump;
use datavalue::datetime::{DataDateTime, DataDuration};
use datavalue::{DataValue, OwnedDataValue};

fn float_bits(s: &[u8]) -> Option<u64> {
    fast_float2::parse::<f64, _>(s).ok().map(f64::to_bits)
}

#[test]
fn parse_round_trip_via_owned() {
    let v = OwnedDataValue::from_json(r#"{"a":1,"b":[true,null,"x"]}"#, &float_bits).unwrap();
    assert_eq!(v["a"].as_i64(), Some(1));
    assert_eq!(v["b"][0].as_bool(), Some(true));
    assert!(v["b"][1].is_null());
    assert_eq!(v["b"][2].as_str(), Some("x"));
}

#[test]
fn arena_to_owned_to_arena_round_trip() {
    let arena = Bump::new();
    let original =
        DataValue::from_str(r#"{"x":42,"y":[1,2,3],"z":{"k":true}}"#, &arena, &float_bits).unwrap();
    let owned = original.to_owned();

    drop(arena);
    assert_eq!(owned["x"].as_i64(), Some(42));
    assert_eq!(owned["y"][1].as_i64(), Some(2));
    assert_eq!(owned["z"]["k"].as_bool(), Some(true));

    let arena2 = Bump::new();
    let back = owned.to_arena(&arena2);
    assert_eq!(back["x"].as_i64(), Some(42));
    assert_eq!(back["y"][1].as_i64(), Some(2));
    assert_eq!(back["z"]["k"].as_bool(), Some(true));

    assert_eq!(back.to_owned(), owned);
}

#[test]
fn missing_index_returns_null() {
    let v = OwnedDataValue::from_json(r#"{"a":1}"#, &float_bits).unwrap();
    assert!(v["missing"].is_null());
    assert!(v["a"][99].is_null());
}

#[test]
fn owned_equality_object_order_insensitive() {
    let a = OwnedDataValue::Object(vec![
        ("x".to_string(), OwnedDataValue::from_i64(1)),
        ("y".to_string(), OwnedDataValue::from_i64(2)),
    ]);
    let b = OwnedDataValue::Object(vec![
        ("y".to_string(), OwnedDataValue::from_i64(2)),
        ("x".to_string(), OwnedDataValue::from_i64(1)),
    ]);
    assert_eq!(a, b);
}

#[test]
fn from_json_reports_parse_errors() {
    let e = OwnedDataValue::from_json("[1,", &float_bits).unwrap_err();
    assert_eq!(e.kind, datavalue::ParseErrorKind::UnexpectedEof);
    assert_eq!(e.position, 3);
}

#[test]
fn owned_accessors() {
    let v = OwnedDataValue::from_json(r#"{"s":"t","n":2.5,"a":[1,2],"o":{}}"#, &float_bits).unwrap();
    assert!(v.is_object());
    assert_eq!(v.len(), Some(4));
    assert_eq!(v.is_empty(), Some(false));
    assert_eq!(v["o"].is_empty(), Some(true));
    assert!(v["n"].is_number() && v["n"].is_f64() && !v["n"].is_i64());
    assert_eq!(v["n"].as_i64(), None);
    assert_eq!(v["n"].as_number().map(|n| f64::from_bits(n.as_f64_bits())), Some(2.5));
    assert!(v["s"].is_string());
    assert_eq!(v["s"].len(), None);
    assert_eq!(v["a"].as_array().map(|a| a.len()), Some(2));
    assert_eq!(v.as_object().map(|o| o.len()), Some(4));
    assert_eq!(v.get("a").and_then(|a| a.get(1)).and_then(|x| x.as_i64()), Some(2));
    assert!(v.get("zz").is_none());
    assert!(OwnedDataValue::default().is_null());
    let key = String::from("s");
    assert_eq!(v[&key].as_str(), Some("t"));
    assert_eq!(v[key.as_str()].as_str(), Some("t"));
}

#[test]
fn owned_and_arena_values_are_the_same_tree() {
    let input = r#"{"k":[null,false,-1,"é"],"o":{"p":{}}}"#;
    let arena = Bump::new();
    let v = DataValue::from_str(input, &arena, &float_bits).unwrap();
    let o = OwnedDataValue::from_json(input, &float_bits).unwrap();
    assert_eq!(v.to_owned(), o);
    let arena2 = Bump::new();
    assert_eq!(o.to_arena(&arena2), v);
}

#[test]
fn datetime_variant_round_trips_through_owned() {
    let arena = Bump::new();
    let dt = DataDateTime::parse("2024-01-15T12:30:45Z").unwrap();
    let bv = DataValue::DateTime(dt);
    let owned = bv.to_owned();
    assert!(owned.is_datetime());
    assert_eq!(owned.as_datetime().unwrap().to_iso_string(), "2024-01-15T12:30:45Z");
    let back = owned.to_arena(&arena);
    assert_eq!(back, bv);
}

#[test]
fn duration_variant_round_trips_through_owned() {
    let arena = Bump::new();
    let d = DataDuration::parse("3d:4h").unwrap();
    let bv = DataValue::Duration(d);
    let owned = bv.to_owned();
    assert!(owned.is_duration());
    assert_eq!(owned.as_duration().unwrap().to_string(), "3d:4h:0m:0s");
    assert!(owned.as_datetime().is_none());
    assert_eq!(owned.to_arena(&arena), bv);
}
