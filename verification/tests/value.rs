use bumpalo::Bump;
use datavalue::datetime::{DataDateTime, DataDuration};
use datavalue::DataValue;

fn float_text(bits: u64) -> Vec<u8> {
    let mut buf = ryu::Buffer::new();
    buf.format_finite(f64::from_bits(bits)).as_bytes().to_vec()
}

fn sample<'a>(arena: &'a Bump) -> DataValue<'a> {
    let nested = arena.alloc_slice_copy(&[
        DataValue::from_i64(1),
        DataValue::from_i64(2),
        DataValue::from_i64(3),
    ]);
    let inner_obj = arena.alloc_slice_copy(&[("k", DataValue::Bool(true))]);
    let pairs = arena.alloc_slice_copy(&[
        ("name", DataValue::from_borrowed_str("alice")),
        ("nums", DataValue::Array(nested)),
        ("inner", DataValue::Object(inner_obj)),
    ]);
    DataValue::Object(pairs)
}

#[test]
fn get_object_key() {
    let arena = Bump::new();
    let v = sample(&arena);
    assert_eq!(v.get("name").and_then(|x| x.as_str()), Some("alice"));
    assert!(v.get("missing").is_none());
}

#[test]
fn get_array_index() {
    let arena = Bump::new();
    let v = sample(&arena);
    let nums = v.get("nums").unwrap();
    assert_eq!(nums.get(0).and_then(|x| x.as_i64()), Some(1));
    assert_eq!(nums.get(2).and_then(|x| x.as_i64()), Some(3));
    assert!(nums.get(99).is_none());
}

#[test]
fn index_returns_null_for_missing() {
    let arena = Bump::new();
    let v = sample(&arena);
    assert!(v["missing"].is_null());
    assert!(v["nums"][99].is_null());
}

#[test]
fn chained_index() {
    let arena = Bump::new();
    let v = sample(&arena);
    assert_eq!(v["inner"]["k"].as_bool(), Some(true));
}

#[test]
fn predicates_and_len() {
    let arena = Bump::new();
    let v = sample(&arena);
    assert!(v.is_object());
    assert_eq!(v.len(), Some(3));
    assert_eq!(v["nums"].len(), Some(3));
    assert_eq!(v["name"].len(), None);
}

#[test]
fn value_equality_object_order_insensitive() {
    let arena = Bump::new();
    let a = arena.alloc_slice_copy(&[("x", DataValue::from_i64(1)), ("y", DataValue::from_i64(2))]);
    let b = arena.alloc_slice_copy(&[("y", DataValue::from_i64(2)), ("x", DataValue::from_i64(1))]);
    assert_eq!(DataValue::Object(a), DataValue::Object(b));
}

#[test]
fn index_by_string_and_reference() {
    let arena = Bump::new();
    let v = sample(&arena);
    let key = String::from("name");
    assert_eq!(v[&key].as_str(), Some("alice"));
    assert_eq!(v.get(key).and_then(|x| x.as_str()), Some("alice"));
    assert_eq!(v["nums"][&1usize].as_i64(), Some(2));
    // An index of the wrong kind finds nothing.
    assert!(v[0].is_null());
    assert!(v["nums"]["0"].is_null());
    assert!(v["name"]["x"].is_null());
}

#[test]
fn first_duplicate_key_wins() {
    let arena = Bump::new();
    let pairs = arena.alloc_slice_copy(&[("k", DataValue::from_i64(1)), ("k", DataValue::from_i64(2))]);
    let v = DataValue::Object(pairs);
    assert_eq!(v["k"].as_i64(), Some(1));
}

#[test]
fn accessors_reject_other_kinds() {
    let arena = Bump::new();
    let v = sample(&arena);
    assert_eq!(v.as_bool(), None);
    assert_eq!(v.as_i64(), None);
    assert!(v.as_number().is_none());
    assert_eq!(v.as_str(), None);
    assert!(v.as_array().is_none());
    assert_eq!(v.as_object().map(|o| o.len()), Some(3));
    assert_eq!(v["nums"].as_array().map(|a| a.len()), Some(3));
    assert!(DataValue::null().is_null());
    assert_eq!(DataValue::bool(false).as_bool(), Some(false));
    assert!(DataValue::default().is_null());
    assert!(v["nums"][0].is_number() && v["nums"][0].is_i64() && !v["nums"][0].is_f64());
    assert!(v["name"].is_string() && !v["name"].is_array());
    assert_eq!(v.is_empty(), Some(false));
    assert_eq!(v["name"].is_empty(), None);
}

#[test]
fn string_copied_into_arena() {
    let arena = Bump::new();
    let owned = String::from("copied");
    let v = DataValue::from_str_in(&owned, &arena);
    drop(owned);
    assert_eq!(v.as_str(), Some("copied"));
}

#[test]
fn members_and_entries_in_order() {
    let arena = Bump::new();
    let v = sample(&arena);
    let nums: Vec<i64> = v["nums"].members().map(|m| m.as_i64().unwrap()).collect();
    assert_eq!(nums, vec![1, 2, 3]);
    let keys: Vec<&str> = v.entries().map(|(k, _)| *k).collect();
    assert_eq!(keys, vec!["name", "nums", "inner"]);
    assert_eq!(v.members().count(), 0);
    assert_eq!(v["nums"].entries().count(), 0);
}

#[test]
fn equality_is_structural_elsewhere() {
    let arena = Bump::new();
    let a = sample(&arena);
    let b = sample(&arena);
    assert_eq!(a, b);
    let c = arena.alloc_slice_copy(&[DataValue::from_i64(3), DataValue::from_i64(2), DataValue::from_i64(1)]);
    assert_ne!(a["nums"], DataValue::Array(c));
    assert_ne!(DataValue::Null, DataValue::Bool(false));
    assert_eq!(
        DataValue::Number(datavalue::NumberValue::Integer(2)),
        DataValue::Number(datavalue::NumberValue::Float(2.0f64.to_bits()))
    );
}

#[test]
fn objects_with_different_key_sets_differ() {
    let arena = Bump::new();
    let a = arena.alloc_slice_copy(&[("x", DataValue::from_i64(1))]);
    let b = arena.alloc_slice_copy(&[("y", DataValue::from_i64(1))]);
    let c = arena.alloc_slice_copy(&[("x", DataValue::from_i64(1)), ("y", DataValue::from_i64(1))]);
    assert_ne!(DataValue::Object(a), DataValue::Object(b));
    assert_ne!(DataValue::Object(a), DataValue::Object(c));
    assert_eq!(DataValue::Object(a).to_json_string(&float_text), r#"{"x":1}"#);
}

#[test]
fn datetime_variant_round_trips_through_value() {
    let dt = DataDateTime::parse("2024-01-15T12:30:45Z").unwrap();
    let v = DataValue::datetime(dt);
    assert!(v.is_datetime());
    assert_eq!(
        v.as_datetime().map(|d| d.to_iso_string()).as_deref(),
        Some("2024-01-15T12:30:45Z")
    );

    let dur = DataDuration::parse("1d:2h").unwrap();
    let v2 = DataValue::duration(dur);
    assert!(v2.is_duration());
    assert_eq!(v2.as_duration().unwrap().to_string(), "1d:2h:0m:0s");

    assert_eq!(v, DataValue::datetime(dt));
    assert_ne!(v, v2);
}

#[test]
fn datetime_variants_compare_by_instant_and_span() {
    let a = DataDateTime::parse("2024-01-15T12:30:45Z").unwrap();
    let b = DataDateTime::parse("2024-01-15T18:00:45+05:30").unwrap();
    let c = DataDateTime::parse("2024-01-15T12:30:46Z").unwrap();
    assert_eq!(DataValue::datetime(a), DataValue::datetime(b));
    assert_ne!(DataValue::datetime(a), DataValue::datetime(c));
    let d1 = DataDuration::parse("1d").unwrap();
    let d2 = DataDuration::parse("24h").unwrap();
    let d3 = DataDuration::parse("1h").unwrap();
    assert_eq!(DataValue::duration(d1), DataValue::duration(d2));
    assert_ne!(DataValue::duration(d1), DataValue::duration(d3));
    assert!(DataValue::datetime(a).as_duration().is_none());
    assert!(DataValue::duration(d1).as_datetime().is_none());
    assert!(!DataValue::Null.is_datetime());
}
