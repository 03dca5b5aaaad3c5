use std::borrow::Cow;
use std::collections::{BTreeMap, HashMap};

use bumpalo::Bump;
use datavalue::{DataValue, OwnedDataValue};

fn float_bits(s: &[u8]) -> Option<u64> {
    fast_float2::parse::<f64, _>(s).ok().map(f64::to_bits)
}

fn float_text(bits: u64) -> Vec<u8> {
    let mut buf = ryu::Buffer::new();
    buf.format_finite(f64::from_bits(bits)).as_bytes().to_vec()
}

#[test]
fn from_primitive_ints_use_integer_path() {
    let v: OwnedDataValue = 42i32.into();
    assert_eq!(v.as_i64(), Some(42));
    assert!(v.is_i64());

    let v: OwnedDataValue = 17u32.into();
    assert_eq!(v.as_i64(), Some(17));
    assert!(v.is_i64());

    let v: OwnedDataValue = 1_000_000_000_000u64.into();
    assert_eq!(v.as_i64(), Some(1_000_000_000_000));

    let v: OwnedDataValue = (i64::MAX as u64 + 10).into();
    assert!(v.is_f64());
}

#[test]
fn from_unit_is_null() {
    let v: OwnedDataValue = ().into();
    assert!(v.is_null());
}

#[test]
fn from_option() {
    let some: OwnedDataValue = Some(7i32).into();
    assert_eq!(some.as_i64(), Some(7));
    let none: OwnedDataValue = Option::<i32>::None.into();
    assert!(none.is_null());
}

#[test]
fn from_vec_and_array() {
    let v: OwnedDataValue = vec![1i32, 2, 3].into();
    assert_eq!(v.as_array().unwrap().len(), 3);
    assert_eq!(v[0].as_i64(), Some(1));

    let v: OwnedDataValue = [true, false, true].into();
    assert_eq!(v[1].as_bool(), Some(false));

    let v: OwnedDataValue = vec!["a".to_string(), "b".to_string()].into();
    assert_eq!(v[1].as_str(), Some("b"));
}

#[test]
fn members_iter_array() {
    let v = OwnedDataValue::from(vec![1i64, 2, 3, 4]);
    let collected: Vec<i64> = v.members().map(|m| m.as_i64().unwrap()).collect();
    assert_eq!(collected, vec![1, 2, 3, 4]);

    let v = OwnedDataValue::from("not-an-array");
    assert_eq!(v.members().count(), 0);
}

#[test]
fn entries_iter_object_preserves_order() {
    let v = OwnedDataValue::object(vec![("a", 1i64), ("b", 2), ("c", 3)]);
    let keys: Vec<&str> = v.entries().map(|(k, _)| k.as_str()).collect();
    assert_eq!(keys, vec!["a", "b", "c"]);

    let v = OwnedDataValue::from(42i64);
    assert_eq!(v.entries().count(), 0);
}

#[test]
fn display_compact_matches_serde_json() {
    let v = OwnedDataValue::object(vec![
        ("items", OwnedDataValue::from(vec![1i64, 2, 3])),
        ("name", OwnedDataValue::from("x")),
    ]);
    let ours = v.to_json_string(&float_text);
    let serde: serde_json::Value = serde_json::from_str(&ours).unwrap();
    assert_eq!(ours, serde_json::to_string(&serde).unwrap());
}

#[test]
fn ergonomics_pretty_matches_serde_json_pretty() {
    let v = OwnedDataValue::object(vec![
        (
            "alpha",
            OwnedDataValue::from(vec![
                OwnedDataValue::from(1i64),
                OwnedDataValue::from(2i64),
                OwnedDataValue::object(vec![("k", "v")]),
            ]),
        ),
        ("beta", OwnedDataValue::from("x")),
        ("empty_arr", OwnedDataValue::from(Vec::<OwnedDataValue>::new())),
        ("empty_obj", OwnedDataValue::Object(Vec::new())),
    ]);
    let ours = v.pretty().to_json_string(&float_text);
    let serde: serde_json::Value = serde_json::from_str(&v.to_json_string(&float_text)).unwrap();
    assert_eq!(ours, serde_json::to_string_pretty(&serde).unwrap());
}

#[test]
fn arena_value_display_and_pretty() {
    let arena = Bump::new();
    let v = DataValue::from_str(r#"{"a":[1,2]}"#, &arena, &float_bits).unwrap();
    assert_eq!(v.to_json_string(&float_text), r#"{"a":[1,2]}"#);
    assert_eq!(
        v.pretty().to_json_string(&float_text),
        "{\n  \"a\": [\n    1,\n    2\n  ]\n}"
    );

    let inner = &v["a"];
    let collected: Vec<i64> = inner.members().map(|m| m.as_i64().unwrap()).collect();
    assert_eq!(collected, vec![1, 2]);
    let keys: Vec<&str> = v.entries().map(|(k, _)| *k).collect();
    assert_eq!(keys, vec!["a"]);
}

#[test]
fn builders_keep_order_and_convert() {
    let v = OwnedDataValue::array(vec![Some(1i32), None, Some(3)]);
    assert_eq!(v[0].as_i64(), Some(1));
    assert!(v[1].is_null());
    assert_eq!(v.len(), Some(3));
    let v = OwnedDataValue::object(vec![("type", "NaN"), ("op", "+")]);
    assert_eq!(v["type"].as_str(), Some("NaN"));
    assert_eq!(v.as_object().unwrap()[1].0, "op");
    let v = OwnedDataValue::object(vec![(String::from("count"), 42u8)]);
    assert_eq!(v["count"].as_i64(), Some(42));
}

#[test]
fn from_scalars_and_strings() {
    assert_eq!(OwnedDataValue::from(true).as_bool(), Some(true));
    assert_eq!(OwnedDataValue::from(-5i8).as_i64(), Some(-5));
    assert_eq!(OwnedDataValue::from(-300i16).as_i64(), Some(-300));
    assert_eq!(OwnedDataValue::from(200u8).as_i64(), Some(200));
    assert_eq!(OwnedDataValue::from(60000u16).as_i64(), Some(60000));
    assert_eq!(OwnedDataValue::from(-9isize).as_i64(), Some(-9));
    assert_eq!(OwnedDataValue::from(9usize).as_i64(), Some(9));
    assert_eq!(OwnedDataValue::from(i64::MIN).as_i64(), Some(i64::MIN));
    assert_eq!(OwnedDataValue::from(i64::MAX as u64).as_i64(), Some(i64::MAX));
    let big = OwnedDataValue::from(u64::MAX);
    assert_eq!(
        big.as_number().map(|n| f64::from_bits(n.as_f64_bits())),
        Some(u64::MAX as f64)
    );
    let s = String::from("owned");
    assert_eq!(OwnedDataValue::from(&s).as_str(), Some("owned"));
    assert_eq!(OwnedDataValue::from(s).as_str(), Some("owned"));
    let pairs = vec![(String::from("k"), OwnedDataValue::from(1i64))];
    assert_eq!(OwnedDataValue::from(pairs)["k"].as_i64(), Some(1));
}

#[test]
fn from_slice_clones_items() {
    let names = vec![String::from("a"), String::from("b")];
    let v = OwnedDataValue::from(names.as_slice());
    assert_eq!(v[0].as_str(), Some("a"));
    assert_eq!(v[1].as_str(), Some("b"));
    assert_eq!(names.len(), 2);
    let nums: &[i64] = &[5, 6, 7];
    let v: OwnedDataValue = nums.into();
    assert_eq!(v.len(), Some(3));
    assert_eq!(v[2].as_i64(), Some(7));
}

#[test]
fn from_cow_str() {
    let v: OwnedDataValue = Cow::Borrowed("hi").into();
    assert_eq!(v.as_str(), Some("hi"));
    let v: OwnedDataValue = Cow::<str>::Owned("there".into()).into();
    assert_eq!(v.as_str(), Some("there"));
}

#[test]
fn from_hashmap_and_btreemap() {
    let mut m: HashMap<String, i32> = HashMap::new();
    m.insert("x".into(), 1);
    m.insert("y".into(), 2);
    let v: OwnedDataValue = m.into();
    assert!(v.is_object());
    assert_eq!(v["x"].as_i64(), Some(1));
    assert_eq!(v["y"].as_i64(), Some(2));

    let mut m: BTreeMap<String, &str> = BTreeMap::new();
    m.insert("a".into(), "alpha");
    m.insert("b".into(), "beta");
    let v: OwnedDataValue = m.into();
    assert_eq!(v["a"].as_str(), Some("alpha"));
}

#[test]
fn btreemap_entries_come_in_key_order() {
    let mut m: BTreeMap<String, i64> = BTreeMap::new();
    m.insert("zeta".into(), 3);
    m.insert("alpha".into(), 1);
    m.insert("mid".into(), 2);
    let v: OwnedDataValue = m.into();
    let keys: Vec<&str> = v.as_object().unwrap().iter().map(|(k, _)| k.as_str()).collect();
    assert_eq!(keys, vec!["alpha", "mid", "zeta"]);
    assert_eq!(v["mid"].as_i64(), Some(2));

    let mut h: HashMap<String, bool> = HashMap::new();
    h.insert("p".into(), true);
    h.insert("q".into(), false);
    let w: OwnedDataValue = h.into();
    assert_eq!(w.as_object().unwrap().len(), 2);
    assert_eq!(w["q"].as_bool(), Some(false));
}
