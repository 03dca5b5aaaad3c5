use std::cmp::Ordering;

use datavalue::number::{int_add, int_div, int_mul, int_rem, int_sub};
use datavalue::NumberValue;

#[test]
fn from_f64_collapses_whole() {
    assert!(matches!(
        NumberValue::from_f64_bits(42.0f64.to_bits()),
        NumberValue::Integer(42)
    ));
    assert!(matches!(
        NumberValue::from_f64_bits((-3.0f64).to_bits()),
        NumberValue::Integer(-3)
    ));
    assert!(matches!(NumberValue::from_f64_bits(1.5f64.to_bits()), NumberValue::Float(_)));
}

#[test]
fn from_f64_rejects_nan_inf_for_int_path() {
    assert!(matches!(
        NumberValue::from_f64_bits(f64::NAN.to_bits()),
        NumberValue::Float(_)
    ));
    assert!(matches!(
        NumberValue::from_f64_bits(f64::INFINITY.to_bits()),
        NumberValue::Float(_)
    ));
}

#[test]
fn from_f64_range_edges() {
    let two63 = 9_223_372_036_854_775_808.0f64;
    assert!(matches!(NumberValue::from_f64_bits(two63.to_bits()), NumberValue::Integer(i64::MAX)));
    assert!(matches!(NumberValue::from_f64_bits((-two63).to_bits()), NumberValue::Integer(i64::MIN)));
    assert!(matches!(NumberValue::from_f64_bits((two63 * 2.0).to_bits()), NumberValue::Float(_)));
    assert!(matches!(NumberValue::from_f64_bits((-0.0f64).to_bits()), NumberValue::Integer(0)));
    assert!(matches!(NumberValue::from_f64_bits(5e-324f64.to_bits()), NumberValue::Float(_)));
    assert!(matches!(NumberValue::from_f64_bits(1e15f64.to_bits()), NumberValue::Integer(1_000_000_000_000_000)));
}

#[test]
fn cross_type_eq_and_ord() {
    let i = NumberValue::Integer(5);
    let f = NumberValue::Float(5.0f64.to_bits());
    assert_eq!(i, f);
    assert_eq!(i.partial_cmp(&f), Some(Ordering::Equal));

    let f2 = NumberValue::Float(5.5f64.to_bits());
    assert_eq!(i.partial_cmp(&f2), Some(Ordering::Less));
}

#[test]
fn float_order_follows_ieee() {
    let n = |x: f64| NumberValue::Float(x.to_bits());
    let nan = n(f64::NAN);
    assert_eq!(nan.partial_cmp(&nan), None);
    assert_eq!(n(1.0).partial_cmp(&nan), None);
    assert_ne!(nan, nan);
    assert_eq!(n(0.0), n(-0.0));
    assert_eq!(n(0.0).partial_cmp(&n(-0.0)), Some(Ordering::Equal));
    assert_eq!(n(-1.0).partial_cmp(&n(-2.0)), Some(Ordering::Greater));
    assert_eq!(n(-1.0).partial_cmp(&n(0.5)), Some(Ordering::Less));
    assert_eq!(n(f64::NEG_INFINITY).partial_cmp(&n(f64::MIN)), Some(Ordering::Less));
    assert_eq!(n(f64::INFINITY).partial_cmp(&n(f64::MAX)), Some(Ordering::Greater));
    for (a, b) in [(1.5, 2.5), (-3.25, -3.0), (1e-300, 1e300), (-0.0, 1e-320), (7.0, 7.0)] {
        assert_eq!(n(a).partial_cmp(&n(b)), a.partial_cmp(&b));
        assert_eq!(n(b).partial_cmp(&n(a)), b.partial_cmp(&a));
    }
}

#[test]
fn integer_order_and_rounding_against_floats() {
    let i = |x: i64| NumberValue::Integer(x);
    assert_eq!(i(-4).partial_cmp(&i(3)), Some(Ordering::Less));
    assert_eq!(i(3).partial_cmp(&i(3)), Some(Ordering::Equal));
    // 2^53 + 1 rounds to 2^53 before it meets the float.
    let f = NumberValue::Float(9_007_199_254_740_992.0f64.to_bits());
    assert_eq!(i(9_007_199_254_740_993), f);
    assert_eq!(f.partial_cmp(&i(9_007_199_254_740_993)), Some(Ordering::Equal));
    assert_eq!(i(i64::MAX), NumberValue::Float(9_223_372_036_854_775_808.0f64.to_bits()));
}

#[test]
fn neg_overflow_falls_to_float() {
    let a = NumberValue::Integer(i64::MIN);
    assert!(matches!(a.neg(), NumberValue::Float(_)));
    match a.neg() {
        NumberValue::Float(bits) => assert_eq!(f64::from_bits(bits), 9_223_372_036_854_775_808.0),
        NumberValue::Integer(_) => unreachable!(),
    }
}

#[test]
fn neg_and_abs() {
    assert!(matches!(NumberValue::Integer(7).neg(), NumberValue::Integer(-7)));
    assert!(matches!(NumberValue::Integer(-7).abs(), NumberValue::Integer(7)));
    assert!(matches!(NumberValue::Integer(7).abs(), NumberValue::Integer(7)));
    match NumberValue::Integer(i64::MIN).abs() {
        NumberValue::Float(bits) => assert_eq!(f64::from_bits(bits), 9_223_372_036_854_775_808.0),
        NumberValue::Integer(_) => unreachable!(),
    }
    for x in [1.5f64, -2.25, 0.0, -0.0, f64::INFINITY] {
        match NumberValue::Float(x.to_bits()).neg() {
            NumberValue::Float(bits) => assert_eq!(bits, (-x).to_bits()),
            NumberValue::Integer(_) => unreachable!(),
        }
        match NumberValue::Float(x.to_bits()).abs() {
            NumberValue::Float(bits) => assert_eq!(bits, x.abs().to_bits()),
            NumberValue::Integer(_) => unreachable!(),
        }
    }
}

#[test]
fn as_i64_and_as_f64_bits() {
    assert_eq!(NumberValue::Integer(-9).as_i64(), Some(-9));
    assert_eq!(NumberValue::Float(3.0f64.to_bits()).as_i64(), Some(3));
    assert_eq!(NumberValue::Float(3.5f64.to_bits()).as_i64(), None);
    assert_eq!(NumberValue::Float(f64::NAN.to_bits()).as_i64(), None);
    assert_eq!(NumberValue::Float(1e19f64.to_bits()).as_i64(), None);
    for x in [0i64, 1, -1, 12345, i64::MAX, i64::MIN, (1 << 53) + 1, -((1 << 60) + 3)] {
        assert_eq!(NumberValue::Integer(x).as_f64_bits(), (x as f64).to_bits());
    }
    assert_eq!(NumberValue::Float(2.5f64.to_bits()).as_f64_bits(), 2.5f64.to_bits());
    for x in [0u64, 1, u64::MAX, (1 << 63) + 1025, 12_345_678_901_234_567_890] {
        assert_eq!(datavalue::number::u64_to_f64_bits(x), (x as f64).to_bits());
    }
}

#[test]
fn zero_and_nan_predicates() {
    assert!(NumberValue::Integer(0).is_zero());
    assert!(NumberValue::Float((-0.0f64).to_bits()).is_zero());
    assert!(!NumberValue::Float(1e-320f64.to_bits()).is_zero());
    assert!(NumberValue::Float(f64::NAN.to_bits()).is_nan());
    assert!(!NumberValue::Float(f64::INFINITY.to_bits()).is_nan());
    assert!(!NumberValue::Integer(1).is_nan());
    assert!(NumberValue::from_i64(4).is_integer());
    assert!(!NumberValue::Float(4.5f64.to_bits()).is_integer());
}

#[test]
fn integer_arithmetic_decisions() {
    assert_eq!(int_add(2, 3), Some(5));
    assert_eq!(int_add(i64::MAX, 1), None);
    assert_eq!(int_sub(i64::MIN, 1), None);
    assert_eq!(int_sub(-2, 3), Some(-5));
    assert_eq!(int_mul(1 << 32, 1 << 31), None);
    assert_eq!(int_mul(-4, 5), Some(-20));
    assert_eq!(int_div(10, 2), Some(5));
    assert_eq!(int_div(7, 2), None);
    assert_eq!(int_div(-9, 3), Some(-3));
    assert_eq!(int_div(9, -3), Some(-3));
    assert_eq!(int_div(i64::MIN, -1), None);
    assert_eq!(int_div(i64::MIN, 1), Some(i64::MIN));
    assert_eq!(int_div(i64::MIN, 2), Some(i64::MIN / 2));
    assert_eq!(int_rem(7, 3), 1);
    assert_eq!(int_rem(-7, 3), -1);
    assert_eq!(int_rem(7, -3), 1);
    assert_eq!(int_rem(i64::MIN, -1), 0);
    assert_eq!(int_rem(i64::MIN, 3), i64::MIN % 3);
}
