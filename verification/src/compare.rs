//! The order of JSON numbers: integers by value, floats in IEEE-754 order
//! (NaN unordered, the two zeros equal), and an integer against a float
//! once the integer is rounded to the nearest binary64; and the order of
//! instants.

use core::cmp::Ordering;
use vstd::prelude::*;
use vstd::std_specs::cmp::PartialOrdSpecImpl;

use crate::datetime::DataDateTime;
use crate::number::{
    f64_bits_eq, f64_eq, f64_is_nan, f64_is_zero, f64_negative, i64_to_f64_bits, int_to_f64_bits, number_eq,
    NumberValue, SIGN_BIT,
};

verus! {

/// `x` lies strictly below `y` in IEEE-754 order; false when either is NaN.
pub open spec fn f64_lt(x: u64, y: u64) -> bool {
    &&& !f64_is_nan(x)
    &&& !f64_is_nan(y)
    &&& !(f64_is_zero(x) && f64_is_zero(y))
    &&& if f64_negative(x) != f64_negative(y) {
        f64_negative(x)
    } else if f64_negative(x) {
        y < x
    } else {
        x < y
    }
}

/// How `x` compares with `y` in IEEE-754 order; `None` when either is NaN.
pub open spec fn f64_order(x: u64, y: u64) -> Option<Ordering> {
    if f64_is_nan(x) || f64_is_nan(y) {
        None
    } else if f64_lt(x, y) {
        Some(Ordering::Less)
    } else if f64_eq(x, y) {
        Some(Ordering::Equal)
    } else {
        Some(Ordering::Greater)
    }
}

/// How two numbers compare: integers by value, floats in IEEE-754 order, an
/// integer against a float after rounding the integer to a binary64.
pub open spec fn number_order(a: NumberValue, b: NumberValue) -> Option<Ordering> {
    match (a, b) {
        (NumberValue::Integer(x), NumberValue::Integer(y)) => Some(
            if x < y {
                Ordering::Less
            } else if x == y {
                Ordering::Equal
            } else {
                Ordering::Greater
            },
        ),
        (NumberValue::Float(x), NumberValue::Float(y)) => f64_order(x, y),
        (NumberValue::Integer(x), NumberValue::Float(y)) => f64_order(i64_bits(x), y),
        (NumberValue::Float(x), NumberValue::Integer(y)) => f64_order(x, i64_bits(y)),
    }
}

/// The binary64 nearest to `x`.
pub open spec fn i64_bits(x: i64) -> u64 {
    int_to_f64_bits(x as int)
}

proof fn lemma_sign_bit(x: u64)
    by (bit_vector)
    ensures
        (x >> 63u64 == 1) == (x & 0x8000_0000_0000_0000u64 != 0),
        ((x >> 52u64) & 0x7ffu64 == 0x7ff && x & 0xf_ffff_ffff_ffffu64 != 0) == (x
            & 0x7fff_ffff_ffff_ffffu64 > 0x7ff0_0000_0000_0000u64),
        ((x >> 52u64) & 0x7ffu64 == 0 && x & 0xf_ffff_ffff_ffffu64 == 0) == (x
            & 0x7fff_ffff_ffff_ffffu64 == 0),
{
}

fn f64_bits_lt(x: u64, y: u64) -> (r: bool)
    ensures
        r == f64_lt(x, y),
{
    proof {
        lemma_sign_bit(x);
        lemma_sign_bit(y);
    }
    let mag_x = x & 0x7fff_ffff_ffff_ffffu64;
    let mag_y = y & 0x7fff_ffff_ffff_ffffu64;
    if mag_x > 0x7ff0_0000_0000_0000u64 || mag_y > 0x7ff0_0000_0000_0000u64 {
        return false;
    }
    if mag_x == 0 && mag_y == 0 {
        return false;
    }
    let neg_x = x & SIGN_BIT != 0;
    let neg_y = y & SIGN_BIT != 0;
    if neg_x != neg_y {
        neg_x
    } else if neg_x {
        y < x
    } else {
        x < y
    }
}

fn f64_bits_order(x: u64, y: u64) -> (r: Option<Ordering>)
    ensures
        r == f64_order(x, y),
{
    proof {
        lemma_sign_bit(x);
        lemma_sign_bit(y);
    }
    let nan_x = x & 0x7fff_ffff_ffff_ffffu64 > 0x7ff0_0000_0000_0000u64;
    let nan_y = y & 0x7fff_ffff_ffff_ffffu64 > 0x7ff0_0000_0000_0000u64;
    if nan_x || nan_y {
        None
    } else if f64_bits_lt(x, y) {
        Some(Ordering::Less)
    } else if f64_bits_eq(x, y) {
        Some(Ordering::Equal)
    } else {
        Some(Ordering::Greater)
    }
}

impl PartialOrd for NumberValue {
    fn partial_cmp(&self, other: &Self) -> (r: Option<Ordering>) {
        match (*self, *other) {
            (NumberValue::Integer(a), NumberValue::Integer(b)) => Some(
                if a < b {
                    Ordering::Less
                } else if a == b {
                    Ordering::Equal
                } else {
                    Ordering::Greater
                },
            ),
            (NumberValue::Float(a), NumberValue::Float(b)) => f64_bits_order(a, b),
            (NumberValue::Integer(a), NumberValue::Float(b)) => f64_bits_order(i64_to_f64_bits(a), b),
            (NumberValue::Float(a), NumberValue::Integer(b)) => f64_bits_order(a, i64_to_f64_bits(b)),
        }
    }
}

impl PartialOrdSpecImpl for NumberValue {
    open spec fn obeys_partial_cmp_spec() -> bool {
        true
    }

    open spec fn partial_cmp_spec(&self, other: &NumberValue) -> Option<Ordering> {
        number_order(*self, *other)
    }
}

/// Two binary64 values that are not NaN are ordered one way, the other, or
/// equal, and exactly one of these.
proof fn lemma_f64_trichotomy(x: u64, y: u64)
    requires
        !f64_is_nan(x),
        !f64_is_nan(y),
    ensures
        f64_lt(x, y) || f64_eq(x, y) || f64_lt(y, x),
        !(f64_lt(x, y) && f64_eq(x, y)),
        !(f64_lt(y, x) && f64_eq(x, y)),
        !(f64_lt(x, y) && f64_lt(y, x)),
        f64_eq(x, y) == f64_eq(y, x),
{
    if f64_negative(x) == f64_negative(y) && x != y && !(f64_is_zero(x) && f64_is_zero(y)) {
        assert(x < y || y < x);
    }
}

/// `==` on numbers agrees with `partial_cmp`: two numbers are equal exactly
/// when they compare as `Equal`.
pub proof fn law_number_eq_is_cmp_equal(a: NumberValue, b: NumberValue)
    ensures
        number_eq(a, b) <==> number_order(a, b) == Some(Ordering::Equal),
{
    match (a, b) {
        (NumberValue::Float(x), NumberValue::Float(y)) => {
            if !f64_is_nan(x) && !f64_is_nan(y) {
                lemma_f64_trichotomy(x, y);
            }
        },
        (NumberValue::Integer(x), NumberValue::Float(y)) => {
            if !f64_is_nan(i64_bits(x)) && !f64_is_nan(y) {
                lemma_f64_trichotomy(i64_bits(x), y);
            }
        },
        (NumberValue::Float(x), NumberValue::Integer(y)) => {
            if !f64_is_nan(x) && !f64_is_nan(i64_bits(y)) {
                lemma_f64_trichotomy(x, i64_bits(y));
            }
        },
        _ => {},
    }
}

/// `partial_cmp` on numbers is antisymmetric: swapping the two numbers
/// reverses the answer, and leaves `None` (a NaN) as it is.
pub proof fn law_number_cmp_reverses(a: NumberValue, b: NumberValue)
    ensures
        number_order(b, a) == match number_order(a, b) {
            Some(Ordering::Less) => Some(Ordering::Greater),
            Some(Ordering::Greater) => Some(Ordering::Less),
            other => other,
        },
{
    match (a, b) {
        (NumberValue::Float(x), NumberValue::Float(y)) => {
            if !f64_is_nan(x) && !f64_is_nan(y) {
                lemma_f64_trichotomy(x, y);
            }
        },
        (NumberValue::Integer(x), NumberValue::Float(y)) => {
            if !f64_is_nan(i64_bits(x)) && !f64_is_nan(y) {
                lemma_f64_trichotomy(i64_bits(x), y);
            }
        },
        (NumberValue::Float(x), NumberValue::Integer(y)) => {
            if !f64_is_nan(x) && !f64_is_nan(i64_bits(y)) {
                lemma_f64_trichotomy(x, i64_bits(y));
            }
        },
        _ => {},
    }
}

/// How two instants compare: by their seconds, then their nanoseconds.
pub open spec fn instant_order(a: (i64, u32), b: (i64, u32)) -> Ordering {
    if a.0 < b.0 || (a.0 == b.0 && a.1 < b.1) {
        Ordering::Less
    } else if a == b {
        Ordering::Equal
    } else {
        Ordering::Greater
    }
}

impl PartialOrd for DataDateTime {
    /// Earlier instants first, whatever the offsets.
    fn partial_cmp(&self, other: &Self) -> (r: Option<Ordering>) {
        let (s1, n1) = (self.timestamp(), self.timestamp_subsec_nanos());
        let (s2, n2) = (other.timestamp(), other.timestamp_subsec_nanos());
        Some(
            if s1 < s2 || (s1 == s2 && n1 < n2) {
                Ordering::Less
            } else if s1 == s2 && n1 == n2 {
                Ordering::Equal
            } else {
                Ordering::Greater
            },
        )
    }
}

impl PartialOrdSpecImpl for DataDateTime {
    open spec fn obeys_partial_cmp_spec() -> bool {
        true
    }

    open spec fn partial_cmp_spec(&self, other: &DataDateTime) -> Option<Ordering> {
        Some(instant_order(self.instant(), other.instant()))
    }
}

/// The nanoseconds since 1970 of an instant given as seconds and
/// nanoseconds.
pub open spec fn instant_nanos(a: (i64, u32)) -> int {
    a.0 * 1_000_000_000 + a.1
}

/// Instants (as `DataDateTime::partial_cmp` compares them) are ordered as
/// time runs. One with fewer whole seconds since 1970 is earlier whatever
/// the nanoseconds; with the same seconds, fewer nanoseconds come first;
/// outside leap seconds (nanoseconds below 10^9) this is the order of their
/// nanosecond counts since 1970. Only the same instant compares `Equal`,
/// swapping the two reverses the answer, and the order is transitive.
pub proof fn law_instant_order(a: (i64, u32), b: (i64, u32), c: (i64, u32))
    ensures
        a.0 < b.0 ==> instant_order(a, b) == Ordering::Less,
        a.0 == b.0 && a.1 < b.1 ==> instant_order(a, b) == Ordering::Less,
        a.1 < 1_000_000_000 && b.1 < 1_000_000_000 ==> {
            &&& (instant_order(a, b) == Ordering::Less <==> instant_nanos(a) < instant_nanos(b))
            &&& (instant_order(a, b) == Ordering::Equal <==> instant_nanos(a) == instant_nanos(b))
            &&& (instant_order(a, b) == Ordering::Greater <==> instant_nanos(a) > instant_nanos(b))
        },
        instant_order(a, b) == Ordering::Equal <==> a == b,
        instant_order(b, a) == match instant_order(a, b) {
            Ordering::Less => Ordering::Greater,
            Ordering::Greater => Ordering::Less,
            Ordering::Equal => Ordering::Equal,
        },
        instant_order(a, b) == Ordering::Less && instant_order(b, c) == Ordering::Less ==> instant_order(a, c)
            == Ordering::Less,
{
    if a.1 < 1_000_000_000 && b.1 < 1_000_000_000 {
        lemma_lexicographic_is_nanos(a, b);
    }
}

/// Below a second of nanoseconds each, seconds-then-nanoseconds order is
/// the order of the nanosecond counts.
proof fn lemma_lexicographic_is_nanos(a: (i64, u32), b: (i64, u32))
    requires
        a.1 < 1_000_000_000,
        b.1 < 1_000_000_000,
    ensures
        (a.0 < b.0 || (a.0 == b.0 && a.1 < b.1)) <==> instant_nanos(a) < instant_nanos(b),
        (a.0 == b.0 && a.1 == b.1) <==> instant_nanos(a) == instant_nanos(b),
{
    let s1 = a.0;
    let n1 = a.1;
    let s2 = b.0;
    let n2 = b.1;
    assert((s1 < s2 || (s1 == s2 && n1 < n2)) <==> s1 * 1_000_000_000 + n1 < s2 * 1_000_000_000 + n2)
        by (nonlinear_arith)
        requires
            n1 < 1_000_000_000,
            n2 < 1_000_000_000,
    ;
    assert((s1 == s2 && n1 == n2) <==> s1 * 1_000_000_000 + n1 == s2 * 1_000_000_000 + n2)
        by (nonlinear_arith)
        requires
            n1 < 1_000_000_000,
            n2 < 1_000_000_000,
    ;
}

} // verus!
