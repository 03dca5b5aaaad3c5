//! Properties that relate several operations of the library.

use vstd::prelude::*;
use vstd::string::StringSliceAdditionalSpecFns;

use crate::datetime::{
    civil_day, duration_text, four_digits, iso_z_fields, iso_z_text, max_span, spec_parse_datetime, spec_parse_duration,
    two_digits, unix_epoch_day, DataDuration,
};
use crate::duration_text::lemma_duration_text_round_trip;
use crate::number::number_eq;
use crate::owned::{first_owned_key_at, owned_eq_fuel, owned_key_index, owned_lookup_key, OwnedDataValue};
use crate::value::{
    dv_eq_fuel, dv_finite, dv_is, dv_view, eq_depth, first_key_at, key_index, lemma_dv_view, lookup_key, DataValue,
};

verus! {

/// Copying an owned tree into an arena gives a value that `to_owned` may
/// copy back, and the copy has the model of the tree it came from: the arena round
/// trip loses nothing.
pub proof fn law_arena_round_trip(o: OwnedDataValue, v: DataValue)
    requires
        dv_is(v, o@),
    ensures
        dv_finite(v),
        dv_view(v) == o@,
{
    lemma_dv_view(v, o@);
}

/// `b` lists the pairs of `a` in another order: pair `i` of `a` is pair
/// `perm[i]` of `b`, and `inv` undoes `perm`.
pub open spec fn is_reordering<T>(a: Seq<T>, b: Seq<T>, perm: Seq<int>, inv: Seq<int>) -> bool {
    &&& a.len() == b.len()
    &&& perm.len() == a.len()
    &&& inv.len() == a.len()
    &&& forall|i: int| 0 <= i < a.len() ==> 0 <= #[trigger] perm[i] < b.len() && b[perm[i]] == a[i]
    &&& forall|j: int| 0 <= j < b.len() ==> 0 <= #[trigger] inv[j] < a.len() && perm[inv[j]] == j
}

/// Two arena objects whose pairs are the same, in any order, are equal
/// under `==`, provided their keys are distinct and each value equals
/// itself (a NaN does not).
pub proof fn law_object_eq_ignores_order<'a>(
    x: &'a [(&'a str, DataValue<'a>)],
    y: &'a [(&'a str, DataValue<'a>)],
    perm: Seq<int>,
    inv: Seq<int>,
)
    requires
        is_reordering(x@, y@, perm, inv),
        forall|i: int, j: int|
            0 <= i < j < x@.len() ==> (#[trigger] x@[i]).0.spec_bytes() != (#[trigger] x@[j]).0.spec_bytes(),
        forall|i: int| 0 <= i < x@.len() ==> dv_eq_fuel((#[trigger] x@[i]).1, x@[i].1, (eq_depth() - 1) as nat),
    ensures
        dv_eq_fuel(DataValue::Object(x), DataValue::Object(y), eq_depth()),
{
    assert forall|i: int| 0 <= i < x@.len() implies {
        let j = key_index(y@, (#[trigger] x@[i]).0.spec_bytes());
        j < y@.len() && dv_eq_fuel(x@[i].1, y@[j].1, (eq_depth() - 1) as nat)
    } by {
        let k = x@[i].0.spec_bytes();
        let p = perm[i];
        assert forall|j: int| 0 <= j < p implies (#[trigger] y@[j]).0.spec_bytes() != k by {
            let i2 = inv[j];
            assert(y@[j] == x@[i2]);
            if i2 < i {
                assert(x@[i2].0.spec_bytes() != x@[i].0.spec_bytes());
            } else if i < i2 {
                assert(x@[i].0.spec_bytes() != x@[i2].0.spec_bytes());
            }
        }
        assert(first_key_at(y@, k, p));
        let c = choose|c: int| first_key_at(y@, k, c);
        if c < p {
            assert(y@[c].0.spec_bytes() != k);
        } else if p < c {
            assert(y@[p].0.spec_bytes() != k);
        }
    }
}

/// The same for owned objects.
pub proof fn law_owned_object_eq_ignores_order(
    x: Vec<(String, OwnedDataValue)>,
    y: Vec<(String, OwnedDataValue)>,
    perm: Seq<int>,
    inv: Seq<int>,
)
    requires
        is_reordering(x@, y@, perm, inv),
        forall|i: int, j: int| 0 <= i < j < x@.len() ==> (#[trigger] x@[i]).0@ != (#[trigger] x@[j]).0@,
        forall|i: int| 0 <= i < x@.len() ==> owned_eq_fuel((#[trigger] x@[i]).1, x@[i].1, (u64::MAX - 1) as nat),
    ensures
        owned_eq_fuel(OwnedDataValue::Object(x), OwnedDataValue::Object(y), u64::MAX as nat),
{
    assert forall|i: int| 0 <= i < x@.len() implies {
        let j = owned_key_index(y@, (#[trigger] x@[i]).0@);
        j < y@.len() && owned_eq_fuel(x@[i].1, y@[j].1, (u64::MAX - 1) as nat)
    } by {
        let k = x@[i].0@;
        let p = perm[i];
        assert forall|j: int| 0 <= j < p implies (#[trigger] y@[j]).0@ != k by {
            let i2 = inv[j];
            assert(y@[j] == x@[i2]);
            if i2 < i {
                assert(x@[i2].0@ != x@[i].0@);
            } else if i < i2 {
                assert(x@[i].0@ != x@[i2].0@);
            }
        }
        assert(first_owned_key_at(y@, k, p));
        let c = choose|c: int| first_owned_key_at(y@, k, c);
        if c < p {
            assert(y@[c].0@ != k);
        } else if p < c {
            assert(y@[p].0@ != k);
        }
    }
}

/// The text a duration of whole seconds is written as (`to_string`) reads
/// back (`parse`) as that same duration. A duration with a fraction of a
/// second does not: the text holds whole seconds only.
pub proof fn law_duration_text_round_trip(d: DataDuration)
    requires
        -max_span() <= d@ <= max_span(),
        d@ % 1_000_000_000 == 0,
    ensures
        spec_parse_duration(duration_text(d@)) == Some(d@),
{
    lemma_duration_text_round_trip(d@);
}

/// The digits of a number below 10000, most significant first, make it up.
proof fn lemma_four_digit_parts(y: int)
    requires
        0 <= y <= 9999,
    ensures
        0 <= (y / 1000) % 10 < 10,
        0 <= (y / 100) % 10 < 10,
        0 <= (y / 10) % 10 < 10,
        0 <= y % 10 < 10,
        ((y / 1000) % 10) * 1000 + ((y / 100) % 10) * 100 + ((y / 10) % 10) * 10 + y % 10 == y,
{
    let a = y / 1000;
    let b = (y % 1000) / 100;
    let c = (y % 100) / 10;
    let e = y % 10;
    assert(y == a * 1000 + b * 100 + c * 10 + e && 0 <= a < 10 && 0 <= b < 10 && 0 <= c < 10 && 0 <= e < 10)
        by (nonlinear_arith)
        requires
            0 <= y <= 9999,
            a == y / 1000,
            b == (y % 1000) / 100,
            c == (y % 100) / 10,
            e == y % 10,
    ;
    assert(y / 100 == a * 10 + b) by (nonlinear_arith)
        requires
            y == a * 1000 + b * 100 + c * 10 + e,
            0 <= b < 10,
            0 <= c < 10,
            0 <= e < 10,
    ;
    assert(y / 10 == a * 100 + b * 10 + c) by (nonlinear_arith)
        requires
            y == a * 1000 + b * 100 + c * 10 + e,
            0 <= c < 10,
            0 <= e < 10,
    ;
    assert((a * 10 + b) % 10 == b) by (nonlinear_arith)
        requires
            0 <= b < 10,
            0 <= a,
    ;
    assert((a * 100 + b * 10 + c) % 10 == c) by (nonlinear_arith)
        requires
            0 <= c < 10,
            0 <= a,
            0 <= b,
    ;
}

/// The digits of a number below 100, tens first, make it up.
proof fn lemma_two_digit_parts(x: int)
    requires
        0 <= x <= 99,
    ensures
        0 <= (x / 10) % 10 < 10,
        0 <= x % 10 < 10,
        ((x / 10) % 10) * 10 + x % 10 == x,
{
}

/// `YYYY-MM-DDTHH:MM:SSZ` text is read field by field: the four digits
/// before the first `-` are the year, the two after it the month, the two
/// after the second `-` the day, then the hour, minute and second. Text
/// written from a calendar day and a time of day parses
/// (`DataDateTime::parse`) as that day's instant at that time, in UTC,
/// with offset zero.
pub proof fn law_iso_z_text_reads_its_fields(s: &str, y: u32, mo: u32, d: u32, h: u32, mi: u32, sec: u32)
    requires
        s.spec_bytes() == iso_z_text(y as int, mo as int, d as int, h as int, mi as int, sec as int),
        y <= 9999,
        mo <= 99,
        d <= 99,
        h < 24,
        mi < 60,
        sec < 60,
        civil_day(y as i32, mo, d) is Some,
    ensures
        spec_parse_datetime(s) == Some(
            (
                ((civil_day(y as i32, mo, d)->0 - unix_epoch_day()) * 86_400 + h * 3_600 + mi * 60 + sec) as i64,
                0u32,
                Some(0i32),
            ),
        ),
{
    let b = s.spec_bytes();
    lemma_four_digit_parts(y as int);
    lemma_two_digit_parts(mo as int);
    lemma_two_digit_parts(d as int);
    lemma_two_digit_parts(h as int);
    lemma_two_digit_parts(mi as int);
    lemma_two_digit_parts(sec as int);
    assert(four_digits(b, 0) == Some(y));
    assert(two_digits(b, 5) == Some(mo));
    assert(two_digits(b, 8) == Some(d));
    assert(two_digits(b, 11) == Some(h));
    assert(two_digits(b, 14) == Some(mi));
    assert(two_digits(b, 17) == Some(sec));
    assert(iso_z_fields(b) == Some((y, mo, d, h, mi, sec)));
}

/// What `==` on arena values compares, kind by kind, looking `f + 1`
/// levels deep: scalars by value (numbers numerically, strings by their
/// bytes, instants by the moment they name), two arrays of the same length
/// item by item at every position, and two objects of the same size pair
/// by pair, each pair's value against the value the other object has
/// under that key, wherever it stands. Values of different kinds differ.
pub proof fn law_value_eq_by_kind<'a>(a: DataValue<'a>, b: DataValue<'a>, f: nat)
    ensures
        match (a, b) {
            (DataValue::Null, DataValue::Null) => dv_eq_fuel(a, b, f + 1),
            (DataValue::Bool(x), DataValue::Bool(y)) => dv_eq_fuel(a, b, f + 1) <==> x == y,
            (DataValue::Number(x), DataValue::Number(y)) => dv_eq_fuel(a, b, f + 1) <==> number_eq(x, y),
            (DataValue::String(x), DataValue::String(y)) => dv_eq_fuel(a, b, f + 1) <==> x.spec_bytes()
                == y.spec_bytes(),
            (DataValue::DateTime(x), DataValue::DateTime(y)) => dv_eq_fuel(a, b, f + 1) <==> x.instant()
                == y.instant(),
            (DataValue::Duration(x), DataValue::Duration(y)) => dv_eq_fuel(a, b, f + 1) <==> x == y,
            (DataValue::Array(x), DataValue::Array(y)) => dv_eq_fuel(a, b, f + 1) <==> (x@.len() == y@.len()
                && forall|i: int| 0 <= i < x@.len() ==> dv_eq_fuel(#[trigger] x@[i], y@[i], f)),
            (DataValue::Object(x), DataValue::Object(y)) => dv_eq_fuel(a, b, f + 1) <==> (x@.len() == y@.len()
                && forall|i: int|
                0 <= i < x@.len() ==> (lookup_key(b, (#[trigger] x@[i]).0.spec_bytes()) matches Some(w)
                    && dv_eq_fuel(x@[i].1, w, f))),
            _ => !dv_eq_fuel(a, b, f + 1),
        },
{
    match (a, b) {
        (DataValue::Object(x), DataValue::Object(y)) => {
            assert(dv_eq_fuel(a, b, f + 1) <==> (x@.len() == y@.len() && forall|i: int|
                0 <= i < x@.len() ==> (lookup_key(b, (#[trigger] x@[i]).0.spec_bytes()) matches Some(w)
                    && dv_eq_fuel(x@[i].1, w, f))));
        },
        _ => {},
    }
}

/// The same for owned values.
pub proof fn law_owned_eq_by_kind(a: OwnedDataValue, b: OwnedDataValue, f: nat)
    ensures
        match (a, b) {
            (OwnedDataValue::Null, OwnedDataValue::Null) => owned_eq_fuel(a, b, f + 1),
            (OwnedDataValue::Bool(x), OwnedDataValue::Bool(y)) => owned_eq_fuel(a, b, f + 1) <==> x == y,
            (OwnedDataValue::Number(x), OwnedDataValue::Number(y)) => owned_eq_fuel(a, b, f + 1) <==> number_eq(
                x,
                y,
            ),
            (OwnedDataValue::String(x), OwnedDataValue::String(y)) => owned_eq_fuel(a, b, f + 1) <==> x@ == y@,
            (OwnedDataValue::DateTime(x), OwnedDataValue::DateTime(y)) => owned_eq_fuel(a, b, f + 1) <==> x.instant()
                == y.instant(),
            (OwnedDataValue::Duration(x), OwnedDataValue::Duration(y)) => owned_eq_fuel(a, b, f + 1) <==> x == y,
            (OwnedDataValue::Array(x), OwnedDataValue::Array(y)) => owned_eq_fuel(a, b, f + 1) <==> (x@.len()
                == y@.len() && forall|i: int| 0 <= i < x@.len() ==> owned_eq_fuel(#[trigger] x@[i], y@[i], f)),
            (OwnedDataValue::Object(x), OwnedDataValue::Object(y)) => owned_eq_fuel(a, b, f + 1) <==> (x@.len()
                == y@.len() && forall|i: int|
                0 <= i < x@.len() ==> (owned_lookup_key(b, (#[trigger] x@[i]).0@) matches Some(w)
                    && owned_eq_fuel(x@[i].1, w, f))),
            _ => !owned_eq_fuel(a, b, f + 1),
        },
{
}

} // verus!
