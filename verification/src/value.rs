//! `DataValue`: the arena-backed JSON value tree.

use vstd::prelude::*;
use vstd::string::StringSliceAdditionalSpecFns;
use vstd::std_specs::slice::into_iter_elts;
use vstd::utf8::encode_utf8;

use crate::arena::alloc_str;
use crate::datetime::{DataDateTime, DataDuration};
use crate::model::SVal;
use crate::number::{number_as_i64, number_eq, NumberValue};
use crate::sealed::Sealed;
use crate::text::str_eq;

verus! {

/// Arena-allocated JSON value tree. Composite payloads are slices that live
/// in a `bumpalo::Bump` (or anywhere else that outlives `'a`).
#[derive(Debug, Clone, Copy)]
pub enum DataValue<'a> {
    Null,
    Bool(bool),
    Number(NumberValue),
    String(&'a str),
    Array(&'a [DataValue<'a>]),
    Object(&'a [(&'a str, DataValue<'a>)]),
    /// An instant. JSON has none: the parser never gives one, and the
    /// emitters write its ISO 8601 text as a string.
    DateTime(DataDateTime),
    /// A signed span of time, written as its `"1d:2h:3m:4s"` text.
    Duration(DataDuration),
}

/// `v` is the tree `m`: same shape, same scalars, strings with the same UTF-8
/// bytes, and the same items in the same order at every level.
pub open spec fn dv_is(v: DataValue, m: SVal) -> bool
    decreases m,
{
    match m {
        SVal::Null => v is Null,
        SVal::Bool(b) => v matches DataValue::Bool(x) && x == b,
        SVal::Number(n) => v matches DataValue::Number(x) && x == n,
        SVal::Str(s) => v matches DataValue::String(x) && x.spec_bytes() == s,
        SVal::Arr(items) => v matches DataValue::Array(a) && a@.len() == items.len() && (forall|i: int|
            0 <= i < items.len() ==> dv_is(#[trigger] a@[i], items[i])),
        SVal::Obj(pairs) => v matches DataValue::Object(o) && o@.len() == pairs.len() && (forall|i: int|
            0 <= i < pairs.len() ==> (#[trigger] o@[i]).0.spec_bytes() == pairs[i].0 && dv_is(o@[i].1, pairs[i].1)),
        SVal::DateTime(d) => v == DataValue::DateTime(d),
        SVal::Duration(d) => v == DataValue::Duration(d),
    }
}

/// `v` is a finite tree: some model value describes it. Every value a
/// program builds is one; the parser and `to_arena` state it of what they
/// return, and functions that walk a tree ask for it.
pub open spec fn dv_finite(v: DataValue) -> bool {
    exists|m: SVal| dv_is(v, m)
}

/// The model of a finite `DataValue`.
pub open spec fn dv_view(v: DataValue) -> SVal {
    choose|m: SVal| dv_is(v, m)
}

/// A value is the model of at most one tree.
pub proof fn lemma_dv_is_unique(v: DataValue, m1: SVal, m2: SVal)
    requires
        dv_is(v, m1),
        dv_is(v, m2),
    ensures
        m1 == m2,
    decreases m1,
{
    reveal_with_fuel(dv_is, 2);
    match m1 {
        SVal::Str(s1) => {
            if let SVal::Str(s2) = m2 {
            }
        },
        SVal::Arr(items1) => {
            if let SVal::Arr(items2) = m2 {
                if let DataValue::Array(a) = v {
                    assert(a@.len() == items1.len());
                    assert(forall|i: int| 0 <= i < items1.len() ==> #[trigger] dv_is(a@[i], items1[i]));
                    assert forall|i: int| 0 <= i < items1.len() implies items1[i] == items2[i] by {
                        lemma_dv_is_unique(a@[i], items1[i], items2[i]);
                    }
                    assert(items1 =~= items2);
                }
            }
        },
        SVal::Obj(p1) => {
            if let SVal::Obj(p2) = m2 {
                if let DataValue::Object(o) = v {
                    assert forall|i: int| 0 <= i < p1.len() implies p1[i] == p2[i] by {
                        lemma_dv_is_unique(o@[i].1, p1[i].1, p2[i].1);
                    }
                    assert(p1 =~= p2);
                }
            }
        },
        _ => {},
    }
}

/// `dv_view` gives back the tree that a value is.
pub proof fn lemma_dv_view(v: DataValue, m: SVal)
    requires
        dv_is(v, m),
    ensures
        dv_finite(v),
        dv_view(v) == m,
{
    lemma_dv_is_unique(v, m, dv_view(v));
}

// ---------------------------------------------------------------------------
// Lookup, stated over the value itself.
// ---------------------------------------------------------------------------

/// Pair `i` is the first pair of `pairs` whose key has the bytes `k`.
pub open spec fn first_key_at<'a>(pairs: Seq<(&'a str, DataValue<'a>)>, k: Seq<u8>, i: int) -> bool {
    &&& 0 <= i < pairs.len()
    &&& pairs[i].0.spec_bytes() == k
    &&& forall|j: int| 0 <= j < i ==> (#[trigger] pairs[j]).0.spec_bytes() != k
}

/// The position of the first pair of `pairs` whose key has the bytes `k`,
/// or the length of `pairs` when there is none.
pub open spec fn key_index<'a>(pairs: Seq<(&'a str, DataValue<'a>)>, k: Seq<u8>) -> int {
    if exists|i: int| first_key_at(pairs, k, i) {
        choose|i: int| first_key_at(pairs, k, i)
    } else {
        pairs.len() as int
    }
}

/// The value under key `k` of an object: that of its first pair with that
/// key. Nothing for a missing key or a value that is not an object.
pub open spec fn lookup_key<'a>(v: DataValue<'a>, k: Seq<u8>) -> Option<DataValue<'a>> {
    match v {
        DataValue::Object(o) => if key_index(o@, k) < o@.len() {
            Some(o@[key_index(o@, k)].1)
        } else {
            None
        },
        _ => None,
    }
}

/// Item `i` of an array; nothing past its end or for a value that is not an
/// array.
pub open spec fn lookup_position<'a>(v: DataValue<'a>, i: int) -> Option<DataValue<'a>> {
    match v {
        DataValue::Array(a) => if 0 <= i < a@.len() {
            Some(a@[i])
        } else {
            None
        },
        _ => None,
    }
}

proof fn lemma_first_key_unique<'a>(pairs: Seq<(&'a str, DataValue<'a>)>, k: Seq<u8>, i: int, j: int)
    requires
        first_key_at(pairs, k, i),
        first_key_at(pairs, k, j),
    ensures
        i == j,
{
    if i < j {
        assert(pairs[i].0.spec_bytes() != k);
    } else if j < i {
        assert(pairs[j].0.spec_bytes() != k);
    }
}

/// The first pair of `pairs` with key `key`, found by a linear scan.
fn find_key<'v, 'a>(pairs: &'v [(&'a str, DataValue<'a>)], key: &str) -> (r: Option<&'v DataValue<'a>>)
    ensures
        0 <= key_index(pairs@, key.spec_bytes()) <= pairs@.len(),
        match r {
            Some(x) => key_index(pairs@, key.spec_bytes()) < pairs@.len() && *x == pairs@[key_index(
                pairs@,
                key.spec_bytes(),
            )].1,
            None => key_index(pairs@, key.spec_bytes()) == pairs@.len(),
        },
{
    let ghost k = key.spec_bytes();
    let mut i: usize = 0;
    while i < pairs.len()
        invariant
            k == key.spec_bytes(),
            i <= pairs.len(),
            forall|j: int| 0 <= j < i ==> (#[trigger] pairs@[j]).0.spec_bytes() != k,
        decreases pairs.len() - i,
    {
        if str_eq(pairs[i].0, key) {
            proof {
                assert(first_key_at(pairs@, k, i as int));
                lemma_first_key_unique(pairs@, k, i as int, key_index(pairs@, k));
            }
            return Some(&pairs[i].1);
        }
        i += 1;
    }
    assert(!exists|j: int| first_key_at(pairs@, k, j));
    None
}

/// Finds the value under a key in an object.
fn lookup_key_in<'v, 'a>(value: &'v DataValue<'a>, key: &str) -> (r: Option<&'v DataValue<'a>>)
    ensures
        match r {
            Some(x) => lookup_key(*value, key.spec_bytes()) == Some(*x),
            None => lookup_key(*value, key.spec_bytes()) is None,
        },
{
    match value {
        DataValue::Object(pairs) => find_key(pairs, key),
        _ => None,
    }
}

/// The index types of `get` and `[]`: a key (`&str`, `String`) or an array
/// position (`usize`).
pub trait ValueIndex: Sealed {
    /// What this index finds in `value`.
    spec fn found_in<'a>(&self, value: DataValue<'a>) -> Option<DataValue<'a>>;

    fn index_into<'v, 'a>(&self, value: &'v DataValue<'a>) -> (r: Option<&'v DataValue<'a>>)
        ensures
            match r {
                Some(x) => self.found_in(*value) == Some(*x),
                None => self.found_in(*value) is None,
            },
    ;

    /// As `index_into`, with `Null` for a miss.
    fn index_into_or_null<'v, 'a>(&self, value: &'v DataValue<'a>) -> (r: &'v DataValue<'a>)
        ensures
            *r == match self.found_in(*value) {
                Some(x) => x,
                None => DataValue::Null,
            },
    ;
}

impl ValueIndex for str {
    open spec fn found_in<'a>(&self, value: DataValue<'a>) -> Option<DataValue<'a>> {
        lookup_key(value, self.spec_bytes())
    }

    fn index_into<'v, 'a>(&self, value: &'v DataValue<'a>) -> (r: Option<&'v DataValue<'a>>) {
        lookup_key_in(value, self)
    }

    fn index_into_or_null<'v, 'a>(&self, value: &'v DataValue<'a>) -> (r: &'v DataValue<'a>) {
        match self.index_into(value) {
            Some(x) => x,
            None => &DataValue::Null,
        }
    }
}

impl ValueIndex for String {
    open spec fn found_in<'a>(&self, value: DataValue<'a>) -> Option<DataValue<'a>> {
        lookup_key(value, encode_utf8(self@))
    }

    fn index_into<'v, 'a>(&self, value: &'v DataValue<'a>) -> (r: Option<&'v DataValue<'a>>) {
        self.as_str().index_into(value)
    }

    fn index_into_or_null<'v, 'a>(&self, value: &'v DataValue<'a>) -> (r: &'v DataValue<'a>) {
        self.as_str().index_into_or_null(value)
    }
}

impl ValueIndex for usize {
    open spec fn found_in<'a>(&self, value: DataValue<'a>) -> Option<DataValue<'a>> {
        lookup_position(value, *self as int)
    }

    fn index_into<'v, 'a>(&self, value: &'v DataValue<'a>) -> (r: Option<&'v DataValue<'a>>) {
        match value {
            DataValue::Array(items) => if *self < items.len() {
                Some(&items[*self])
            } else {
                None
            },
            _ => None,
        }
    }

    fn index_into_or_null<'v, 'a>(&self, value: &'v DataValue<'a>) -> (r: &'v DataValue<'a>) {
        match self.index_into(value) {
            Some(x) => x,
            None => &DataValue::Null,
        }
    }
}

impl<T: ValueIndex + ?Sized> ValueIndex for &T {
    open spec fn found_in<'a>(&self, value: DataValue<'a>) -> Option<DataValue<'a>> {
        (**self).found_in(value)
    }

    fn index_into<'v, 'a>(&self, value: &'v DataValue<'a>) -> (r: Option<&'v DataValue<'a>>) {
        (**self).index_into(value)
    }

    fn index_into_or_null<'v, 'a>(&self, value: &'v DataValue<'a>) -> (r: &'v DataValue<'a>) {
        (**self).index_into_or_null(value)
    }
}

impl<'a> DataValue<'a> {
    pub fn null() -> (r: Self)
        ensures
            r is Null,
    {
        DataValue::Null
    }

    pub fn bool(b: bool) -> (r: Self)
        ensures
            r == DataValue::Bool(b),
    {
        DataValue::Bool(b)
    }

    pub fn from_i64(i: i64) -> (r: Self)
        ensures
            r == DataValue::Number(NumberValue::Integer(i)),
    {
        DataValue::Number(NumberValue::from_i64(i))
    }

    /// A string value holding a copy of `s` made in `arena`.
    pub fn from_str_in(s: &str, arena: &'a bumpalo::Bump) -> (r: Self)
        ensures
            r matches DataValue::String(t) && t@ == s@,
    {
        DataValue::String(alloc_str(arena, s))
    }

    /// A string value that borrows `s`; nothing is copied.
    pub fn from_borrowed_str(s: &'a str) -> (r: Self)
        ensures
            r == DataValue::String(s),
    {
        DataValue::String(s)
    }

    pub fn is_null(&self) -> (r: bool)
        ensures
            r == (*self is Null),
    {
        matches!(self, DataValue::Null)
    }

    pub fn is_bool(&self) -> (r: bool)
        ensures
            r == (*self is Bool),
    {
        matches!(self, DataValue::Bool(_))
    }

    pub fn is_number(&self) -> (r: bool)
        ensures
            r == (*self is Number),
    {
        matches!(self, DataValue::Number(_))
    }

    pub fn is_i64(&self) -> (r: bool)
        ensures
            r == (*self matches DataValue::Number(n) && n is Integer),
    {
        matches!(self, DataValue::Number(NumberValue::Integer(_)))
    }

    pub fn is_f64(&self) -> (r: bool)
        ensures
            r == (*self matches DataValue::Number(n) && n is Float),
    {
        matches!(self, DataValue::Number(NumberValue::Float(_)))
    }

    pub fn is_string(&self) -> (r: bool)
        ensures
            r == (*self is String),
    {
        matches!(self, DataValue::String(_))
    }

    pub fn is_array(&self) -> (r: bool)
        ensures
            r == (*self is Array),
    {
        matches!(self, DataValue::Array(_))
    }

    pub fn is_object(&self) -> (r: bool)
        ensures
            r == (*self is Object),
    {
        matches!(self, DataValue::Object(_))
    }

    pub fn is_datetime(&self) -> (r: bool)
        ensures
            r == (*self is DateTime),
    {
        matches!(self, DataValue::DateTime(_))
    }

    pub fn is_duration(&self) -> (r: bool)
        ensures
            r == (*self is Duration),
    {
        matches!(self, DataValue::Duration(_))
    }

    pub fn as_datetime(&self) -> (r: Option<&DataDateTime>)
        ensures
            r == (match *self {
                DataValue::DateTime(d) => Some(&d),
                _ => None,
            }),
    {
        match self {
            DataValue::DateTime(d) => Some(d),
            _ => None,
        }
    }

    pub fn as_duration(&self) -> (r: Option<&DataDuration>)
        ensures
            r == (match *self {
                DataValue::Duration(d) => Some(&d),
                _ => None,
            }),
    {
        match self {
            DataValue::Duration(d) => Some(d),
            _ => None,
        }
    }

    pub fn datetime(dt: DataDateTime) -> (r: Self)
        ensures
            r == DataValue::DateTime(dt),
    {
        DataValue::DateTime(dt)
    }

    pub fn duration(d: DataDuration) -> (r: Self)
        ensures
            r == DataValue::Duration(d),
    {
        DataValue::Duration(d)
    }

    pub fn as_bool(&self) -> (r: Option<bool>)
        ensures
            r == (match *self {
                DataValue::Bool(b) => Some(b),
                _ => None,
            }),
    {
        match self {
            DataValue::Bool(b) => Some(*b),
            _ => None,
        }
    }

    /// The number as an `i64`: an integer, or a float that is a whole number
    /// in range (see [`number_as_i64`]). No other value converts.
    pub fn as_i64(&self) -> (r: Option<i64>)
        ensures
            r == (match *self {
                DataValue::Number(n) => number_as_i64(n),
                _ => None,
            }),
    {
        match self {
            DataValue::Number(n) => n.as_i64(),
            _ => None,
        }
    }

    pub fn as_number(&self) -> (r: Option<&NumberValue>)
        ensures
            match *self {
                DataValue::Number(n) => r matches Some(x) && *x == n,
                _ => r is None,
            },
    {
        match self {
            DataValue::Number(n) => Some(n),
            _ => None,
        }
    }

    pub fn as_str(&self) -> (r: Option<&'a str>)
        ensures
            r == (match *self {
                DataValue::String(s) => Some(s),
                _ => None,
            }),
    {
        match *self {
            DataValue::String(s) => Some(s),
            _ => None,
        }
    }

    pub fn as_array(&self) -> (r: Option<&'a [DataValue<'a>]>)
        ensures
            r == (match *self {
                DataValue::Array(a) => Some(a),
                _ => None,
            }),
    {
        match *self {
            DataValue::Array(a) => Some(a),
            _ => None,
        }
    }

    pub fn as_object(&self) -> (r: Option<&'a [(&'a str, DataValue<'a>)]>)
        ensures
            r == (match *self {
                DataValue::Object(o) => Some(o),
                _ => None,
            }),
    {
        match *self {
            DataValue::Object(o) => Some(o),
            _ => None,
        }
    }

    /// The value under a key (`&str`, `String`) or at an array position
    /// (`usize`); `None` on a miss or a value of another kind.
    pub fn get<I: ValueIndex>(&self, index: I) -> (r: Option<&DataValue<'a>>)
        ensures
            match r {
                Some(x) => index.found_in(*self) == Some(*x),
                None => index.found_in(*self) is None,
            },
    {
        index.index_into(self)
    }

    /// The number of items of an array or pairs of an object.
    pub fn len(&self) -> (r: Option<usize>)
        ensures
            r == (match *self {
                DataValue::Array(a) => Some(a@.len() as usize),
                DataValue::Object(o) => Some(o@.len() as usize),
                _ => None,
            }),
    {
        match self {
            DataValue::Array(a) => Some(a.len()),
            DataValue::Object(o) => Some(o.len()),
            _ => None,
        }
    }

    pub fn is_empty(&self) -> (r: Option<bool>)
        ensures
            r == (match *self {
                DataValue::Array(a) => Some(a@.len() == 0),
                DataValue::Object(o) => Some(o@.len() == 0),
                _ => None,
            }),
    {
        match self {
            DataValue::Array(a) => Some(a.len() == 0),
            DataValue::Object(o) => Some(o.len() == 0),
            _ => None,
        }
    }

    /// The items of an array, in order; none for any other value.
    pub fn members(&self) -> (r: core::slice::Iter<'a, DataValue<'a>>)
        ensures
            into_iter_elts(r) == (match *self {
                DataValue::Array(a) => a@,
                _ => Seq::empty(),
            }),
    {
        let items: &'a [DataValue<'a>] = match *self {
            DataValue::Array(a) => a,
            _ => &[],
        };
        let r = items.iter();
        proof {
            broadcast use vstd::std_specs::slice::axiom_spec_slice_iter;
            assert(into_iter_elts(r) =~= items@);
        }
        r
    }

    /// The `(key, value)` pairs of an object, in insertion order; none for
    /// any other value.
    pub fn entries(&self) -> (r: core::slice::Iter<'a, (&'a str, DataValue<'a>)>)
        ensures
            into_iter_elts(r) == (match *self {
                DataValue::Object(o) => o@,
                _ => Seq::empty(),
            }),
    {
        let pairs: &'a [(&'a str, DataValue<'a>)] = match *self {
            DataValue::Object(o) => o,
            _ => &[],
        };
        let r = pairs.iter();
        proof {
            broadcast use vstd::std_specs::slice::axiom_spec_slice_iter;
            assert(into_iter_elts(r) =~= pairs@);
        }
        r
    }
}

impl<'a> Default for DataValue<'a> {
    fn default() -> (r: Self)
        ensures
            r is Null,
    {
        DataValue::Null
    }
}

impl<'a, I: ValueIndex> core::ops::Index<I> for DataValue<'a> {
    type Output = DataValue<'a>;

    /// The value under a key or at a position, or `Null` on a miss, as
    /// `serde_json::Value` indexes.
    fn index(&self, index: I) -> (r: &DataValue<'a>)
        ensures
            *r == match index.found_in(*self) {
                Some(x) => x,
                None => DataValue::Null,
            },
    {
        index.index_into_or_null(self)
    }
}

impl<'a, I: ValueIndex> vstd::std_specs::core::IndexSpecImpl<I> for DataValue<'a> {
    open spec fn index_req(&self, index: &I) -> bool {
        true
    }
}

// ---------------------------------------------------------------------------
// Equality.
// ---------------------------------------------------------------------------

/// The equality of two values, looking at most `fuel` levels deep (`false`
/// when that is not enough): numbers compare numerically, strings by their
/// text, arrays item by item, and objects by key: each pair of `a` must have
/// a value equal to that of the first pair of `b` with its key, and the two
/// objects must have as many pairs. So the order of keys does not matter.
pub open spec fn dv_eq_fuel<'a>(a: DataValue<'a>, b: DataValue<'a>, fuel: nat) -> bool
    decreases fuel,
{
    if fuel == 0 {
        false
    } else {
        match (a, b) {
            (DataValue::Null, DataValue::Null) => true,
            (DataValue::Bool(x), DataValue::Bool(y)) => x == y,
            (DataValue::Number(x), DataValue::Number(y)) => number_eq(x, y),
            (DataValue::String(x), DataValue::String(y)) => x.spec_bytes() == y.spec_bytes(),
            (DataValue::DateTime(x), DataValue::DateTime(y)) => x.instant() == y.instant(),
            (DataValue::Duration(x), DataValue::Duration(y)) => x == y,
            (DataValue::Array(x), DataValue::Array(y)) => x@.len() == y@.len() && forall|i: int|
                0 <= i < x@.len() ==> dv_eq_fuel(#[trigger] x@[i], y@[i], (fuel - 1) as nat),
            (DataValue::Object(x), DataValue::Object(y)) => x@.len() == y@.len() && forall|i: int|
                0 <= i < x@.len() ==> {
                    let j = key_index(y@, (#[trigger] x@[i]).0.spec_bytes());
                    j < y@.len() && dv_eq_fuel(x@[i].1, y@[j].1, (fuel - 1) as nat)
                },
            _ => false,
        }
    }
}

/// The first pair of `pairs` with the key of `p` has a value equal to that
/// of `p`, looking at most `fuel` levels deep.
pub open spec fn pair_found_eq<'a>(p: (&'a str, DataValue<'a>), pairs: Seq<(&'a str, DataValue<'a>)>, fuel: nat) -> bool {
    let j = key_index(pairs, p.0.spec_bytes());
    j < pairs.len() && dv_eq_fuel(p.1, pairs[j].1, fuel)
}

/// How deep `==` looks: deeper than any value a program can build.
pub open spec fn eq_depth() -> nat {
    u64::MAX as nat
}

#[verifier::rlimit(30)]
#[verifier::spinoff_prover]
fn dv_eq_bounded<'a>(a: &DataValue<'a>, b: &DataValue<'a>, fuel: u64) -> (r: bool)
    ensures
        r == dv_eq_fuel(*a, *b, fuel as nat),
    decreases fuel,
{
    if fuel == 0 {
        return false;
    }
    match (*a, *b) {
        (DataValue::Null, DataValue::Null) => true,
        (DataValue::Bool(x), DataValue::Bool(y)) => x == y,
        (DataValue::Number(x), DataValue::Number(y)) => x == y,
        (DataValue::String(x), DataValue::String(y)) => str_eq(x, y),
        (DataValue::DateTime(x), DataValue::DateTime(y)) => x == y,
        (DataValue::Duration(x), DataValue::Duration(y)) => x == y,
        (DataValue::Array(x), DataValue::Array(y)) => {
            if x.len() != y.len() {
                return false;
            }
            let mut i: usize = 0;
            while i < x.len()
                invariant
                    fuel > 0,
                    *a == DataValue::Array(x),
                    *b == DataValue::Array(y),
                    x@.len() == y@.len(),
                    i <= x.len(),
                    forall|k: int| 0 <= k < i ==> dv_eq_fuel(#[trigger] x@[k], y@[k], (fuel - 1) as nat),
                decreases x.len() - i,
            {
                if !dv_eq_bounded(&x[i], &y[i], fuel - 1) {
                    assert(!dv_eq_fuel(x@[i as int], y@[i as int], (fuel - 1) as nat));
                    return false;
                }
                i += 1;
            }
            true
        },
        (DataValue::Object(x), DataValue::Object(y)) => {
            if x.len() != y.len() {
                return false;
            }
            let mut i: usize = 0;
            while i < x.len()
                invariant
                    fuel > 0,
                    *a == DataValue::Object(x),
                    *b == DataValue::Object(y),
                    x@.len() == y@.len(),
                    i <= x.len(),
                    forall|k: int| 0 <= k < i ==> pair_found_eq(#[trigger] x@[k], y@, (fuel - 1) as nat),
                decreases x.len() - i,
            {
                let (key, value) = &x[i];
                match find_key(y, key) {
                    Some(other) => {
                        if !dv_eq_bounded(value, other, fuel - 1) {
                            assert(!pair_found_eq(x@[i as int], y@, (fuel - 1) as nat));
                            return false;
                        }
                    },
                    None => {
                        assert(!pair_found_eq(x@[i as int], y@, (fuel - 1) as nat));
                        return false;
                    },
                }
                i += 1;
            }
            true
        },
        _ => false,
    }
}

impl<'a> PartialEq for DataValue<'a> {
    fn eq(&self, other: &Self) -> (r: bool) {
        dv_eq_bounded(self, other, u64::MAX)
    }
}

impl<'a> vstd::std_specs::cmp::PartialEqSpecImpl for DataValue<'a> {
    open spec fn obeys_eq_spec() -> bool {
        true
    }

    open spec fn eq_spec(&self, other: &DataValue<'a>) -> bool {
        dv_eq_fuel(*self, *other, eq_depth())
    }
}

} // verus!
