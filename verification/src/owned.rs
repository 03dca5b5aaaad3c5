//! `OwnedDataValue`: the heap-owned counterpart of [`DataValue`].

use vstd::prelude::*;
use vstd::utf8::encode_utf8;

use crate::arena::{alloc_slice_copy, alloc_str, new_arena};
use crate::datetime::{DataDateTime, DataDuration};
use crate::model::SVal;
use crate::number::NumberValue;
use crate::parser::{float_fn, float_parser_ok, spec_parse_document, ParseError};
use crate::number::{int_to_f64_bits, number_as_i64, number_eq, u64_to_f64_bits};
use crate::sealed::Sealed;
use crate::text::str_eq;
use crate::value::{dv_finite, dv_is, dv_view, lemma_dv_view, DataValue};
use vstd::std_specs::convert::FromSpec;
use vstd::std_specs::slice::into_iter_elts;
use vstd::string::StringSliceAdditionalSpecFns;

verus! {

broadcast use vstd::std_specs::vec::group_vec_axioms;

/// Heap-owned JSON value tree; its variants mirror [`crate::DataValue`].
#[derive(Debug)]
pub enum OwnedDataValue {
    Null,
    Bool(bool),
    Number(NumberValue),
    String(String),
    Array(Vec<OwnedDataValue>),
    Object(Vec<(String, OwnedDataValue)>),
    DateTime(DataDateTime),
    Duration(DataDuration),
}

/// The model of an owned value: strings become their UTF-8 bytes.
pub open spec fn owned_view(v: OwnedDataValue) -> SVal
    decreases v,
{
    match v {
        OwnedDataValue::Null => SVal::Null,
        OwnedDataValue::Bool(b) => SVal::Bool(b),
        OwnedDataValue::Number(n) => SVal::Number(n),
        OwnedDataValue::String(s) => SVal::Str(encode_utf8(s@)),
        OwnedDataValue::Array(items) => SVal::Arr(
            Seq::new(
                items@.len(),
                |i: int|
                    if 0 <= i < items@.len() {
                        owned_view(items@[i])
                    } else {
                        SVal::Null
                    },
            ),
        ),
        OwnedDataValue::Object(pairs) => SVal::Obj(
            Seq::new(
                pairs@.len(),
                |i: int|
                    if 0 <= i < pairs@.len() {
                        (encode_utf8(pairs@[i].0@), owned_view(pairs@[i].1))
                    } else {
                        (Seq::empty(), SVal::Null)
                    },
            ),
        ),
        OwnedDataValue::DateTime(d) => SVal::DateTime(d),
        OwnedDataValue::Duration(d) => SVal::Duration(d),
    }
}

impl View for OwnedDataValue {
    type V = SVal;

    open spec fn view(&self) -> SVal {
        owned_view(*self)
    }
}

// ---------------------------------------------------------------------------
// Between the arena and the heap.
// ---------------------------------------------------------------------------

#[verifier::rlimit(30)]
#[verifier::spinoff_prover]
fn dv_to_owned<'a>(v: &DataValue<'a>, Ghost(m): Ghost<SVal>) -> (r: OwnedDataValue)
    requires
        dv_is(*v, m),
    ensures
        r@ == m,
    decreases m,
{
    match *v {
        DataValue::Null => OwnedDataValue::Null,
        DataValue::Bool(b) => OwnedDataValue::Bool(b),
        DataValue::Number(n) => OwnedDataValue::Number(n),
        DataValue::String(s) => OwnedDataValue::String(s.to_owned()),
        DataValue::DateTime(d) => OwnedDataValue::DateTime(d),
        DataValue::Duration(d) => OwnedDataValue::Duration(d),
        DataValue::Array(items) => {
            let ghost ms = m->Arr_0;
            let mut out: Vec<OwnedDataValue> = Vec::with_capacity(items.len());
            let mut i: usize = 0;
            while i < items.len()
                invariant
                    i <= items.len(),
                    m == SVal::Arr(ms),
                    items@.len() == ms.len(),
                    forall|k: int| 0 <= k < ms.len() ==> dv_is(#[trigger] items@[k], ms[k]),
                    out@.len() == i,
                    forall|k: int| 0 <= k < i ==> owned_view(#[trigger] out@[k]) == ms[k],
                decreases items.len() - i,
            {
                proof {
                    assert(decreases_to!(m => m->Arr_0));
                    assert(decreases_to!(ms => ms[i as int]));
                }
                let o = dv_to_owned(&items[i], Ghost(ms[i as int]));
                out.push(o);
                i += 1;
            }
            let r = OwnedDataValue::Array(out);
            assert(owned_view(r) == m) by {
                assert(m->Arr_0 =~= r@->Arr_0);
            }
            r
        },
        DataValue::Object(pairs) => {
            let ghost ps = m->Obj_0;
            let mut out: Vec<(String, OwnedDataValue)> = Vec::with_capacity(pairs.len());
            let mut i: usize = 0;
            while i < pairs.len()
                invariant
                    i <= pairs.len(),
                    m == SVal::Obj(ps),
                    pairs@.len() == ps.len(),
                    forall|k: int|
                        0 <= k < ps.len() ==> (#[trigger] pairs@[k]).0.spec_bytes() == ps[k].0
                            && dv_is(pairs@[k].1, ps[k].1),
                    out@.len() == i,
                    forall|k: int|
                        0 <= k < i ==> encode_utf8((#[trigger] out@[k]).0@) == ps[k].0 && owned_view(
                            out@[k].1,
                        ) == ps[k].1,
                decreases pairs.len() - i,
            {
                proof {
                    assert(decreases_to!(m => m->Obj_0));
                    assert(decreases_to!(ps => ps[i as int]));
                    assert(decreases_to!(ps[i as int] => ps[i as int].1));
                }
                let (k, val) = pairs[i];
                let o = dv_to_owned(&val, Ghost(ps[i as int].1));
                out.push((k.to_owned(), o));
                i += 1;
            }
            let r = OwnedDataValue::Object(out);
            assert(owned_view(r) == m) by {
                assert(m->Obj_0 =~= r@->Obj_0);
            }
            r
        },
    }
}

impl<'a> DataValue<'a> {
    /// A heap-owned copy of this tree that no longer borrows the arena.
    pub fn to_owned(&self) -> (r: OwnedDataValue)
        requires
            dv_finite(*self),
        ensures
            r@ == dv_view(*self),
    {
        proof {
            lemma_dv_view(*self, dv_view(*self));
        }
        dv_to_owned(self, Ghost(dv_view(*self)))
    }
}

impl OwnedDataValue {
    /// This tree copied into `arena`: strings become arena copies, arrays
    /// and objects arena slices.
    #[verifier::rlimit(30)]
    #[verifier::spinoff_prover]
    pub fn to_arena<'a>(&self, arena: &'a bumpalo::Bump) -> (r: DataValue<'a>)
        ensures
            dv_is(r, self@),
        decreases *self,
    {
        match self {
            OwnedDataValue::Null => DataValue::Null,
            OwnedDataValue::Bool(b) => DataValue::Bool(*b),
            OwnedDataValue::Number(n) => DataValue::Number(*n),
            OwnedDataValue::String(s) => DataValue::String(alloc_str(arena, s.as_str())),
            OwnedDataValue::DateTime(d) => DataValue::DateTime(*d),
            OwnedDataValue::Duration(d) => DataValue::Duration(*d),
            OwnedDataValue::Array(items) => {
                let mut buf: Vec<DataValue<'a>> = Vec::with_capacity(items.len());
                let mut i: usize = 0;
                while i < items.len()
                    invariant
                        *self == OwnedDataValue::Array(*items),
                        i <= items.len(),
                        buf@.len() == i,
                        forall|k: int| 0 <= k < i ==> dv_is(#[trigger] buf@[k], owned_view(items@[k])),
                    decreases items.len() - i,
                {
                    proof {
                        assert(decreases_to!(*self => (*self)->Array_0));
                        assert(decreases_to!(*items => items[i as int]));
                    }
                    let v = items[i].to_arena(arena);
                    buf.push(v);
                    i += 1;
                }
                let slice = alloc_slice_copy(arena, buf.as_slice());
                let r = DataValue::Array(slice);
                assert(dv_is(r, self@)) by {
                    let ms = self@->Arr_0;
                    assert forall|k: int| 0 <= k < ms.len() implies dv_is(#[trigger] slice@[k], ms[k]) by {
                        assert(slice@[k] == buf@[k]);
                    }
                }
                r
            },
            OwnedDataValue::Object(pairs) => {
                let mut buf: Vec<(&'a str, DataValue<'a>)> = Vec::with_capacity(pairs.len());
                let mut i: usize = 0;
                while i < pairs.len()
                    invariant
                        *self == OwnedDataValue::Object(*pairs),
                        i <= pairs.len(),
                        buf@.len() == i,
                        forall|k: int|
                            0 <= k < i ==> (#[trigger] buf@[k]).0.spec_bytes() == encode_utf8(
                                pairs@[k].0@,
                            ) && dv_is(buf@[k].1, owned_view(pairs@[k].1)),
                    decreases pairs.len() - i,
                {
                    proof {
                        assert(decreases_to!(*self => (*self)->Object_0));
                        assert(decreases_to!(*pairs => pairs[i as int]));
                        assert(decreases_to!(pairs[i as int] => pairs[i as int].1));
                    }
                    let key = alloc_str(arena, pairs[i].0.as_str());
                    let v = pairs[i].1.to_arena(arena);
                    buf.push((key, v));
                    i += 1;
                }
                let slice = alloc_slice_copy(arena, buf.as_slice());
                let r = DataValue::Object(slice);
                assert(dv_is(r, self@)) by {
                    let ps = self@->Obj_0;
                    assert forall|k: int| 0 <= k < ps.len() implies (#[trigger] slice@[k]).0.spec_bytes()
                        == ps[k].0 && dv_is(slice@[k].1, ps[k].1) by {
                        assert(slice@[k] == buf@[k]);
                    }
                }
                r
            },
        }
    }

    /// Parses a JSON document into an owned tree: it is parsed into a
    /// throwaway arena, as [`DataValue::from_str`] does, and copied out.
    pub fn from_json<F: Fn(&[u8]) -> Option<u64>>(input: &str, float_bits: &F) -> (r: Result<
        OwnedDataValue,
        ParseError,
    >)
        requires
            float_parser_ok(*float_bits),
        ensures
            match spec_parse_document(input.spec_bytes(), float_fn(*float_bits)) {
                Ok(m) => r matches Ok(v) && v@ == m,
                Err(e) => r == Err::<OwnedDataValue, ParseError>(e),
            },
    {
        let arena = new_arena();
        match DataValue::from_str(input, &arena, float_bits) {
            Ok(v) => {
                proof {
                    lemma_dv_view(v, spec_parse_document(input.spec_bytes(), float_fn(*float_bits))->Ok_0);
                }
                Ok(v.to_owned())
            },
            Err(e) => Err(e),
        }
    }
}

// ---------------------------------------------------------------------------
// Access.
// ---------------------------------------------------------------------------

/// Pair `i` is the first pair of `pairs` whose key is the text `k`.
pub open spec fn first_owned_key_at(pairs: Seq<(String, OwnedDataValue)>, k: Seq<char>, i: int) -> bool {
    &&& 0 <= i < pairs.len()
    &&& pairs[i].0@ == k
    &&& forall|j: int| 0 <= j < i ==> (#[trigger] pairs[j]).0@ != k
}

/// The position of the first pair of `pairs` with key `k`, or the length
/// of `pairs` when there is none.
pub open spec fn owned_key_index(pairs: Seq<(String, OwnedDataValue)>, k: Seq<char>) -> int {
    if exists|i: int| first_owned_key_at(pairs, k, i) {
        choose|i: int| first_owned_key_at(pairs, k, i)
    } else {
        pairs.len() as int
    }
}

/// The value under key `k` of an object: that of its first pair with that
/// key. Nothing for a missing key or a value that is not an object.
pub open spec fn owned_lookup_key(v: OwnedDataValue, k: Seq<char>) -> Option<OwnedDataValue> {
    match v {
        OwnedDataValue::Object(o) => if owned_key_index(o@, k) < o@.len() {
            Some(o@[owned_key_index(o@, k)].1)
        } else {
            None
        },
        _ => None,
    }
}

/// Item `i` of an array; nothing past its end or for another value.
pub open spec fn owned_lookup_position(v: OwnedDataValue, i: int) -> Option<OwnedDataValue> {
    match v {
        OwnedDataValue::Array(a) => if 0 <= i < a@.len() {
            Some(a@[i])
        } else {
            None
        },
        _ => None,
    }
}

proof fn lemma_first_owned_key_unique(pairs: Seq<(String, OwnedDataValue)>, k: Seq<char>, i: int, j: int)
    requires
        first_owned_key_at(pairs, k, i),
        first_owned_key_at(pairs, k, j),
    ensures
        i == j,
{
    if i < j {
        assert(pairs[i].0@ != k);
    } else if j < i {
        assert(pairs[j].0@ != k);
    }
}

/// The first pair of `pairs` with key `key`, found by a linear scan.
fn find_owned_key<'v>(pairs: &'v Vec<(String, OwnedDataValue)>, key: &str) -> (r: Option<&'v OwnedDataValue>)
    ensures
        0 <= owned_key_index(pairs@, key@) <= pairs@.len(),
        match r {
            Some(x) => owned_key_index(pairs@, key@) < pairs@.len() && *x == pairs@[owned_key_index(
                pairs@,
                key@,
            )].1,
            None => owned_key_index(pairs@, key@) == pairs@.len(),
        },
{
    let mut i: usize = 0;
    while i < pairs.len()
        invariant
            i <= pairs.len(),
            forall|j: int| 0 <= j < i ==> (#[trigger] pairs@[j]).0@ != key@,
        decreases pairs.len() - i,
    {
        if str_eq(pairs[i].0.as_str(), key) {
            proof {
                vstd::utf8::encode_utf8_decode_utf8(pairs@[i as int].0@);
                vstd::utf8::encode_utf8_decode_utf8(key@);
                assert(first_owned_key_at(pairs@, key@, i as int));
                lemma_first_owned_key_unique(pairs@, key@, i as int, owned_key_index(pairs@, key@));
            }
            return Some(&pairs[i].1);
        }
        i += 1;
    }
    assert(!exists|j: int| first_owned_key_at(pairs@, key@, j));
    None
}

/// The index types of `get` and `[]` on owned values: a key (`&str`,
/// `String`) or an array position (`usize`).
pub trait OwnedValueIndex: Sealed {
    /// What this index finds in `value`.
    spec fn found_in(&self, value: OwnedDataValue) -> Option<OwnedDataValue>;

    fn index_into<'v>(&self, value: &'v OwnedDataValue) -> (r: Option<&'v OwnedDataValue>)
        ensures
            match r {
                Some(x) => self.found_in(*value) == Some(*x),
                None => self.found_in(*value) is None,
            },
    ;

    /// As `index_into`, with `Null` for a miss.
    fn index_into_or_null<'v>(&self, value: &'v OwnedDataValue) -> (r: &'v OwnedDataValue)
        ensures
            *r == match self.found_in(*value) {
                Some(x) => x,
                None => OwnedDataValue::Null,
            },
    ;
}

impl OwnedValueIndex for str {
    open spec fn found_in(&self, value: OwnedDataValue) -> Option<OwnedDataValue> {
        owned_lookup_key(value, self@)
    }

    fn index_into<'v>(&self, value: &'v OwnedDataValue) -> (r: Option<&'v OwnedDataValue>) {
        match value {
            OwnedDataValue::Object(pairs) => find_owned_key(pairs, self),
            _ => None,
        }
    }

    fn index_into_or_null<'v>(&self, value: &'v OwnedDataValue) -> (r: &'v OwnedDataValue) {
        match self.index_into(value) {
            Some(x) => x,
            None => &OwnedDataValue::Null,
        }
    }
}

impl OwnedValueIndex for String {
    open spec fn found_in(&self, value: OwnedDataValue) -> Option<OwnedDataValue> {
        owned_lookup_key(value, self@)
    }

    fn index_into<'v>(&self, value: &'v OwnedDataValue) -> (r: Option<&'v OwnedDataValue>) {
        self.as_str().index_into(value)
    }

    fn index_into_or_null<'v>(&self, value: &'v OwnedDataValue) -> (r: &'v OwnedDataValue) {
        self.as_str().index_into_or_null(value)
    }
}

impl OwnedValueIndex for usize {
    open spec fn found_in(&self, value: OwnedDataValue) -> Option<OwnedDataValue> {
        owned_lookup_position(value, *self as int)
    }

    fn index_into<'v>(&self, value: &'v OwnedDataValue) -> (r: Option<&'v OwnedDataValue>) {
        match value {
            OwnedDataValue::Array(items) => if *self < items.len() {
                Some(&items[*self])
            } else {
                None
            },
            _ => None,
        }
    }

    fn index_into_or_null<'v>(&self, value: &'v OwnedDataValue) -> (r: &'v OwnedDataValue) {
        match self.index_into(value) {
            Some(x) => x,
            None => &OwnedDataValue::Null,
        }
    }
}

impl<T: OwnedValueIndex + ?Sized> OwnedValueIndex for &T {
    open spec fn found_in(&self, value: OwnedDataValue) -> Option<OwnedDataValue> {
        (**self).found_in(value)
    }

    fn index_into<'v>(&self, value: &'v OwnedDataValue) -> (r: Option<&'v OwnedDataValue>) {
        (**self).index_into(value)
    }

    fn index_into_or_null<'v>(&self, value: &'v OwnedDataValue) -> (r: &'v OwnedDataValue) {
        (**self).index_into_or_null(value)
    }
}

impl OwnedDataValue {
    pub fn from_i64(i: i64) -> (r: Self)
        ensures
            r == OwnedDataValue::Number(NumberValue::Integer(i)),
    {
        OwnedDataValue::Number(NumberValue::Integer(i))
    }

    pub fn is_null(&self) -> (r: bool)
        ensures
            r == (*self is Null),
    {
        matches!(self, OwnedDataValue::Null)
    }

    pub fn is_bool(&self) -> (r: bool)
        ensures
            r == (*self is Bool),
    {
        matches!(self, OwnedDataValue::Bool(_))
    }

    pub fn is_number(&self) -> (r: bool)
        ensures
            r == (*self is Number),
    {
        matches!(self, OwnedDataValue::Number(_))
    }

    pub fn is_i64(&self) -> (r: bool)
        ensures
            r == (*self matches OwnedDataValue::Number(n) && n is Integer),
    {
        matches!(self, OwnedDataValue::Number(NumberValue::Integer(_)))
    }

    pub fn is_f64(&self) -> (r: bool)
        ensures
            r == (*self matches OwnedDataValue::Number(n) && n is Float),
    {
        matches!(self, OwnedDataValue::Number(NumberValue::Float(_)))
    }

    pub fn is_string(&self) -> (r: bool)
        ensures
            r == (*self is String),
    {
        matches!(self, OwnedDataValue::String(_))
    }

    pub fn is_array(&self) -> (r: bool)
        ensures
            r == (*self is Array),
    {
        matches!(self, OwnedDataValue::Array(_))
    }

    pub fn is_object(&self) -> (r: bool)
        ensures
            r == (*self is Object),
    {
        matches!(self, OwnedDataValue::Object(_))
    }

    pub fn is_datetime(&self) -> (r: bool)
        ensures
            r == (*self is DateTime),
    {
        matches!(self, OwnedDataValue::DateTime(_))
    }

    pub fn is_duration(&self) -> (r: bool)
        ensures
            r == (*self is Duration),
    {
        matches!(self, OwnedDataValue::Duration(_))
    }

    pub fn as_datetime(&self) -> (r: Option<&DataDateTime>)
        ensures
            r == (match *self {
                OwnedDataValue::DateTime(d) => Some(&d),
                _ => None,
            }),
    {
        match self {
            OwnedDataValue::DateTime(d) => Some(d),
            _ => None,
        }
    }

    pub fn as_duration(&self) -> (r: Option<&DataDuration>)
        ensures
            r == (match *self {
                OwnedDataValue::Duration(d) => Some(&d),
                _ => None,
            }),
    {
        match self {
            OwnedDataValue::Duration(d) => Some(d),
            _ => None,
        }
    }

    pub fn as_bool(&self) -> (r: Option<bool>)
        ensures
            r == (match *self {
                OwnedDataValue::Bool(b) => Some(b),
                _ => None,
            }),
    {
        match self {
            OwnedDataValue::Bool(b) => Some(*b),
            _ => None,
        }
    }

    /// The number as an `i64`: an integer, or a float that is a whole number
    /// in range (see [`number_as_i64`]).
    pub fn as_i64(&self) -> (r: Option<i64>)
        ensures
            r == (match *self {
                OwnedDataValue::Number(n) => number_as_i64(n),
                _ => None,
            }),
    {
        match self {
            OwnedDataValue::Number(n) => n.as_i64(),
            _ => None,
        }
    }

    pub fn as_number(&self) -> (r: Option<&NumberValue>)
        ensures
            match *self {
                OwnedDataValue::Number(n) => r matches Some(x) && *x == n,
                _ => r is None,
            },
    {
        match self {
            OwnedDataValue::Number(n) => Some(n),
            _ => None,
        }
    }

    pub fn as_str(&self) -> (r: Option<&str>)
        ensures
            match *self {
                OwnedDataValue::String(s) => r matches Some(t) && t@ == s@,
                _ => r is None,
            },
    {
        match self {
            OwnedDataValue::String(s) => Some(s.as_str()),
            _ => None,
        }
    }

    pub fn as_array(&self) -> (r: Option<&[OwnedDataValue]>)
        ensures
            match *self {
                OwnedDataValue::Array(a) => r matches Some(t) && t@ == a@,
                _ => r is None,
            },
    {
        match self {
            OwnedDataValue::Array(items) => Some(items.as_slice()),
            _ => None,
        }
    }

    pub fn as_object(&self) -> (r: Option<&[(String, OwnedDataValue)]>)
        ensures
            match *self {
                OwnedDataValue::Object(o) => r matches Some(t) && t@ == o@,
                _ => r is None,
            },
    {
        match self {
            OwnedDataValue::Object(pairs) => Some(pairs.as_slice()),
            _ => None,
        }
    }

    /// The value under a key (`&str`, `String`) or at an array position
    /// (`usize`); `None` on a miss or a value of another kind.
    pub fn get<I: OwnedValueIndex>(&self, index: I) -> (r: Option<&OwnedDataValue>)
        ensures
            match r {
                Some(x) => index.found_in(*self) == Some(*x),
                None => index.found_in(*self) is None,
            },
    {
        index.index_into(self)
    }

    /// The number of items of an array or pairs of an object.
    pub fn len(&self) -> (r: Option<usize>)
        ensures
            r == (match *self {
                OwnedDataValue::Array(a) => Some(a@.len() as usize),
                OwnedDataValue::Object(o) => Some(o@.len() as usize),
                _ => None,
            }),
    {
        match self {
            OwnedDataValue::Array(a) => Some(a.len()),
            OwnedDataValue::Object(o) => Some(o.len()),
            _ => None,
        }
    }

    pub fn is_empty(&self) -> (r: Option<bool>)
        ensures
            r == (match *self {
                OwnedDataValue::Array(a) => Some(a@.len() == 0),
                OwnedDataValue::Object(o) => Some(o@.len() == 0),
                _ => None,
            }),
    {
        match self {
            OwnedDataValue::Array(a) => Some(a.len() == 0),
            OwnedDataValue::Object(o) => Some(o.len() == 0),
            _ => None,
        }
    }

    /// The items of an array, in order; none for any other value.
    pub fn members(&self) -> (r: core::slice::Iter<'_, OwnedDataValue>)
        ensures
            into_iter_elts(r) == (match *self {
                OwnedDataValue::Array(a) => a@,
                _ => Seq::empty(),
            }),
    {
        let items: &[OwnedDataValue] = match self {
            OwnedDataValue::Array(a) => a.as_slice(),
            _ => &[],
        };
        let r = items.iter();
        proof {
            broadcast use vstd::std_specs::slice::axiom_spec_slice_iter;
            assert(into_iter_elts(r) =~= items@);
        }
        r
    }

    /// The `(key, value)` pairs of an object, in insertion order; none for
    /// any other value.
    pub fn entries(&self) -> (r: core::slice::Iter<'_, (String, OwnedDataValue)>)
        ensures
            into_iter_elts(r) == (match *self {
                OwnedDataValue::Object(o) => o@,
                _ => Seq::empty(),
            }),
    {
        let pairs: &[(String, OwnedDataValue)] = match self {
            OwnedDataValue::Object(o) => o.as_slice(),
            _ => &[],
        };
        let r = pairs.iter();
        proof {
            broadcast use vstd::std_specs::slice::axiom_spec_slice_iter;
            assert(into_iter_elts(r) =~= pairs@);
        }
        r
    }
}

impl Default for OwnedDataValue {
    fn default() -> (r: Self)
        ensures
            r is Null,
    {
        OwnedDataValue::Null
    }
}

impl<I: OwnedValueIndex> core::ops::Index<I> for OwnedDataValue {
    type Output = OwnedDataValue;

    /// The value under a key or at a position, or `Null` on a miss.
    fn index(&self, index: I) -> (r: &OwnedDataValue)
        ensures
            *r == match index.found_in(*self) {
                Some(x) => x,
                None => OwnedDataValue::Null,
            },
    {
        index.index_into_or_null(self)
    }
}

impl<I: OwnedValueIndex> vstd::std_specs::core::IndexSpecImpl<I> for OwnedDataValue {
    open spec fn index_req(&self, index: &I) -> bool {
        true
    }
}

// ---------------------------------------------------------------------------
// Equality.
// ---------------------------------------------------------------------------

/// The equality of two owned values, looking at most `fuel` levels deep
/// (`false` when that is not enough); the same rules as for arena values:
/// numbers compare numerically, arrays item by item, and objects by key,
/// each pair of `a` against the first pair of `b` with its key, so the
/// order of keys does not matter.
pub open spec fn owned_eq_fuel(a: OwnedDataValue, b: OwnedDataValue, fuel: nat) -> bool
    decreases fuel,
{
    if fuel == 0 {
        false
    } else {
        match (a, b) {
            (OwnedDataValue::Null, OwnedDataValue::Null) => true,
            (OwnedDataValue::Bool(x), OwnedDataValue::Bool(y)) => x == y,
            (OwnedDataValue::Number(x), OwnedDataValue::Number(y)) => number_eq(x, y),
            (OwnedDataValue::String(x), OwnedDataValue::String(y)) => x@ == y@,
            (OwnedDataValue::DateTime(x), OwnedDataValue::DateTime(y)) => x.instant() == y.instant(),
            (OwnedDataValue::Duration(x), OwnedDataValue::Duration(y)) => x == y,
            (OwnedDataValue::Array(x), OwnedDataValue::Array(y)) => x@.len() == y@.len() && forall|i: int|
                0 <= i < x@.len() ==> owned_eq_fuel(#[trigger] x@[i], y@[i], (fuel - 1) as nat),
            (OwnedDataValue::Object(x), OwnedDataValue::Object(y)) => x@.len() == y@.len() && forall|
                i: int,
            |
                0 <= i < x@.len() ==> {
                    let j = owned_key_index(y@, (#[trigger] x@[i]).0@);
                    j < y@.len() && owned_eq_fuel(x@[i].1, y@[j].1, (fuel - 1) as nat)
                },
            _ => false,
        }
    }
}

pub open spec fn owned_pair_found_eq(p: (String, OwnedDataValue), pairs: Seq<(String, OwnedDataValue)>, fuel: nat) -> bool {
    let j = owned_key_index(pairs, p.0@);
    j < pairs.len() && owned_eq_fuel(p.1, pairs[j].1, fuel)
}

#[verifier::rlimit(30)]
#[verifier::spinoff_prover]
fn owned_eq_bounded(a: &OwnedDataValue, b: &OwnedDataValue, fuel: u64) -> (r: bool)
    ensures
        r == owned_eq_fuel(*a, *b, fuel as nat),
    decreases fuel,
{
    if fuel == 0 {
        return false;
    }
    match (a, b) {
        (OwnedDataValue::Null, OwnedDataValue::Null) => true,
        (OwnedDataValue::Bool(x), OwnedDataValue::Bool(y)) => *x == *y,
        (OwnedDataValue::Number(x), OwnedDataValue::Number(y)) => *x == *y,
        (OwnedDataValue::String(x), OwnedDataValue::String(y)) => *x == *y,
        (OwnedDataValue::DateTime(x), OwnedDataValue::DateTime(y)) => *x == *y,
        (OwnedDataValue::Duration(x), OwnedDataValue::Duration(y)) => *x == *y,
        (OwnedDataValue::Array(x), OwnedDataValue::Array(y)) => {
            if x.len() != y.len() {
                return false;
            }
            let mut i: usize = 0;
            while i < x.len()
                invariant
                    fuel > 0,
                    *a == OwnedDataValue::Array(*x),
                    *b == OwnedDataValue::Array(*y),
                    x@.len() == y@.len(),
                    i <= x.len(),
                    forall|k: int| 0 <= k < i ==> owned_eq_fuel(#[trigger] x@[k], y@[k], (fuel - 1) as nat),
                decreases x.len() - i,
            {
                if !owned_eq_bounded(&x[i], &y[i], fuel - 1) {
                    assert(!owned_eq_fuel(x@[i as int], y@[i as int], (fuel - 1) as nat));
                    return false;
                }
                i += 1;
            }
            true
        },
        (OwnedDataValue::Object(x), OwnedDataValue::Object(y)) => {
            if x.len() != y.len() {
                return false;
            }
            let mut i: usize = 0;
            while i < x.len()
                invariant
                    fuel > 0,
                    *a == OwnedDataValue::Object(*x),
                    *b == OwnedDataValue::Object(*y),
                    x@.len() == y@.len(),
                    i <= x.len(),
                    forall|k: int| 0 <= k < i ==> owned_pair_found_eq(#[trigger] x@[k], y@, (fuel - 1) as nat),
                decreases x.len() - i,
            {
                match find_owned_key(y, x[i].0.as_str()) {
                    Some(other) => {
                        if !owned_eq_bounded(&x[i].1, other, fuel - 1) {
                            assert(!owned_pair_found_eq(x@[i as int], y@, (fuel - 1) as nat));
                            return false;
                        }
                    },
                    None => {
                        assert(!owned_pair_found_eq(x@[i as int], y@, (fuel - 1) as nat));
                        return false;
                    },
                }
                i += 1;
            }
            true
        },
        _ => false,
    }
}

impl PartialEq for OwnedDataValue {
    fn eq(&self, other: &Self) -> (r: bool) {
        owned_eq_bounded(self, other, u64::MAX)
    }
}

impl vstd::std_specs::cmp::PartialEqSpecImpl for OwnedDataValue {
    open spec fn obeys_eq_spec() -> bool {
        true
    }

    open spec fn eq_spec(&self, other: &OwnedDataValue) -> bool {
        owned_eq_fuel(*self, *other, u64::MAX as nat)
    }
}

// ---------------------------------------------------------------------------
// Conversions.
// ---------------------------------------------------------------------------

impl From<bool> for OwnedDataValue {
    fn from(b: bool) -> (r: Self) {
        OwnedDataValue::Bool(b)
    }
}

impl vstd::std_specs::convert::FromSpecImpl<bool> for OwnedDataValue {
    open spec fn obeys_from_spec() -> bool {
        true
    }

    open spec fn from_spec(b: bool) -> OwnedDataValue {
        OwnedDataValue::Bool(b)
    }
}

impl From<i8> for OwnedDataValue {
    /// An integer, on the integer path.
    fn from(v: i8) -> (r: Self) {
        OwnedDataValue::from_i64(v as i64)
    }
}

impl vstd::std_specs::convert::FromSpecImpl<i8> for OwnedDataValue {
    open spec fn obeys_from_spec() -> bool {
        true
    }

    open spec fn from_spec(v: i8) -> OwnedDataValue {
        OwnedDataValue::Number(NumberValue::Integer(v as i64))
    }
}

impl From<i16> for OwnedDataValue {
    /// An integer, on the integer path.
    fn from(v: i16) -> (r: Self) {
        OwnedDataValue::from_i64(v as i64)
    }
}

impl vstd::std_specs::convert::FromSpecImpl<i16> for OwnedDataValue {
    open spec fn obeys_from_spec() -> bool {
        true
    }

    open spec fn from_spec(v: i16) -> OwnedDataValue {
        OwnedDataValue::Number(NumberValue::Integer(v as i64))
    }
}

impl From<i32> for OwnedDataValue {
    /// An integer, on the integer path.
    fn from(v: i32) -> (r: Self) {
        OwnedDataValue::from_i64(v as i64)
    }
}

impl vstd::std_specs::convert::FromSpecImpl<i32> for OwnedDataValue {
    open spec fn obeys_from_spec() -> bool {
        true
    }

    open spec fn from_spec(v: i32) -> OwnedDataValue {
        OwnedDataValue::Number(NumberValue::Integer(v as i64))
    }
}

impl From<i64> for OwnedDataValue {
    /// An integer, on the integer path.
    fn from(v: i64) -> (r: Self) {
        OwnedDataValue::from_i64(v as i64)
    }
}

impl vstd::std_specs::convert::FromSpecImpl<i64> for OwnedDataValue {
    open spec fn obeys_from_spec() -> bool {
        true
    }

    open spec fn from_spec(v: i64) -> OwnedDataValue {
        OwnedDataValue::Number(NumberValue::Integer(v as i64))
    }
}

impl From<u8> for OwnedDataValue {
    /// An integer, on the integer path.
    fn from(v: u8) -> (r: Self) {
        OwnedDataValue::from_i64(v as i64)
    }
}

impl vstd::std_specs::convert::FromSpecImpl<u8> for OwnedDataValue {
    open spec fn obeys_from_spec() -> bool {
        true
    }

    open spec fn from_spec(v: u8) -> OwnedDataValue {
        OwnedDataValue::Number(NumberValue::Integer(v as i64))
    }
}

impl From<u16> for OwnedDataValue {
    /// An integer, on the integer path.
    fn from(v: u16) -> (r: Self) {
        OwnedDataValue::from_i64(v as i64)
    }
}

impl vstd::std_specs::convert::FromSpecImpl<u16> for OwnedDataValue {
    open spec fn obeys_from_spec() -> bool {
        true
    }

    open spec fn from_spec(v: u16) -> OwnedDataValue {
        OwnedDataValue::Number(NumberValue::Integer(v as i64))
    }
}

impl From<u32> for OwnedDataValue {
    /// An integer, on the integer path.
    fn from(v: u32) -> (r: Self) {
        OwnedDataValue::from_i64(v as i64)
    }
}

impl vstd::std_specs::convert::FromSpecImpl<u32> for OwnedDataValue {
    open spec fn obeys_from_spec() -> bool {
        true
    }

    open spec fn from_spec(v: u32) -> OwnedDataValue {
        OwnedDataValue::Number(NumberValue::Integer(v as i64))
    }
}

impl From<isize> for OwnedDataValue {
    /// An integer, on the integer path.
    fn from(v: isize) -> (r: Self) {
        OwnedDataValue::from_i64(v as i64)
    }
}

impl vstd::std_specs::convert::FromSpecImpl<isize> for OwnedDataValue {
    open spec fn obeys_from_spec() -> bool {
        true
    }

    open spec fn from_spec(v: isize) -> OwnedDataValue {
        OwnedDataValue::Number(NumberValue::Integer(v as i64))
    }
}

/// What a `u64` converts to: an integer up to `i64::MAX`, and above that
/// the float nearest to it.
pub open spec fn owned_from_u64(v: u64) -> OwnedDataValue {
    if v <= i64::MAX {
        OwnedDataValue::Number(NumberValue::Integer(v as i64))
    } else {
        OwnedDataValue::Number(NumberValue::Float(int_to_f64_bits(v as int)))
    }
}

impl From<u64> for OwnedDataValue {
    /// Values up to `i64::MAX` stay on the integer path; larger ones become
    /// the nearest float.
    fn from(v: u64) -> (r: Self) {
        if v <= 0x7fff_ffff_ffff_ffffu64 {
            OwnedDataValue::from_i64(v as i64)
        } else {
            OwnedDataValue::Number(NumberValue::Float(u64_to_f64_bits(v)))
        }
    }
}

impl vstd::std_specs::convert::FromSpecImpl<u64> for OwnedDataValue {
    open spec fn obeys_from_spec() -> bool {
        true
    }

    open spec fn from_spec(v: u64) -> OwnedDataValue {
        owned_from_u64(v)
    }
}

impl From<usize> for OwnedDataValue {
    /// As for `u64`.
    fn from(v: usize) -> (r: Self) {
        let w = v as u64;
        if w <= 0x7fff_ffff_ffff_ffffu64 {
            OwnedDataValue::from_i64(w as i64)
        } else {
            OwnedDataValue::Number(NumberValue::Float(u64_to_f64_bits(w)))
        }
    }
}

impl vstd::std_specs::convert::FromSpecImpl<usize> for OwnedDataValue {
    open spec fn obeys_from_spec() -> bool {
        true
    }

    open spec fn from_spec(v: usize) -> OwnedDataValue {
        owned_from_u64(v as u64)
    }
}

impl From<String> for OwnedDataValue {
    fn from(s: String) -> (r: Self) {
        OwnedDataValue::String(s)
    }
}

impl vstd::std_specs::convert::FromSpecImpl<String> for OwnedDataValue {
    open spec fn obeys_from_spec() -> bool {
        true
    }

    open spec fn from_spec(s: String) -> OwnedDataValue {
        OwnedDataValue::String(s)
    }
}

impl From<()> for OwnedDataValue {
    fn from(u: ()) -> (r: Self) {
        OwnedDataValue::Null
    }
}

impl vstd::std_specs::convert::FromSpecImpl<()> for OwnedDataValue {
    open spec fn obeys_from_spec() -> bool {
        true
    }

    open spec fn from_spec(u: ()) -> OwnedDataValue {
        OwnedDataValue::Null
    }
}

impl From<Vec<(String, OwnedDataValue)>> for OwnedDataValue {
    /// An object with these pairs, in this order.
    fn from(pairs: Vec<(String, OwnedDataValue)>) -> (r: Self) {
        OwnedDataValue::Object(pairs)
    }
}

impl vstd::std_specs::convert::FromSpecImpl<Vec<(String, OwnedDataValue)>> for OwnedDataValue {
    open spec fn obeys_from_spec() -> bool {
        true
    }

    open spec fn from_spec(pairs: Vec<(String, OwnedDataValue)>) -> OwnedDataValue {
        OwnedDataValue::Object(pairs)
    }
}

impl From<&String> for OwnedDataValue {
    fn from(s: &String) -> (r: Self) {
        OwnedDataValue::String(s.clone())
    }
}

impl vstd::std_specs::convert::FromSpecImpl<&String> for OwnedDataValue {
    open spec fn obeys_from_spec() -> bool {
        true
    }

    open spec fn from_spec(s: &String) -> OwnedDataValue {
        OwnedDataValue::String(*s)
    }
}

impl From<&str> for OwnedDataValue {
    /// A string with a copy of the text.
    fn from(s: &str) -> (r: Self)
        ensures
            r matches OwnedDataValue::String(t) && t@ == s@,
    {
        OwnedDataValue::String(s.to_owned())
    }
}

impl vstd::std_specs::convert::FromSpecImpl<&str> for OwnedDataValue {
    /// A copy is a new `String`, equal to others with the same text only by
    /// its view, so no single value is named here; `from` states the text.
    open spec fn obeys_from_spec() -> bool {
        false
    }

    open spec fn from_spec(s: &str) -> OwnedDataValue {
        choose|r: OwnedDataValue| #[trigger] is_string_with(r, s@)
    }
}

impl<'c> From<std::borrow::Cow<'c, str>> for OwnedDataValue {
    /// A string with the text, moved when it is owned and copied when it is
    /// borrowed.
    fn from(s: std::borrow::Cow<'c, str>) -> (r: Self)
        ensures
            r matches OwnedDataValue::String(t) && t@ == s@,
    {
        match s {
            std::borrow::Cow::Borrowed(b) => OwnedDataValue::String(b.to_owned()),
            std::borrow::Cow::Owned(o) => OwnedDataValue::String(o),
        }
    }
}

impl<'c> vstd::std_specs::convert::FromSpecImpl<std::borrow::Cow<'c, str>> for OwnedDataValue {
    /// As for `&str`: a copy is a new `String`; `from` states the text.
    open spec fn obeys_from_spec() -> bool {
        false
    }

    open spec fn from_spec(s: std::borrow::Cow<'c, str>) -> OwnedDataValue {
        choose|r: OwnedDataValue| #[trigger] is_string_with(r, s@)
    }
}

/// `r` is a string value with the text `t`.
pub open spec fn is_string_with(r: OwnedDataValue, t: Seq<char>) -> bool {
    r matches OwnedDataValue::String(x) && x@ == t
}

impl<T> From<Option<T>> for OwnedDataValue where OwnedDataValue: From<T> {
    /// The converted value, or `Null` for `None`.
    fn from(opt: Option<T>) -> (r: Self) {
        match opt {
            Some(v) => OwnedDataValue::from(v),
            None => OwnedDataValue::Null,
        }
    }
}

impl<T> vstd::std_specs::convert::FromSpecImpl<Option<T>> for OwnedDataValue where OwnedDataValue: From<T> {
    open spec fn obeys_from_spec() -> bool {
        <OwnedDataValue as FromSpec<T>>::obeys_from_spec()
    }

    open spec fn from_spec(opt: Option<T>) -> OwnedDataValue {
        match opt {
            Some(v) => <OwnedDataValue as FromSpec<T>>::from_spec(v),
            None => OwnedDataValue::Null,
        }
    }
}

/// `r` is an array of the items converted by `From`, in order. A
/// conversion of a collection is stated by this relation, not by a value:
/// what `From` gives for an item is known only through its contract.
pub open spec fn converts_items<T>(r: OwnedDataValue, items: Seq<T>) -> bool where OwnedDataValue: From<T> {
    r matches OwnedDataValue::Array(out) && out@.len() == items.len() && forall|k: int|
        0 <= k < items.len() ==> call_ensures(<OwnedDataValue as From<T>>::from, (items[k],), #[trigger] out@[k])
}

/// `r` is an array of clones of the items, each converted by `From`, in
/// order.
pub open spec fn converts_clones<T: Clone>(r: OwnedDataValue, items: Seq<T>) -> bool where
    OwnedDataValue: From<T>,
 {
    r matches OwnedDataValue::Array(out) && out@.len() == items.len() && forall|k: int|
        0 <= k < items.len() ==> exists|c: T|
            call_ensures(T::clone, (&items[k],), c) && call_ensures(
                <OwnedDataValue as From<T>>::from,
                (c,),
                #[trigger] out@[k],
            )
}

impl OwnedDataValue {
    /// An array of the converted items, in order.
    pub fn array<V>(items: Vec<V>) -> (r: OwnedDataValue) where OwnedDataValue: From<V>
        ensures
            r matches OwnedDataValue::Array(out) && out@.len() == items@.len() && forall|k: int|
                0 <= k < items@.len() ==> call_ensures(
                    OwnedDataValue::from,
                    (items@[k],),
                    #[trigger] out@[k],
                ),
    {
        let mut rest = items;
        let ghost n = rest@.len();
        let mut reversed: Vec<OwnedDataValue> = Vec::with_capacity(rest.len());
        while rest.len() > 0
            invariant
                rest@.len() + reversed@.len() == n,
                n == items@.len(),
                forall|k: int|
                    0 <= k < reversed@.len() ==> call_ensures(
                        OwnedDataValue::from,
                        (items@[n - 1 - k],),
                        #[trigger] reversed@[k],
                    ),
                forall|k: int| 0 <= k < rest@.len() ==> #[trigger] rest@[k] == items@[k],
            decreases rest@.len(),
        {
            let item = rest.pop().unwrap();
            reversed.push(OwnedDataValue::from(item));
        }
        let mut out: Vec<OwnedDataValue> = Vec::with_capacity(reversed.len());
        while reversed.len() > 0
            invariant
                reversed@.len() + out@.len() == n,
                n == items@.len(),
                forall|k: int|
                    0 <= k < reversed@.len() ==> call_ensures(
                        OwnedDataValue::from,
                        (items@[n - 1 - k],),
                        #[trigger] reversed@[k],
                    ),
                forall|k: int|
                    0 <= k < out@.len() ==> call_ensures(
                        OwnedDataValue::from,
                        (items@[k],),
                        #[trigger] out@[k],
                    ),
            decreases reversed@.len(),
        {
            let item = reversed.pop().unwrap();
            out.push(item);
        }
        OwnedDataValue::Array(out)
    }
}

impl<T> From<Vec<T>> for OwnedDataValue where OwnedDataValue: From<T> {
    /// An array of the converted items, in order.
    fn from(v: Vec<T>) -> (r: Self) {
        OwnedDataValue::array(v)
    }
}

impl<T: Clone> From<&[T]> for OwnedDataValue where OwnedDataValue: From<T> {
    /// An array of clones of the items, converted, in order.
    fn from(v: &[T]) -> (r: Self) {
        let mut items: Vec<T> = Vec::with_capacity(v.len());
        let mut i: usize = 0;
        while i < v.len()
            invariant
                i <= v.len(),
                items@.len() == i,
            decreases v.len() - i,
        {
            items.push(v[i].clone());
            i += 1;
        }
        OwnedDataValue::array(items)
    }
}

impl<T: Clone> vstd::std_specs::convert::FromSpecImpl<&[T]> for OwnedDataValue where OwnedDataValue: From<T> {
    open spec fn obeys_from_spec() -> bool {
        false
    }

    open spec fn from_spec(v: &[T]) -> OwnedDataValue {
        choose|r: OwnedDataValue| #[trigger] converts_clones(r, v@)
    }
}

/// The items of `a` moved into a new `Vec`, in order
/// (`<Vec<T> as From<[T; N]>>::from`, which std documents as allocating a
/// vector and moving the array's items into it).
#[verifier::external_body]
fn array_into_vec<T, const N: usize>(a: [T; N]) -> (r: Vec<T>)
    ensures
        r@ == a@,
{
    Vec::from(a)
}

impl<T, const N: usize> From<[T; N]> for OwnedDataValue where OwnedDataValue: From<T> {
    /// An array of the converted items, in order.
    fn from(v: [T; N]) -> (r: Self) {
        OwnedDataValue::array(array_into_vec(v))
    }
}

impl<T, const N: usize> vstd::std_specs::convert::FromSpecImpl<[T; N]> for OwnedDataValue where OwnedDataValue: From<T> {
    open spec fn obeys_from_spec() -> bool {
        false
    }

    open spec fn from_spec(v: [T; N]) -> OwnedDataValue {
        choose|r: OwnedDataValue| #[trigger] converts_items(r, v@)
    }
}

impl OwnedDataValue {
    /// An object of the converted pairs, in order.
    pub fn object<K, V>(pairs: Vec<(K, V)>) -> (r: OwnedDataValue) where
        String: From<K>,
        OwnedDataValue: From<V>,
        ensures
            r matches OwnedDataValue::Object(out) && out@.len() == pairs@.len() && forall|k: int|
                0 <= k < pairs@.len() ==> {
                    &&& call_ensures(String::from, (pairs@[k].0,), (#[trigger] out@[k]).0)
                    &&& call_ensures(OwnedDataValue::from, (pairs@[k].1,), out@[k].1)
                },
    {
        let mut rest = pairs;
        let ghost n = rest@.len();
        let mut reversed: Vec<(String, OwnedDataValue)> = Vec::with_capacity(rest.len());
        while rest.len() > 0
            invariant
                rest@.len() + reversed@.len() == n,
                n == pairs@.len(),
                forall|k: int|
                    0 <= k < reversed@.len() ==> {
                        &&& call_ensures(String::from, (pairs@[n - 1 - k].0,), (#[trigger] reversed@[k]).0)
                        &&& call_ensures(OwnedDataValue::from, (pairs@[n - 1 - k].1,), reversed@[k].1)
                    },
                forall|k: int| 0 <= k < rest@.len() ==> #[trigger] rest@[k] == pairs@[k],
            decreases rest@.len(),
        {
            let (key, value) = rest.pop().unwrap();
            reversed.push((String::from(key), OwnedDataValue::from(value)));
        }
        let mut out: Vec<(String, OwnedDataValue)> = Vec::with_capacity(reversed.len());
        while reversed.len() > 0
            invariant
                reversed@.len() + out@.len() == n,
                n == pairs@.len(),
                forall|k: int|
                    0 <= k < reversed@.len() ==> {
                        &&& call_ensures(String::from, (pairs@[n - 1 - k].0,), (#[trigger] reversed@[k]).0)
                        &&& call_ensures(OwnedDataValue::from, (pairs@[n - 1 - k].1,), reversed@[k].1)
                    },
                forall|k: int|
                    0 <= k < out@.len() ==> {
                        &&& call_ensures(String::from, (pairs@[k].0,), (#[trigger] out@[k]).0)
                        &&& call_ensures(OwnedDataValue::from, (pairs@[k].1,), out@[k].1)
                    },
            decreases reversed@.len(),
        {
            let pair = reversed.pop().unwrap();
            out.push(pair);
        }
        OwnedDataValue::Object(out)
    }
}

impl<T> vstd::std_specs::convert::FromSpecImpl<Vec<T>> for OwnedDataValue where OwnedDataValue: From<T> {
    open spec fn obeys_from_spec() -> bool {
        false
    }

    open spec fn from_spec(v: Vec<T>) -> OwnedDataValue {
        choose|r: OwnedDataValue| #[trigger] converts_items(r, v@)
    }
}

/// `r` is an object.
pub open spec fn is_owned_object(r: OwnedDataValue) -> bool {
    r is Object
}

/// `r` holds each entry of the map `m` once: its keys are those of `m`, no
/// two alike, each paired with its value in `m`.
pub open spec fn entries_of<K, V>(r: Seq<(K, V)>, m: Map<K, V>) -> bool {
    &&& forall|i: int| 0 <= i < r.len() ==> #[trigger] m.contains_key(r[i].0) && m[r[i].0] == r[i].1
    &&& forall|k: K| m.contains_key(k) ==> exists|i: int| 0 <= i < r.len() && #[trigger] r[i].0 == k
    &&& forall|i: int, j: int| 0 <= i < j < r.len() ==> r[i].0 != r[j].0
}

/// The entries of a `HashMap` moved into a `Vec` (`Vec::from_iter` over
/// the map), in the map's iteration order, which std leaves unspecified.
/// For a key type that vstd's hash-table model covers, the contract claims
/// that the `Vec` holds each entry once; for other key types it claims
/// nothing, since the map's view is tied to its contents only by that model.
#[verifier::external_body]
fn hash_map_entries<K, V>(m: std::collections::HashMap<K, V>) -> (r: Vec<(K, V)>)
    ensures
        vstd::std_specs::hash::obeys_key_model::<K>() ==> entries_of(r@, m@),
{
    Vec::from_iter(m)
}

/// The entries of a `BTreeMap` moved into a `Vec` (`Vec::from_iter` over
/// the map), which std documents as sorted by key. For a key type whose
/// order vstd's model covers, the contract claims that the `Vec` holds each
/// entry once and that its keys increase; for other key types it claims
/// nothing.
#[verifier::external_body]
fn btree_map_entries<K, V>(m: std::collections::BTreeMap<K, V>) -> (r: Vec<(K, V)>)
    ensures
        vstd::std_specs::btree::key_obeys_cmp_spec::<K>() ==> {
            &&& entries_of(r@, m@)
            &&& vstd::std_specs::btree::increasing_seq(r@.map_values(|p: (K, V)| p.0))
        },
{
    Vec::from_iter(m)
}

impl<K, V> From<std::collections::HashMap<K, V>> for OwnedDataValue where
    String: From<K>,
    OwnedDataValue: From<V>,
 {
    /// An object of the map's entries, keys and values converted. The key
    /// order is the map's iteration order, which is unspecified; equality
    /// of objects does not depend on it.
    fn from(m: std::collections::HashMap<K, V>) -> (r: Self) {
        OwnedDataValue::object(hash_map_entries(m))
    }
}

impl<K, V> vstd::std_specs::convert::FromSpecImpl<std::collections::HashMap<K, V>> for OwnedDataValue where
    String: From<K>,
    OwnedDataValue: From<V>,
 {
    open spec fn obeys_from_spec() -> bool {
        false
    }

    open spec fn from_spec(m: std::collections::HashMap<K, V>) -> OwnedDataValue {
        choose|r: OwnedDataValue| #[trigger] is_owned_object(r)
    }
}

impl<K, V> From<std::collections::BTreeMap<K, V>> for OwnedDataValue where
    String: From<K>,
    OwnedDataValue: From<V>,
 {
    /// An object of the map's entries, keys and values converted, in
    /// ascending key order.
    fn from(m: std::collections::BTreeMap<K, V>) -> (r: Self) {
        OwnedDataValue::object(btree_map_entries(m))
    }
}

impl<K, V> vstd::std_specs::convert::FromSpecImpl<std::collections::BTreeMap<K, V>> for OwnedDataValue where
    String: From<K>,
    OwnedDataValue: From<V>,
 {
    open spec fn obeys_from_spec() -> bool {
        false
    }

    open spec fn from_spec(m: std::collections::BTreeMap<K, V>) -> OwnedDataValue {
        choose|r: OwnedDataValue| #[trigger] is_owned_object(r)
    }
}

} // verus!
