//! The JSON parser: a single left-to-right scan over the input bytes that
//! builds a [`DataValue`] tree in an arena.
//!
//! The grammar, the error reported for each malformed input and the byte
//! position it carries are stated by the spec functions of this module
//! (`spec_parse_document` and those it calls); the executable parser is
//! proved to compute exactly that.

use vstd::prelude::*;
use vstd::string::StringSliceAdditionalSpecFns;
use vstd::utf8::*;

use crate::arena::{alloc_slice_copy, alloc_str};
use crate::model::SVal;
use crate::value::{dv_is, DataValue};
use crate::number::NumberValue;
use crate::emit::append_bytes;
use crate::simd::swar::{first_special_in_word, load_word, no_special_in_word, word_byte};
use crate::text::{lemma_ascii_byte_valid, lemma_encode_scalar_valid, lemma_valid_between_ascii, lemma_boundary_after_ascii, lemma_boundary_at_ascii};

verus! {

/// Where and why a document was rejected.
#[derive(Debug, Clone, Copy, PartialEq, Eq)]
pub struct ParseError {
    pub kind: ParseErrorKind,
    pub position: usize,
}

#[derive(Debug, Clone, Copy, PartialEq, Eq)]
pub enum ParseErrorKind {
    UnexpectedEof,
    UnexpectedByte(u8),
    InvalidEscape,
    InvalidUnicodeEscape,
    InvalidNumber,
    TrailingData,
    DepthLimitExceeded,
}

/// Nesting limit: a value may sit at most this many arrays/objects deep.
pub const MAX_DEPTH: u16 = 256;

// ---------------------------------------------------------------------------
// The grammar, stated over the input bytes.
// ---------------------------------------------------------------------------

pub open spec fn is_ws(c: u8) -> bool {
    c == 0x20 || c == 0x09 || c == 0x0A || c == 0x0D
}

pub open spec fn is_digit(c: u8) -> bool {
    0x30 <= c <= 0x39
}

/// A byte that ends a run of plain string content: `"`, `\` or a control byte.
pub open spec fn is_string_special(c: u8) -> bool {
    c == 0x22 || c == 0x5C || c < 0x20
}

pub open spec fn perr(kind: ParseErrorKind, p: int) -> ParseError {
    ParseError { kind, position: p as usize }
}

/// First position at or after `p` that is not JSON whitespace.
pub open spec fn skip_ws(b: Seq<u8>, p: int) -> int
    decreases b.len() - p,
{
    if 0 <= p < b.len() && is_ws(b[p]) {
        skip_ws(b, p + 1)
    } else {
        p
    }
}

/// First position at or after `p` that is not an ASCII digit.
pub open spec fn digits_end(b: Seq<u8>, p: int) -> int
    decreases b.len() - p,
{
    if 0 <= p < b.len() && is_digit(b[p]) {
        digits_end(b, p + 1)
    } else {
        p
    }
}

/// The value of a run of decimal digits.
pub open spec fn decimal_value(s: Seq<u8>) -> int
    decreases s.len(),
{
    if s.len() == 0 {
        0
    } else {
        decimal_value(s.drop_last()) * 10 + (s.last() - 0x30)
    }
}

pub open spec fn pow10(n: nat) -> int
    decreases n,
{
    if n == 0 {
        1
    } else {
        10 * pow10((n - 1) as nat)
    }
}

pub open spec fn hex_digit_value(c: u8) -> int {
    if 0x30 <= c <= 0x39 {
        c - 0x30
    } else if 0x61 <= c <= 0x66 {
        c - 0x61 + 10
    } else if 0x41 <= c <= 0x46 {
        c - 0x41 + 10
    } else {
        -1
    }
}

/// Four hex digits at `p`: their value and the position after them.
pub open spec fn spec_hex4(b: Seq<u8>, p: int) -> Result<(int, int), ParseError> {
    if p + 4 > b.len() {
        Err(perr(ParseErrorKind::InvalidUnicodeEscape, p))
    } else if hex_digit_value(b[p]) < 0 {
        Err(perr(ParseErrorKind::InvalidUnicodeEscape, p))
    } else if hex_digit_value(b[p + 1]) < 0 {
        Err(perr(ParseErrorKind::InvalidUnicodeEscape, p + 1))
    } else if hex_digit_value(b[p + 2]) < 0 {
        Err(perr(ParseErrorKind::InvalidUnicodeEscape, p + 2))
    } else if hex_digit_value(b[p + 3]) < 0 {
        Err(perr(ParseErrorKind::InvalidUnicodeEscape, p + 3))
    } else {
        Ok(
            (
                hex_digit_value(b[p]) * 4096 + hex_digit_value(b[p + 1]) * 256 + hex_digit_value(
                    b[p + 2],
                ) * 16 + hex_digit_value(b[p + 3]),
                p + 4,
            ),
        )
    }
}

/// The byte that a one-character escape `\e` stands for.
pub open spec fn simple_escape(e: u8) -> Option<u8> {
    if e == 0x22 {
        Some(0x22u8)
    } else if e == 0x5C {
        Some(0x5Cu8)
    } else if e == 0x2F {
        Some(0x2Fu8)
    } else if e == 0x62 {
        Some(0x08u8)
    } else if e == 0x66 {
        Some(0x0Cu8)
    } else if e == 0x6E {
        Some(0x0Au8)
    } else if e == 0x72 {
        Some(0x0Du8)
    } else if e == 0x74 {
        Some(0x09u8)
    } else {
        None
    }
}

/// The escape sequence whose backslash is at `p`: the bytes it stands for
/// and the position after it.
pub open spec fn spec_escape(b: Seq<u8>, p: int) -> Result<(Seq<u8>, int), ParseError> {
    let q = p + 1;
    if q >= b.len() {
        Err(perr(ParseErrorKind::UnexpectedEof, q))
    } else {
        let e = b[q];
        let r = q + 1;
        if e == 0x75 {
            match spec_hex4(b, r) {
                Err(x) => Err(x),
                Ok((code, s)) => {
                    if 0xD800 <= code <= 0xDBFF {
                        if !(s < b.len() && b[s] == 0x5C && s + 1 < b.len() && b[s + 1] == 0x75) {
                            Err(perr(ParseErrorKind::InvalidUnicodeEscape, s))
                        } else {
                            match spec_hex4(b, s + 2) {
                                Err(x) => Err(x),
                                Ok((low, t)) => {
                                    if !(0xDC00 <= low <= 0xDFFF) {
                                        Err(perr(ParseErrorKind::InvalidUnicodeEscape, t))
                                    } else {
                                        let scalar = 0x10000 + (code - 0xD800) * 1024 + (low
                                            - 0xDC00);
                                        Ok((encode_scalar(scalar as u32), t))
                                    }
                                },
                            }
                        }
                    } else if 0xDC00 <= code <= 0xDFFF {
                        Err(perr(ParseErrorKind::InvalidUnicodeEscape, s))
                    } else {
                        Ok((encode_scalar(code as u32), s))
                    }
                },
            }
        } else {
            match simple_escape(e) {
                Some(x) => Ok((seq![x], r)),
                None => Err(perr(ParseErrorKind::InvalidEscape, r)),
            }
        }
    }
}

/// The rest of a string literal from `p` (inside the quotes), with the bytes
/// read so far in `acc`: the string's bytes and the position after the
/// closing quote.
pub open spec fn spec_string_rest(b: Seq<u8>, p: int, acc: Seq<u8>) -> Result<(Seq<u8>, int), ParseError>
    decreases b.len() - p,
{
    if p < 0 || p >= b.len() {
        Err(perr(ParseErrorKind::UnexpectedEof, p))
    } else if b[p] == 0x22 {
        Ok((acc, p + 1))
    } else if b[p] == 0x5C {
        match spec_escape(b, p) {
            Err(e) => Err(e),
            Ok((out, q)) => if p < q {
                spec_string_rest(b, q, acc + out)
            } else {
                Err(perr(ParseErrorKind::UnexpectedEof, p))
            },
        }
    } else if b[p] < 0x20 {
        Err(perr(ParseErrorKind::UnexpectedByte(b[p]), p))
    } else {
        spec_string_rest(b, p + 1, acc.push(b[p]))
    }
}

/// A string literal whose opening quote is at `p`.
pub open spec fn spec_string(b: Seq<u8>, p: int) -> Result<(Seq<u8>, int), ParseError> {
    spec_string_rest(b, p + 1, Seq::empty())
}

pub open spec fn lit_null() -> Seq<u8> {
    seq![0x6Eu8, 0x75u8, 0x6Cu8, 0x6Cu8]
}

pub open spec fn lit_true() -> Seq<u8> {
    seq![0x74u8, 0x72u8, 0x75u8, 0x65u8]
}

pub open spec fn lit_false() -> Seq<u8> {
    seq![0x66u8, 0x61u8, 0x6Cu8, 0x73u8, 0x65u8]
}

pub open spec fn spec_null(b: Seq<u8>, p: int) -> Result<(SVal, int), ParseError> {
    if p + 4 <= b.len() && b.subrange(p, p + 4) == lit_null() {
        Ok((SVal::Null, p + 4))
    } else {
        Err(perr(ParseErrorKind::UnexpectedByte(b[p]), p))
    }
}

pub open spec fn spec_bool(b: Seq<u8>, p: int) -> Result<(SVal, int), ParseError> {
    if p + 4 <= b.len() && b.subrange(p, p + 4) == lit_true() {
        Ok((SVal::Bool(true), p + 4))
    } else if p + 5 <= b.len() && b.subrange(p, p + 5) == lit_false() {
        Ok((SVal::Bool(false), p + 5))
    } else {
        Err(perr(ParseErrorKind::UnexpectedByte(b[p]), p))
    }
}

/// A number literal starting at `p`. An integer literal (no fraction, no
/// exponent) whose value fits an `i64` is an exact `Integer`; every other
/// literal is handed, as the bytes from `p` to its end, to `fl`, whose answer
/// is the float's bit pattern (`None` rejects the literal).
pub open spec fn spec_number(b: Seq<u8>, p: int, fl: spec_fn(Seq<u8>) -> Option<u64>) -> Result<
    (SVal, int),
    ParseError,
> {
    let neg = b[p] == 0x2D;
    let q0 = if neg {
        p + 1
    } else {
        p
    };
    if q0 >= b.len() {
        Err(perr(ParseErrorKind::UnexpectedEof, q0))
    } else if !is_digit(b[q0]) {
        Err(perr(ParseErrorKind::InvalidNumber, q0))
    } else {
        let int_end = if b[q0] == 0x30 {
            q0 + 1
        } else {
            digits_end(b, q0 + 1)
        };
        let mag = decimal_value(b.subrange(q0, int_end));
        let v = if neg {
            -mag
        } else {
            mag
        };
        let has_frac = int_end < b.len() && b[int_end] == 0x2E;
        let frac_end = if has_frac {
            digits_end(b, int_end + 1)
        } else {
            int_end
        };
        if has_frac && frac_end == int_end + 1 {
            Err(perr(ParseErrorKind::InvalidNumber, int_end + 1))
        } else {
            let has_exp = frac_end < b.len() && (b[frac_end] == 0x65 || b[frac_end] == 0x45);
            let exp_digits = if has_exp && frac_end + 1 < b.len() && (b[frac_end + 1] == 0x2B
                || b[frac_end + 1] == 0x2D) {
                frac_end + 2
            } else {
                frac_end + 1
            };
            let end = if has_exp {
                digits_end(b, exp_digits)
            } else {
                frac_end
            };
            if has_exp && end == exp_digits {
                Err(perr(ParseErrorKind::InvalidNumber, exp_digits))
            } else if !has_frac && !has_exp && i64::MIN <= v <= i64::MAX {
                Ok((SVal::Number(NumberValue::Integer(v as i64)), end))
            } else {
                match fl(b.subrange(p, end)) {
                    Some(bits) => Ok((SVal::Number(NumberValue::Float(bits)), end)),
                    None => Err(perr(ParseErrorKind::InvalidNumber, p)),
                }
            }
        }
    }
}

/// A value starting at or after `p` (after whitespace), nested `depth`
/// levels deep: the value and the position after it.
pub open spec fn spec_value(b: Seq<u8>, p: int, depth: int, fl: spec_fn(Seq<u8>) -> Option<u64>) -> Result<
    (SVal, int),
    ParseError,
>
    decreases b.len() - p, 2int,
{
    if depth > MAX_DEPTH {
        Err(perr(ParseErrorKind::DepthLimitExceeded, p))
    } else if p < 0 {
        Err(perr(ParseErrorKind::UnexpectedEof, p))
    } else {
        let q = skip_ws(b, p);
        proof {
            lemma_skip_ws(b, p);
        }
        if q >= b.len() {
            Err(perr(ParseErrorKind::UnexpectedEof, q))
        } else {
            let c = b[q];
            if c == 0x22 {
                match spec_string(b, q) {
                    Ok((s, r)) => Ok((SVal::Str(s), r)),
                    Err(e) => Err(e),
                }
            } else if c == 0x7B {
                spec_object(b, q, depth, fl)
            } else if c == 0x5B {
                spec_array(b, q, depth, fl)
            } else if c == 0x74 || c == 0x66 {
                spec_bool(b, q)
            } else if c == 0x6E {
                spec_null(b, q)
            } else if c == 0x2D || is_digit(c) {
                spec_number(b, q, fl)
            } else {
                Err(perr(ParseErrorKind::UnexpectedByte(c), q))
            }
        }
    }
}

/// An array whose `[` is at `p`.
pub open spec fn spec_array(b: Seq<u8>, p: int, depth: int, fl: spec_fn(Seq<u8>) -> Option<u64>) -> Result<
    (SVal, int),
    ParseError,
>
    decreases b.len() - p, 1int,
{
    if p < 0 || p >= b.len() {
        Err(perr(ParseErrorKind::UnexpectedEof, p))
    } else {
        let q = skip_ws(b, p + 1);
        proof {
            lemma_skip_ws(b, p + 1);
        }
        if q < b.len() && b[q] == 0x5D {
            Ok((SVal::Arr(Seq::empty()), q + 1))
        } else {
            spec_items(b, q, depth, fl, Seq::empty())
        }
    }
}

/// The items of an array from position `p` on, after the items `acc`.
pub open spec fn spec_items(
    b: Seq<u8>,
    p: int,
    depth: int,
    fl: spec_fn(Seq<u8>) -> Option<u64>,
    acc: Seq<SVal>,
) -> Result<(SVal, int), ParseError>
    decreases b.len() - p, 3int,
{
    match spec_value(b, p, depth + 1, fl) {
        Err(e) => Err(e),
        Ok((v, q)) => {
            if !(p < q <= b.len()) {
                Err(perr(ParseErrorKind::UnexpectedEof, p))
            } else {
                let acc2 = acc.push(v);
                let q2 = skip_ws(b, q);
                proof {
                    lemma_skip_ws(b, q);
                }
                if q2 >= b.len() {
                    Err(perr(ParseErrorKind::UnexpectedEof, q2))
                } else if b[q2] == 0x2C {
                    proof {
                        lemma_skip_ws(b, q2 + 1);
                    }
                    spec_items(b, skip_ws(b, q2 + 1), depth, fl, acc2)
                } else if b[q2] == 0x5D {
                    Ok((SVal::Arr(acc2), q2 + 1))
                } else {
                    Err(perr(ParseErrorKind::UnexpectedByte(b[q2]), q2 + 1))
                }
            }
        },
    }
}

/// An object whose `{` is at `p`.
pub open spec fn spec_object(b: Seq<u8>, p: int, depth: int, fl: spec_fn(Seq<u8>) -> Option<u64>) -> Result<
    (SVal, int),
    ParseError,
>
    decreases b.len() - p, 1int,
{
    if p < 0 || p >= b.len() {
        Err(perr(ParseErrorKind::UnexpectedEof, p))
    } else {
        let q = skip_ws(b, p + 1);
        proof {
            lemma_skip_ws(b, p + 1);
        }
        if q < b.len() && b[q] == 0x7D {
            Ok((SVal::Obj(Seq::empty()), q + 1))
        } else {
            spec_members(b, q, depth, fl, Seq::empty())
        }
    }
}

/// The members of an object from position `p` on, after the members `acc`.
pub open spec fn spec_members(
    b: Seq<u8>,
    p: int,
    depth: int,
    fl: spec_fn(Seq<u8>) -> Option<u64>,
    acc: Seq<(Seq<u8>, SVal)>,
) -> Result<(SVal, int), ParseError>
    decreases b.len() - p, 3int,
{
    if p < 0 || p >= b.len() {
        Err(perr(ParseErrorKind::UnexpectedEof, p))
    } else if b[p] != 0x22 {
        Err(perr(ParseErrorKind::UnexpectedByte(b[p]), p))
    } else {
        match spec_string(b, p) {
            Err(e) => Err(e),
            Ok((k, q)) => {
                if !(p < q <= b.len()) {
                    Err(perr(ParseErrorKind::UnexpectedEof, p))
                } else {
                    let q2 = skip_ws(b, q);
                    proof {
                        lemma_skip_ws(b, q);
                    }
                    if q2 >= b.len() {
                        Err(perr(ParseErrorKind::UnexpectedEof, q2))
                    } else if b[q2] != 0x3A {
                        Err(perr(ParseErrorKind::UnexpectedByte(b[q2]), q2 + 1))
                    } else {
                        match spec_value(b, q2 + 1, depth + 1, fl) {
                            Err(e) => Err(e),
                            Ok((v, r)) => {
                                if !(q2 + 1 < r <= b.len()) {
                                    Err(perr(ParseErrorKind::UnexpectedEof, p))
                                } else {
                                    let acc2 = acc.push((k, v));
                                    let r2 = skip_ws(b, r);
                                    proof {
                                        lemma_skip_ws(b, r);
                                    }
                                    if r2 >= b.len() {
                                        Err(perr(ParseErrorKind::UnexpectedEof, r2))
                                    } else if b[r2] == 0x2C {
                                        proof {
                                            lemma_skip_ws(b, r2 + 1);
                                        }
                                        spec_members(b, skip_ws(b, r2 + 1), depth, fl, acc2)
                                    } else if b[r2] == 0x7D {
                                        Ok((SVal::Obj(acc2), r2 + 1))
                                    } else {
                                        Err(perr(ParseErrorKind::UnexpectedByte(b[r2]), r2 + 1))
                                    }
                                }
                            },
                        }
                    }
                }
            },
        }
    }
}

/// A whole document: one value, with only whitespace around it.
pub open spec fn spec_parse_document(b: Seq<u8>, fl: spec_fn(Seq<u8>) -> Option<u64>) -> Result<SVal, ParseError> {
    match spec_value(b, skip_ws(b, 0), 0, fl) {
        Err(e) => Err(e),
        Ok((v, q)) => {
            let q2 = skip_ws(b, q);
            if q2 != b.len() {
                Err(perr(ParseErrorKind::TrailingData, q2))
            } else {
                Ok(v)
            }
        },
    }
}

pub proof fn lemma_skip_ws(b: Seq<u8>, p: int)
    ensures
        p <= skip_ws(b, p),
        0 <= p <= b.len() ==> skip_ws(b, p) <= b.len(),
        forall|i: int| p <= i < skip_ws(b, p) ==> is_ws(#[trigger] b[i]),
        skip_ws(b, p) < b.len() && 0 <= p ==> !is_ws(b[skip_ws(b, p)]),
    decreases b.len() - p,
{
    if 0 <= p < b.len() && is_ws(b[p]) {
        lemma_skip_ws(b, p + 1);
    }
}

/// Between tokens the parser passes over exactly JSON's four whitespace
/// bytes (space, tab, line feed, carriage return): from `p` it skips a run
/// of them and stops at the first other byte, or at the end.
pub proof fn law_skip_ws_is_json_whitespace(b: Seq<u8>, p: int)
    requires
        0 <= p <= b.len(),
    ensures
        p <= skip_ws(b, p) <= b.len(),
        forall|i: int|
            p <= i < skip_ws(b, p) ==> (#[trigger] b[i] == 0x20 || b[i] == 0x09 || b[i] == 0x0A || b[i] == 0x0D),
        skip_ws(b, p) == b.len() || !(b[skip_ws(b, p)] == 0x20 || b[skip_ws(b, p)] == 0x09 || b[skip_ws(b, p)]
            == 0x0A || b[skip_ws(b, p)] == 0x0D),
{
    lemma_skip_ws(b, p);
}

pub proof fn lemma_digits_end(b: Seq<u8>, p: int)
    ensures
        p <= digits_end(b, p),
        0 <= p <= b.len() ==> digits_end(b, p) <= b.len(),
        forall|i: int| p <= i < digits_end(b, p) ==> is_digit(#[trigger] b[i]),
        digits_end(b, p) < b.len() && 0 <= p ==> !is_digit(b[digits_end(b, p)]),
    decreases b.len() - p,
{
    if 0 <= p < b.len() && is_digit(b[p]) {
        lemma_digits_end(b, p + 1);
    }
}

/// What an escape sequence stands for is valid UTF-8, it is at least two
/// bytes long and it ends with an ASCII byte.
pub proof fn lemma_escape_facts(b: Seq<u8>, p: int)
    requires
        0 <= p < b.len(),
    ensures
        spec_escape(b, p) matches Ok((e, q)) ==> p + 2 <= q <= b.len() && b[q - 1] < 0x80
            && valid_utf8(e),
{
    if let Ok((e, q)) = spec_escape(b, p) {
        let c = b[p + 1];
        if c == 0x75 {
            let (code, s) = spec_hex4(b, p + 2).unwrap();
            if 0xD800 <= code <= 0xDBFF {
                let (low, t) = spec_hex4(b, s + 2).unwrap();
                let scalar = 0x10000 + (code - 0xD800) * 1024 + (low - 0xDC00);
                assert(0x10000 <= scalar <= 0x10FFFF);
                lemma_encode_scalar_valid(scalar as u32);
            } else {
                assert(0 <= code <= 0xFFFF);
                lemma_encode_scalar_valid(code as u32);
            }
        } else {
            lemma_ascii_byte_valid(simple_escape(c).unwrap());
        }
    }
}

/// A string literal read from valid UTF-8 holds valid UTF-8: `acc` is
/// valid text followed by the plain bytes since the ASCII byte at `run - 1`.
pub proof fn lemma_string_rest_valid(b: Seq<u8>, p: int, acc: Seq<u8>, run: int, head: Seq<u8>)
    requires
        valid_utf8(b),
        0 < run <= p <= b.len(),
        b[run - 1] < 0x80,
        valid_utf8(head),
        acc == head + b.subrange(run, p),
    ensures
        spec_string_rest(b, p, acc) matches Ok((s, _)) ==> valid_utf8(s),
    decreases b.len() - p,
{
    if p < b.len() {
        if b[p] == 0x22 || b[p] == 0x5C {
            lemma_valid_between_ascii(b, run - 1, p);
            valid_utf8_concat(head, b.subrange(run, p));
            if b[p] == 0x5C {
                lemma_escape_facts(b, p);
                if let Ok((e, q)) = spec_escape(b, p) {
                    valid_utf8_concat(acc, e);
                    assert(acc + e == (acc + e) + b.subrange(q, q));
                    lemma_string_rest_valid(b, q, acc + e, q, acc + e);
                }
            }
        } else if b[p] >= 0x20 {
            assert(acc.push(b[p]) == head + b.subrange(run, p + 1));
            lemma_string_rest_valid(b, p + 1, acc.push(b[p]), run, head);
        }
    }
}

pub proof fn lemma_string_valid(b: Seq<u8>, p: int)
    requires
        valid_utf8(b),
        0 <= p < b.len(),
        b[p] == 0x22,
    ensures
        spec_string(b, p) matches Ok((s, q)) ==> valid_utf8(s) && p < q <= b.len(),
{
    lemma_ascii_byte_valid(0x41);
    assert(Seq::<u8>::empty() == Seq::<u8>::empty() + b.subrange(p + 1, p + 1));
    assert(valid_utf8(Seq::<u8>::empty())) by {
        reveal_with_fuel(valid_utf8, 1);
    }
    lemma_string_rest_valid(b, p + 1, Seq::empty(), p + 1, Seq::empty());
    lemma_string_rest_bounds(b, p + 1, Seq::empty());
}

pub proof fn lemma_string_rest_bounds(b: Seq<u8>, p: int, acc: Seq<u8>)
    requires
        0 <= p,
    ensures
        spec_string_rest(b, p, acc) matches Ok((s, q)) ==> p < q <= b.len(),
    decreases b.len() - p,
{
    if 0 <= p < b.len() {
        if b[p] == 0x5C {
            lemma_escape_facts(b, p);
            if let Ok((e, q)) = spec_escape(b, p) {
                lemma_string_rest_bounds(b, q, acc + e);
            }
        } else if b[p] != 0x22 && b[p] >= 0x20 {
            lemma_string_rest_bounds(b, p + 1, acc.push(b[p]));
        }
    }
}

/// A run of plain bytes is read as it stands.
pub proof fn lemma_string_rest_run(b: Seq<u8>, p: int, q: int, acc: Seq<u8>)
    requires
        0 <= p <= q <= b.len(),
        forall|j: int| p <= j < q ==> !is_string_special(#[trigger] b[j]),
    ensures
        spec_string_rest(b, p, acc) == spec_string_rest(b, q, acc + b.subrange(p, q)),
    decreases q - p,
{
    if p < q {
        assert(!is_string_special(b[p]));
        lemma_string_rest_run(b, p + 1, q, acc.push(b[p]));
        assert(acc.push(b[p]) + b.subrange(p + 1, q) =~= acc + b.subrange(p, q));
    } else {
        assert(acc + b.subrange(p, p) =~= acc);
    }
}

/// Marks, in the top bit of each byte, the bytes of `w` that end a string's
/// plain run (`"`, `\` or below 0x20), exactly up to the first of them;
/// bytes are read little-endian.
fn string_terminator_mask(w: u64) -> (m: u64)
    ensures
        m == crate::simd::swar::swar_mask(w),
        m == 0 <==> no_special_in_word(w),
        m != 0 ==> first_special_in_word(w, (m.trailing_zeros() / 8) as u64),
{
    crate::simd::swar::mask(w)
}

/// Skips the plain bytes from `pos`, eight at a time, stopping at the first
/// special byte or where fewer than eight bytes are left.
fn skip_plain_words(b: &[u8], pos: usize) -> (q: usize)
    requires
        pos <= b.len(),
    ensures
        pos <= q <= b.len(),
        forall|j: int| pos <= j < q ==> !is_string_special(#[trigger] b@[j]),
        q + 8 <= b.len() ==> is_string_special(b@[q as int]),
{
    let mut i = pos;
    while b.len() - i >= 8
        invariant
            pos <= i <= b.len(),
            forall|j: int| pos <= j < i ==> !is_string_special(#[trigger] b@[j]),
        decreases b.len() - i,
    {
        let w = load_word(b, i);
        let m = string_terminator_mask(w);
        if m != 0 {
            let off = (m.trailing_zeros() / 8) as usize;
            proof {
                assert(word_byte(w, off as u64) == b@[i + off]);
                assert forall|j: int| pos <= j < i + off implies !is_string_special(#[trigger] b@[j]) by {
                    if j >= i {
                        assert(word_byte(w, (j - i) as u64) == b@[j]);
                    }
                }
            }
            return i + off;
        }
        proof {
            assert forall|j: int| pos <= j < i + 8 implies !is_string_special(#[trigger] b@[j]) by {
                if j >= i {
                    assert(word_byte(w, (j - i) as u64) == b@[j]);
                }
            }
        }
        i += 8;
    }
    i
}

// ---------------------------------------------------------------------------
// The float conversion that the caller supplies.
// ---------------------------------------------------------------------------

/// `f` may be called on any bytes and answers the same for the same bytes.
pub open spec fn float_parser_ok<F: Fn(&[u8]) -> Option<u64>>(f: F) -> bool {
    &&& forall|s: &[u8]| #[trigger] call_requires(f, (s,))
    &&& forall|s1: &[u8], s2: &[u8], r1: Option<u64>, r2: Option<u64>|
        #[trigger] call_ensures(f, (s1,), r1) && #[trigger] call_ensures(f, (s2,), r2) && s1@
            == s2@ ==> r1 == r2
}

/// What `f` answers for the bytes `s`.
pub open spec fn float_bits_of<F: Fn(&[u8]) -> Option<u64>>(f: F, s: Seq<u8>) -> Option<u64> {
    let (r, sl) = choose|r: Option<u64>, sl: &[u8]| sl@ == s && #[trigger] call_ensures(f, (sl,), r);
    r
}

/// `f` as a function of the bytes it is given.
pub open spec fn float_fn<F: Fn(&[u8]) -> Option<u64>>(f: F) -> spec_fn(Seq<u8>) -> Option<u64> {
    |s: Seq<u8>| float_bits_of(f, s)
}

fn call_float<F: Fn(&[u8]) -> Option<u64>>(f: &F, s: &[u8]) -> (r: Option<u64>)
    requires
        float_parser_ok(*f),
    ensures
        r == float_bits_of(*f, s@),
{
    let r = (*f)(s);
    proof {
        assert(exists|r1: Option<u64>, sl: &[u8]| sl@ == s@ && call_ensures(*f, (sl,), r1));
        let (r2, sl2) = choose|r1: Option<u64>, sl: &[u8]| sl@ == s@ && call_ensures(*f, (sl,), r1);
        assert(call_ensures(*f, (sl2,), r2));
    }
    r
}

// ---------------------------------------------------------------------------
// The executable parser.
// ---------------------------------------------------------------------------

/// `r` is the executable counterpart of the spec result `s`.
pub open spec fn value_result_is<'a>(
    r: Result<(DataValue<'a>, usize), ParseError>,
    s: Result<(SVal, int), ParseError>,
) -> bool {
    match s {
        Ok((m, q)) => r matches Ok((v, q2)) && dv_is(v, m) && q2 == q,
        Err(e) => r == Err::<(DataValue<'a>, usize), ParseError>(e),
    }
}

fn mk_err(kind: ParseErrorKind, p: usize) -> (e: ParseError)
    ensures
        e == perr(kind, p as int),
{
    ParseError { kind, position: p }
}

fn is_ws_byte(c: u8) -> (r: bool)
    ensures
        r == is_ws(c),
{
    c == 0x20 || c == 0x09 || c == 0x0A || c == 0x0D
}

fn is_digit_byte(c: u8) -> (r: bool)
    ensures
        r == is_digit(c),
{
    0x30 <= c && c <= 0x39
}

fn ws(b: &[u8], p: usize) -> (q: usize)
    requires
        p <= b.len(),
    ensures
        q == skip_ws(b@, p as int),
        p <= q <= b.len(),
{
    let mut q = p;
    while q < b.len() && is_ws_byte(b[q])
        invariant
            p <= q <= b.len(),
            skip_ws(b@, q as int) == skip_ws(b@, p as int),
        decreases b.len() - q,
    {
        q += 1;
    }
    q
}

fn scan_digits(b: &[u8], p: usize) -> (q: usize)
    requires
        p <= b.len(),
    ensures
        q == digits_end(b@, p as int),
        p <= q <= b.len(),
{
    let mut q = p;
    while q < b.len() && is_digit_byte(b[q])
        invariant
            p <= q <= b.len(),
            digits_end(b@, q as int) == digits_end(b@, p as int),
        decreases b.len() - q,
    {
        q += 1;
    }
    q
}

fn hex_digit(c: u8) -> (r: u32)
    ensures
        hex_digit_value(c) < 0 ==> r == 16,
        hex_digit_value(c) >= 0 ==> r == hex_digit_value(c),
{
    if 0x30 <= c && c <= 0x39 {
        (c - 0x30) as u32
    } else if 0x61 <= c && c <= 0x66 {
        (c - 0x61 + 10) as u32
    } else if 0x41 <= c && c <= 0x46 {
        (c - 0x41 + 10) as u32
    } else {
        16
    }
}

fn parse_hex4(b: &[u8], p: usize) -> (r: Result<(u32, usize), ParseError>)
    requires
        p <= b.len(),
    ensures
        match spec_hex4(b@, p as int) {
            Ok((v, q)) => r == Ok::<(u32, usize), ParseError>((v as u32, q as usize)) && 0 <= v
                < 0x10000 && q == p + 4,
            Err(e) => r == Err::<(u32, usize), ParseError>(e),
        },
{
    if b.len() - p < 4 {
        return Err(mk_err(ParseErrorKind::InvalidUnicodeEscape, p));
    }
    let d0 = hex_digit(b[p]);
    if d0 == 16 {
        return Err(mk_err(ParseErrorKind::InvalidUnicodeEscape, p));
    }
    let d1 = hex_digit(b[p + 1]);
    if d1 == 16 {
        return Err(mk_err(ParseErrorKind::InvalidUnicodeEscape, p + 1));
    }
    let d2 = hex_digit(b[p + 2]);
    if d2 == 16 {
        return Err(mk_err(ParseErrorKind::InvalidUnicodeEscape, p + 2));
    }
    let d3 = hex_digit(b[p + 3]);
    if d3 == 16 {
        return Err(mk_err(ParseErrorKind::InvalidUnicodeEscape, p + 3));
    }
    Ok((d0 * 4096 + d1 * 256 + d2 * 16 + d3, p + 4))
}

/// Appends the UTF-8 encoding of `x`.
fn push_utf8(out: &mut Vec<u8>, x: u32)
    ensures
        final(out)@ == old(out)@ + encode_scalar(x),
{
    if x <= 0x7F {
        out.push((x & 0x7F) as u8);
    } else if x <= 0x7FF {
        out.push(0xC0 | ((x >> 6) & 0x1F) as u8);
        out.push(0x80 | (x & 0x3F) as u8);
    } else if x <= 0xFFFF && !(0xD800 <= x && x <= 0xDFFF) {
        out.push(0xE0 | ((x >> 12) & 0x0F) as u8);
        out.push(0x80 | ((x >> 6) & 0x3F) as u8);
        out.push(0x80 | (x & 0x3F) as u8);
    } else {
        out.push(0xF0 | ((x >> 18) & 0x7) as u8);
        out.push(0x80 | ((x >> 12) & 0x3F) as u8);
        out.push(0x80 | ((x >> 6) & 0x3F) as u8);
        out.push(0x80 | (x & 0x3F) as u8);
    }
    assert(final(out)@ =~= old(out)@ + encode_scalar(x));
}

fn simple_escape_byte(e: u8) -> (r: Option<u8>)
    ensures
        r == simple_escape(e),
{
    if e == 0x22 {
        Some(0x22)
    } else if e == 0x5C {
        Some(0x5C)
    } else if e == 0x2F {
        Some(0x2F)
    } else if e == 0x62 {
        Some(0x08)
    } else if e == 0x66 {
        Some(0x0C)
    } else if e == 0x6E {
        Some(0x0A)
    } else if e == 0x72 {
        Some(0x0D)
    } else if e == 0x74 {
        Some(0x09)
    } else {
        None
    }
}

/// Reads the escape sequence whose backslash is at `p`, appending what it
/// stands for to `out`; returns the position after it.
fn parse_escape(b: &[u8], p: usize, out: &mut Vec<u8>) -> (r: Result<usize, ParseError>)
    requires
        p < b.len(),
        b[p as int] == 0x5C,
    ensures
        match spec_escape(b@, p as int) {
            Ok((e, q)) => r == Ok::<usize, ParseError>(q as usize) && final(out)@ == old(out)@ + e,
            Err(x) => r == Err::<usize, ParseError>(x),
        },
{
    let q = p + 1;
    if q >= b.len() {
        return Err(mk_err(ParseErrorKind::UnexpectedEof, q));
    }
    let e = b[q];
    let r = q + 1;
    if e == 0x75 {
        let (code, s) = match parse_hex4(b, r) {
            Ok(x) => x,
            Err(x) => return Err(x),
        };
        if 0xD800 <= code && code <= 0xDBFF {
            if !(s < b.len() && b[s] == 0x5C && s + 1 < b.len() && b[s + 1] == 0x75) {
                return Err(mk_err(ParseErrorKind::InvalidUnicodeEscape, s));
            }
            let (low, t) = match parse_hex4(b, s + 2) {
                Ok(x) => x,
                Err(x) => return Err(x),
            };
            if !(0xDC00 <= low && low <= 0xDFFF) {
                return Err(mk_err(ParseErrorKind::InvalidUnicodeEscape, t));
            }
            let scalar = 0x10000 + (code - 0xD800) * 1024 + (low - 0xDC00);
            push_utf8(out, scalar);
            Ok(t)
        } else if 0xDC00 <= code && code <= 0xDFFF {
            Err(mk_err(ParseErrorKind::InvalidUnicodeEscape, s))
        } else {
            push_utf8(out, code);
            Ok(s)
        }
    } else {
        match simple_escape_byte(e) {
            Some(x) => {
                out.push(x);
                assert(final(out)@ =~= old(out)@ + seq![x]);
                Ok(r)
            },
            None => Err(mk_err(ParseErrorKind::InvalidEscape, r)),
        }
    }
}

/// The text of `input` between two ASCII bytes at `i - 1` and `j`.
fn str_between<'a>(input: &'a str, b: &[u8], i: usize, j: usize) -> (r: &'a str)
    requires
        b@ == input.spec_bytes(),
        valid_utf8(b@),
        0 < i <= j < b.len(),
        b[i - 1] < 0x80,
        b[j as int] < 0x80,
    ensures
        r.spec_bytes() == b@.subrange(i as int, j as int),
{
    proof {
        lemma_boundary_after_ascii(b@, i - 1);
    }
    let (_, rest) = input.split_at(i);
    proof {
        valid_utf8_split(b@, i as int);
        assert(rest.spec_bytes()[j - i] == b@[j as int]);
        lemma_boundary_at_ascii(rest.spec_bytes(), j - i);
    }
    let (mid, _) = rest.split_at(j - i);
    assert(mid.spec_bytes() =~= b@.subrange(i as int, j as int));
    mid
}

/// Reads the string literal whose opening quote is at `p`. Text without
/// escapes is borrowed from `input`; otherwise the resolved text is copied
/// into `arena`.
#[verifier::rlimit(30)]
#[verifier::spinoff_prover]
fn parse_string<'a>(input: &'a str, b: &'a [u8], arena: &'a bumpalo::Bump, p: usize) -> (r: Result<
    (&'a str, usize),
    ParseError,
>)
    requires
        b@ == input.spec_bytes(),
        valid_utf8(b@),
        p < b.len(),
        b[p as int] == 0x22,
    ensures
        match spec_string(b@, p as int) {
            Ok((s, q)) => r matches Ok((t, q2)) && t.spec_bytes() == s && q2 == q,
            Err(e) => r == Err::<(&'a str, usize), ParseError>(e),
        },
        r matches Ok((_, q)) ==> p < q <= b.len(),
{
    proof {
        lemma_string_valid(b@, p as int);
    }
    let start = p + 1;
    // Eight bytes at a time up to the first quote, backslash or control byte.
    let mut pos = skip_plain_words(b, start);
    proof {
        lemma_string_rest_run(b@, start as int, pos as int, Seq::empty());
        assert(Seq::<u8>::empty() + b@.subrange(start as int, pos as int) =~= b@.subrange(
            start as int,
            pos as int,
        ));
    }
    // The tail, and the byte where the scan stopped, one at a time.
    loop
        invariant
            b@ == input.spec_bytes(),
            valid_utf8(b@),
            b[p as int] == 0x22,
            start <= pos <= b.len(),
            start == p + 1,
            spec_string(b@, p as int) == spec_string_rest(
                b@,
                pos as int,
                b@.subrange(start as int, pos as int),
            ),
            spec_string(b@, p as int) matches Ok((s, q)) ==> valid_utf8(s) && p < q <= b.len(),
        decreases b.len() - pos,
    {
        if pos >= b.len() {
            return Err(mk_err(ParseErrorKind::UnexpectedEof, pos));
        }
        let c = b[pos];
        if c == 0x22 {
            let s = str_between(input, b, start, pos);
            return Ok((s, pos + 1));
        } else if c == 0x5C {
            return parse_string_with_escapes(b, arena, p, pos);
        } else if c < 0x20 {
            return Err(mk_err(ParseErrorKind::UnexpectedByte(c), pos));
        }
        assert(b@.subrange(start as int, pos as int).push(b@[pos as int]) =~= b@.subrange(
            start as int,
            pos + 1,
        ));
        pos += 1;
    }
}

/// Reads the rest of a string literal from its first backslash at `pos`:
/// the text read so far is copied, then runs of plain bytes are copied
/// whole and each escape is resolved, and the text is put in `arena`.
#[verifier::rlimit(30)]
#[verifier::spinoff_prover]
fn parse_string_with_escapes<'a>(b: &[u8], arena: &'a bumpalo::Bump, p: usize, pos: usize) -> (r:
    Result<(&'a str, usize), ParseError>)
    requires
        valid_utf8(b@),
        p < pos < b.len(),
        b[pos as int] == 0x5C,
        spec_string(b@, p as int) == spec_string_rest(
            b@,
            pos as int,
            b@.subrange(p + 1, pos as int),
        ),
        spec_string(b@, p as int) matches Ok((s, q)) ==> valid_utf8(s) && p < q <= b.len(),
    ensures
        match spec_string(b@, p as int) {
            Ok((s, q)) => r matches Ok((t, q2)) && t.spec_bytes() == s && q2 == q,
            Err(e) => r == Err::<(&'a str, usize), ParseError>(e),
        },
        r matches Ok((_, q)) ==> p < q <= b.len(),
{
    let mut out: Vec<u8> = vstd::slice::slice_to_vec(vstd::slice::slice_subrange(b, p + 1, pos));
    let mut pos = pos;
    loop
        invariant
            valid_utf8(b@),
            p < pos <= b.len(),
            spec_string(b@, p as int) == spec_string_rest(b@, pos as int, out@),
            spec_string(b@, p as int) matches Ok((s, q)) ==> valid_utf8(s) && p < q <= b.len(),
        decreases b.len() - pos,
    {
        // Copy the run of plain bytes up to the next escape or the end.
        let chunk_start = pos;
        pos = skip_plain_words(b, pos);
        while pos < b.len() && !(b[pos] == 0x22 || b[pos] == 0x5C || b[pos] < 0x20)
            invariant
                chunk_start <= pos <= b.len(),
                forall|j: int| chunk_start <= j < pos ==> !is_string_special(#[trigger] b@[j]),
            decreases b.len() - pos,
        {
            pos += 1;
        }
        proof {
            lemma_string_rest_run(b@, chunk_start as int, pos as int, out@);
        }
        if pos > chunk_start {
            append_bytes(&mut out, vstd::slice::slice_subrange(b, chunk_start, pos));
        } else {
            assert(out@ + b@.subrange(chunk_start as int, pos as int) =~= out@);
        }
        if pos >= b.len() {
            return Err(mk_err(ParseErrorKind::UnexpectedEof, pos));
        }
        let c = b[pos];
        if c == 0x22 {
            proof {
                assert(spec_string(b@, p as int) == Ok::<(Seq<u8>, int), ParseError>(
                    (out@, pos + 1),
                ));
            }
            match str_from_utf8(out.as_slice()) {
                Some(s) => {
                    let t = alloc_str(arena, s);
                    return Ok((t, pos + 1));
                },
                None => {
                    return Err(mk_err(ParseErrorKind::InvalidEscape, pos));
                },
            }
        } else if c == 0x5C {
            proof {
                lemma_escape_facts(b@, pos as int);
            }
            let q = match parse_escape(b, pos, &mut out) {
                Ok(q) => q,
                Err(e) => return Err(e),
            };
            pos = q;
        } else {
            return Err(mk_err(ParseErrorKind::UnexpectedByte(c), pos));
        }
    }
}

/// Calls `core::str::from_utf8`, which checks that the bytes are valid
/// UTF-8; the contract claims it succeeds exactly on valid UTF-8 and then
/// returns the same bytes as text.
#[verifier::external_body]
fn str_from_utf8(v: &[u8]) -> (r: Option<&str>)
    ensures
        r is Some <==> valid_utf8(v@),
        r matches Some(s) ==> s.spec_bytes() == v@,
{
    core::str::from_utf8(v).ok()
}

fn parse_null<'a>(b: &[u8], p: usize) -> (r: Result<(DataValue<'a>, usize), ParseError>)
    requires
        p < b.len(),
    ensures
        value_result_is(r, spec_null(b@, p as int)),
        r matches Ok((_, q)) ==> p < q <= b.len(),
{
    if b.len() - p >= 4 && b[p] == 0x6E && b[p + 1] == 0x75 && b[p + 2] == 0x6C && b[p + 3] == 0x6C {
        assert(b@.subrange(p as int, p + 4) =~= lit_null());
        Ok((DataValue::Null, p + 4))
    } else {
        proof {
            if p + 4 <= b.len() && b@.subrange(p as int, p + 4) == lit_null() {
                assert(b@.subrange(p as int, p + 4)[1] == b@[p + 1]);
                assert(b@.subrange(p as int, p + 4)[2] == b@[p + 2]);
                assert(b@.subrange(p as int, p + 4)[3] == b@[p + 3]);
                assert(b@.subrange(p as int, p + 4)[0] == b@[p as int]);
            }
        }
        Err(mk_err(ParseErrorKind::UnexpectedByte(b[p]), p))
    }
}

fn parse_bool<'a>(b: &[u8], p: usize) -> (r: Result<(DataValue<'a>, usize), ParseError>)
    requires
        p < b.len(),
    ensures
        value_result_is(r, spec_bool(b@, p as int)),
        r matches Ok((_, q)) ==> p < q <= b.len(),
{
    if b.len() - p >= 4 && b[p] == 0x74 && b[p + 1] == 0x72 && b[p + 2] == 0x75 && b[p + 3] == 0x65 {
        assert(b@.subrange(p as int, p + 4) =~= lit_true());
        return Ok((DataValue::Bool(true), p + 4));
    }
    proof {
        if p + 4 <= b.len() && b@.subrange(p as int, p + 4) == lit_true() {
            assert(b@.subrange(p as int, p + 4)[0] == b@[p as int]);
            assert(b@.subrange(p as int, p + 4)[1] == b@[p + 1]);
            assert(b@.subrange(p as int, p + 4)[2] == b@[p + 2]);
            assert(b@.subrange(p as int, p + 4)[3] == b@[p + 3]);
        }
    }
    if b.len() - p >= 5 && b[p] == 0x66 && b[p + 1] == 0x61 && b[p + 2] == 0x6C && b[p + 3] == 0x73
        && b[p + 4] == 0x65 {
        assert(b@.subrange(p as int, p + 5) =~= lit_false());
        return Ok((DataValue::Bool(false), p + 5));
    }
    proof {
        if p + 5 <= b.len() && b@.subrange(p as int, p + 5) == lit_false() {
            assert(b@.subrange(p as int, p + 5)[0] == b@[p as int]);
            assert(b@.subrange(p as int, p + 5)[1] == b@[p + 1]);
            assert(b@.subrange(p as int, p + 5)[2] == b@[p + 2]);
            assert(b@.subrange(p as int, p + 5)[3] == b@[p + 3]);
            assert(b@.subrange(p as int, p + 5)[4] == b@[p + 4]);
        }
    }
    Err(mk_err(ParseErrorKind::UnexpectedByte(b[p]), p))
}

#[verifier::rlimit(30)]
#[verifier::spinoff_prover]
fn parse_number<'a, F: Fn(&[u8]) -> Option<u64>>(b: &[u8], conv: &F, p: usize) -> (r: Result<
    (DataValue<'a>, usize),
    ParseError,
>)
    requires
        p < b.len(),
        b[p as int] == 0x2D || is_digit(b[p as int]),
        float_parser_ok(*conv),
    ensures
        value_result_is(r, spec_number(b@, p as int, float_fn(*conv))),
        r matches Ok((_, q)) ==> p < q <= b.len(),
{
    let start = p;
    let neg = b[p] == 0x2D;
    let mut pos = if neg {
        p + 1
    } else {
        p
    };
    if pos >= b.len() {
        return Err(mk_err(ParseErrorKind::UnexpectedEof, pos));
    }
    let q0 = pos;
    let c = b[pos];
    // Minus the value of the digits read so far; negative, so that
    // `i64::MIN` fits.
    let mut acc: i64 = 0;
    let mut overflow = false;
    if c == 0x30 {
        pos += 1;
        assert(b@.subrange(q0 as int, pos as int) =~= seq![0x30u8]);
        assert(b@.subrange(q0 as int, pos as int).drop_last() =~= Seq::<u8>::empty());
        reveal_with_fuel(decimal_value, 2);
    } else if 0x31 <= c && c <= 0x39 {
        acc = -((c - 0x30) as i64);
        pos += 1;
        proof {
            assert(b@.subrange(q0 as int, pos as int).drop_last() =~= Seq::<u8>::empty());
            assert(b@.subrange(q0 as int, pos as int).last() == c);
            reveal_with_fuel(decimal_value, 2);
        }
        while pos < b.len() && is_digit_byte(b[pos])
            invariant
                q0 < pos <= b.len(),
                q0 < b.len(),
                digits_end(b@, q0 + 1) == digits_end(b@, pos as int),
                acc <= 0,
                !overflow ==> acc == -decimal_value(b@.subrange(q0 as int, pos as int)),
                overflow ==> decimal_value(b@.subrange(q0 as int, pos as int)) > 9_223_372_036_854_775_808int,
            decreases b.len() - pos,
        {
            let d = b[pos];
            let dv = (d - 0x30) as i64;
            proof {
                assert(b@.subrange(q0 as int, pos + 1).drop_last() =~= b@.subrange(q0 as int, pos as int));
                assert(b@.subrange(q0 as int, pos + 1).last() == d);
            }
            if !overflow {
                match acc.checked_mul(10) {
                    Some(m) => match m.checked_sub(dv) {
                        Some(x) => {
                            acc = x;
                        },
                        None => {
                            overflow = true;
                        },
                    },
                    None => {
                        overflow = true;
                    },
                }
            }
            pos += 1;
        }
    } else {
        return Err(mk_err(ParseErrorKind::InvalidNumber, pos));
    }
    let int_end = pos;
    assert(!overflow ==> acc == -decimal_value(b@.subrange(q0 as int, int_end as int)));
    let mut is_float = false;
    if pos < b.len() && b[pos] == 0x2E {
        is_float = true;
        pos += 1;
        let frac_start = pos;
        pos = scan_digits(b, pos);
        if pos == frac_start {
            return Err(mk_err(ParseErrorKind::InvalidNumber, pos));
        }
    }
    let frac_end = pos;
    if pos < b.len() && (b[pos] == 0x65 || b[pos] == 0x45) {
        is_float = true;
        pos += 1;
        if pos < b.len() && (b[pos] == 0x2B || b[pos] == 0x2D) {
            pos += 1;
        }
        let exp_start = pos;
        pos = scan_digits(b, pos);
        if pos == exp_start {
            return Err(mk_err(ParseErrorKind::InvalidNumber, pos));
        }
    }
    if !is_float && !overflow {
        if neg {
            return Ok((DataValue::Number(NumberValue::Integer(acc)), pos));
        } else if acc != i64::MIN {
            return Ok((DataValue::Number(NumberValue::Integer(-acc)), pos));
        }
    }
    let literal = vstd::slice::slice_subrange(b, start, pos);
    match call_float(conv, literal) {
        Some(bits) => Ok((DataValue::Number(NumberValue::Float(bits)), pos)),
        None => Err(mk_err(ParseErrorKind::InvalidNumber, start)),
    }
}

/// The input and what the parser needs of it at every step.
pub open spec fn parser_input_ok<F: Fn(&[u8]) -> Option<u64>>(input: &str, b: &[u8], conv: &F) -> bool {
    &&& b@ == input.spec_bytes()
    &&& valid_utf8(b@)
    &&& float_parser_ok(*conv)
}

fn parse_value<'a, F: Fn(&[u8]) -> Option<u64>>(
    input: &'a str,
    b: &'a [u8],
    arena: &'a bumpalo::Bump,
    conv: &F,
    p: usize,
    depth: u16,
) -> (r: Result<(DataValue<'a>, usize), ParseError>)
    requires
        parser_input_ok(input, b, conv),
        p <= b.len(),
        depth <= MAX_DEPTH + 1,
    ensures
        value_result_is(r, spec_value(b@, p as int, depth as int, float_fn(*conv))),
        r matches Ok((_, q)) ==> p < q <= b.len(),
    decreases b.len() - p, 2int,
{
    if depth > MAX_DEPTH {
        return Err(mk_err(ParseErrorKind::DepthLimitExceeded, p));
    }
    let q = ws(b, p);
    if q >= b.len() {
        return Err(mk_err(ParseErrorKind::UnexpectedEof, q));
    }
    let c = b[q];
    if c == 0x22 {
        match parse_string(input, b, arena, q) {
            Ok((s, r)) => Ok((DataValue::String(s), r)),
            Err(e) => Err(e),
        }
    } else if c == 0x7B {
        parse_object(input, b, arena, conv, q, depth)
    } else if c == 0x5B {
        parse_array(input, b, arena, conv, q, depth)
    } else if c == 0x74 || c == 0x66 {
        parse_bool(b, q)
    } else if c == 0x6E {
        parse_null(b, q)
    } else if c == 0x2D || is_digit_byte(c) {
        parse_number(b, conv, q)
    } else {
        Err(mk_err(ParseErrorKind::UnexpectedByte(c), q))
    }
}

#[verifier::rlimit(30)]
#[verifier::spinoff_prover]
fn parse_array<'a, F: Fn(&[u8]) -> Option<u64>>(
    input: &'a str,
    b: &'a [u8],
    arena: &'a bumpalo::Bump,
    conv: &F,
    p: usize,
    depth: u16,
) -> (r: Result<(DataValue<'a>, usize), ParseError>)
    requires
        parser_input_ok(input, b, conv),
        p < b.len(),
        b[p as int] == 0x5B,
        depth <= MAX_DEPTH,
    ensures
        value_result_is(r, spec_array(b@, p as int, depth as int, float_fn(*conv))),
        r matches Ok((_, q)) ==> p < q <= b.len(),
    decreases b.len() - p, 1int,
{
    let ghost fl = float_fn(*conv);
    let q = ws(b, p + 1);
    let mut items: Vec<DataValue<'a>> = Vec::new();
    if q < b.len() && b[q] == 0x5D {
        let slice = alloc_slice_copy(arena, items.as_slice());
        assert(slice@ =~= Seq::<DataValue<'a>>::empty());
        return Ok((DataValue::Array(slice), q + 1));
    }
    let ghost mut acc: Seq<SVal> = Seq::empty();
    let mut pos = q;
    loop
        invariant
            parser_input_ok(input, b, conv),
            fl == float_fn(*conv),
            p < pos <= b.len(),
            depth <= MAX_DEPTH,
            items@.len() == acc.len(),
            forall|i: int| 0 <= i < acc.len() ==> dv_is(#[trigger] items@[i], acc[i]),
            spec_array(b@, p as int, depth as int, fl) == spec_items(
                b@,
                pos as int,
                depth as int,
                fl,
                acc,
            ),
        decreases b.len() - pos,
    {
        let ghost sv = spec_value(b@, pos as int, depth + 1, fl);
        let (v, q) = match parse_value(input, b, arena, conv, pos, depth + 1) {
            Ok(x) => x,
            Err(e) => return Err(e),
        };
        let ghost m = sv->Ok_0.0;
        items.push(v);
        proof {
            acc = acc.push(m);
        }
        let q2 = ws(b, q);
        if q2 >= b.len() {
            return Err(mk_err(ParseErrorKind::UnexpectedEof, q2));
        }
        if b[q2] == 0x2C {
            pos = ws(b, q2 + 1);
        } else if b[q2] == 0x5D {
            let slice = alloc_slice_copy(arena, items.as_slice());
            proof {
                assert(dv_is(DataValue::Array(slice), SVal::Arr(acc)));
            }
            return Ok((DataValue::Array(slice), q2 + 1));
        } else {
            return Err(mk_err(ParseErrorKind::UnexpectedByte(b[q2]), q2 + 1));
        }
    }
}

#[verifier::rlimit(30)]
#[verifier::spinoff_prover]
fn parse_object<'a, F: Fn(&[u8]) -> Option<u64>>(
    input: &'a str,
    b: &'a [u8],
    arena: &'a bumpalo::Bump,
    conv: &F,
    p: usize,
    depth: u16,
) -> (r: Result<(DataValue<'a>, usize), ParseError>)
    requires
        parser_input_ok(input, b, conv),
        p < b.len(),
        b[p as int] == 0x7B,
        depth <= MAX_DEPTH,
    ensures
        value_result_is(r, spec_object(b@, p as int, depth as int, float_fn(*conv))),
        r matches Ok((_, q)) ==> p < q <= b.len(),
    decreases b.len() - p, 1int,
{
    let ghost fl = float_fn(*conv);
    let q = ws(b, p + 1);
    let mut pairs: Vec<(&'a str, DataValue<'a>)> = Vec::new();
    if q < b.len() && b[q] == 0x7D {
        let slice = alloc_slice_copy(arena, pairs.as_slice());
        assert(slice@ =~= Seq::<(&'a str, DataValue<'a>)>::empty());
        return Ok((DataValue::Object(slice), q + 1));
    }
    let ghost mut acc: Seq<(Seq<u8>, SVal)> = Seq::empty();
    let mut pos = q;
    loop
        invariant
            parser_input_ok(input, b, conv),
            fl == float_fn(*conv),
            p < pos <= b.len(),
            depth <= MAX_DEPTH,
            pairs@.len() == acc.len(),
            forall|i: int|
                0 <= i < acc.len() ==> (#[trigger] pairs@[i]).0.spec_bytes() == acc[i].0 && dv_is(
                    pairs@[i].1,
                    acc[i].1,
                ),
            spec_object(b@, p as int, depth as int, fl) == spec_members(
                b@,
                pos as int,
                depth as int,
                fl,
                acc,
            ),
        decreases b.len() - pos,
    {
        if pos >= b.len() {
            return Err(mk_err(ParseErrorKind::UnexpectedEof, pos));
        }
        if b[pos] != 0x22 {
            return Err(mk_err(ParseErrorKind::UnexpectedByte(b[pos]), pos));
        }
        let (key, q) = match parse_string(input, b, arena, pos) {
            Ok(x) => x,
            Err(e) => return Err(e),
        };
        let q2 = ws(b, q);
        if q2 >= b.len() {
            return Err(mk_err(ParseErrorKind::UnexpectedEof, q2));
        }
        if b[q2] != 0x3A {
            return Err(mk_err(ParseErrorKind::UnexpectedByte(b[q2]), q2 + 1));
        }
        let ghost sv = spec_value(b@, q2 + 1, depth + 1, fl);
        let (v, r) = match parse_value(input, b, arena, conv, q2 + 1, depth + 1) {
            Ok(x) => x,
            Err(e) => return Err(e),
        };
        let ghost m = sv->Ok_0.0;
        pairs.push((key, v));
        proof {
            acc = acc.push((key.spec_bytes(), m));
        }
        let r2 = ws(b, r);
        if r2 >= b.len() {
            return Err(mk_err(ParseErrorKind::UnexpectedEof, r2));
        }
        if b[r2] == 0x2C {
            pos = ws(b, r2 + 1);
        } else if b[r2] == 0x7D {
            let slice = alloc_slice_copy(arena, pairs.as_slice());
            proof {
                assert(dv_is(DataValue::Object(slice), SVal::Obj(acc)));
            }
            return Ok((DataValue::Object(slice), r2 + 1));
        } else {
            return Err(mk_err(ParseErrorKind::UnexpectedByte(b[r2]), r2 + 1));
        }
    }
}

impl<'a> DataValue<'a> {
    /// Parses a JSON document into a tree allocated in `arena`.
    ///
    /// Strings without escapes are borrowed from `input`; others are unescaped
    /// into the arena. Integer literals (no fraction, no exponent) whose
    /// value fits in an `i64` become `Integer`s; every other number literal
    /// is handed, as its bytes, to `float_bits`, whose answer is the `Float`'s bit pattern (`None`
    /// rejects the literal with `InvalidNumber`).
    pub fn from_str<F: Fn(&[u8]) -> Option<u64>>(
        input: &'a str,
        arena: &'a bumpalo::Bump,
        float_bits: &F,
    ) -> (r: Result<DataValue<'a>, ParseError>)
        requires
            float_parser_ok(*float_bits),
        ensures
            match spec_parse_document(input.spec_bytes(), float_fn(*float_bits)) {
                Ok(m) => r matches Ok(v) && dv_is(v, m),
                Err(e) => r == Err::<DataValue<'a>, ParseError>(e),
            },
    {
        let b = input.as_bytes();
        proof {
            vstd::utf8::encode_utf8_valid_utf8(input@);
        }
        let p = ws(b, 0);
        let (v, q) = match parse_value(input, b, arena, float_bits, p, 0) {
            Ok(x) => x,
            Err(e) => return Err(e),
        };
        let q2 = ws(b, q);
        if q2 != b.len() {
            return Err(mk_err(ParseErrorKind::TrailingData, q2));
        }
        Ok(v)
    }
}

} // verus!
