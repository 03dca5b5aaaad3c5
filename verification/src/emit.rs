//! The JSON emitter: compact and two-space-indented text for a value,
//! appended to a byte buffer.
//!
//! `spec_emit` and `spec_pretty` state the text for every model value; the
//! writers below are proved to append exactly that.

use vstd::prelude::*;
use vstd::string::StringSliceAdditionalSpecFns;
use vstd::utf8::valid_utf8;

use crate::datetime::{duration_text, iso_text, DataDateTime, DataDuration};
use crate::model::SVal;
use crate::parser::is_string_special;
use crate::simd::swar::{first_special_in_word, load_word, no_special_in_word, word_byte};
use crate::text::{lemma_ascii_valid, lemma_split_at_ascii};
use crate::value::{dv_finite, dv_is, dv_view, lemma_dv_view, DataValue};
use crate::number::NumberValue;
use crate::owned::OwnedDataValue;

verus! {

// ---------------------------------------------------------------------------
// The text, stated over model values.
// ---------------------------------------------------------------------------

pub open spec fn hex_lower(n: int) -> u8 {
    if n < 10 {
        (0x30 + n) as u8
    } else {
        (0x61 + n - 10) as u8
    }
}

/// How one byte of string content is written inside quotes.
pub open spec fn escape_byte(c: u8) -> Seq<u8> {
    if c == 0x22 {
        seq![0x5Cu8, 0x22u8]
    } else if c == 0x5C {
        seq![0x5Cu8, 0x5Cu8]
    } else if c == 0x0A {
        seq![0x5Cu8, 0x6Eu8]
    } else if c == 0x0D {
        seq![0x5Cu8, 0x72u8]
    } else if c == 0x09 {
        seq![0x5Cu8, 0x74u8]
    } else if c == 0x08 {
        seq![0x5Cu8, 0x62u8]
    } else if c == 0x0C {
        seq![0x5Cu8, 0x66u8]
    } else if c < 0x20 {
        seq![0x5Cu8, 0x75u8, 0x30u8, 0x30u8, hex_lower((c / 16) as int), hex_lower((c % 16) as int)]
    } else {
        seq![c]
    }
}

pub open spec fn escape_bytes(s: Seq<u8>) -> Seq<u8>
    decreases s.len(),
{
    if s.len() == 0 {
        Seq::empty()
    } else {
        escape_bytes(s.drop_last()) + escape_byte(s.last())
    }
}

/// A JSON string literal holding the bytes `s`.
pub open spec fn quoted(s: Seq<u8>) -> Seq<u8> {
    seq![0x22u8] + escape_bytes(s) + seq![0x22u8]
}

/// Decimal digits of `n`.
pub open spec fn nat_text(n: nat) -> Seq<u8>
    decreases n,
{
    if n < 10 {
        seq![(0x30 + n) as u8]
    } else {
        nat_text(n / 10) + seq![(0x30 + n % 10) as u8]
    }
}

/// Decimal text of `i`, with a leading `-` when negative.
pub open spec fn int_text(i: int) -> Seq<u8> {
    if i < 0 {
        seq![0x2Du8] + nat_text((-i) as nat)
    } else {
        nat_text(i as nat)
    }
}

/// The binary64 value with bit pattern `bits` is an infinity or a NaN: all
/// of its exponent bits are set.
pub open spec fn non_finite_bits(bits: u64) -> bool {
    (bits >> 52u64) & 0x7ff == 0x7ff
}

/// The text of a number: the decimal digits of an integer; `null` for an
/// infinite or NaN float, which JSON cannot write; otherwise what `ft`
/// writes for the float.
pub open spec fn number_text(n: NumberValue, ft: spec_fn(u64) -> Seq<u8>) -> Seq<u8> {
    match n {
        NumberValue::Integer(i) => int_text(i as int),
        NumberValue::Float(bits) => if non_finite_bits(bits) {
            text_null()
        } else {
            ft(bits)
        },
    }
}

pub open spec fn text_null() -> Seq<u8> {
    seq![0x6Eu8, 0x75u8, 0x6Cu8, 0x6Cu8]
}

pub open spec fn text_true() -> Seq<u8> {
    seq![0x74u8, 0x72u8, 0x75u8, 0x65u8]
}

pub open spec fn text_false() -> Seq<u8> {
    seq![0x66u8, 0x61u8, 0x6Cu8, 0x73u8, 0x65u8]
}

/// Compact JSON text of a value: no whitespace, members in order. Floats are
/// written as `ft` says.
pub open spec fn spec_emit(m: SVal, ft: spec_fn(u64) -> Seq<u8>) -> Seq<u8>
    decreases m,
{
    match m {
        SVal::Null => text_null(),
        SVal::Bool(b) => if b {
            text_true()
        } else {
            text_false()
        },
        SVal::Number(n) => number_text(n, ft),
        SVal::Str(s) => quoted(s),
        SVal::Arr(items) => seq![0x5Bu8] + spec_emit_items(items, ft) + seq![0x5Du8],
        SVal::Obj(pairs) => seq![0x7Bu8] + spec_emit_pairs(pairs, ft) + seq![0x7Du8],
        SVal::DateTime(d) => quoted(iso_text(d.instant().0, d.instant().1)),
        SVal::Duration(d) => quoted(duration_text(d@)),
    }
}

pub open spec fn spec_emit_items(items: Seq<SVal>, ft: spec_fn(u64) -> Seq<u8>) -> Seq<u8>
    decreases items,
{
    if items.len() == 0 {
        Seq::empty()
    } else {
        spec_emit_items(items.drop_last(), ft) + (if items.len() > 1 {
            seq![0x2Cu8]
        } else {
            Seq::empty()
        }) + spec_emit(items.last(), ft)
    }
}

pub open spec fn spec_emit_pairs(pairs: Seq<(Seq<u8>, SVal)>, ft: spec_fn(u64) -> Seq<u8>) -> Seq<u8>
    decreases pairs,
{
    if pairs.len() == 0 {
        Seq::empty()
    } else {
        spec_emit_pairs(pairs.drop_last(), ft) + (if pairs.len() > 1 {
            seq![0x2Cu8]
        } else {
            Seq::empty()
        }) + quoted(pairs.last().0) + seq![0x3Au8] + spec_emit(pairs.last().1, ft)
    }
}

/// `2 * depth` spaces.
pub open spec fn indent(depth: nat) -> Seq<u8> {
    Seq::new(2 * depth, |i: int| 0x20u8)
}

/// Indented JSON text of a value at nesting level `depth`: every item and
/// member on a line of its own, two spaces per level, `": "` after keys,
/// empty arrays and objects as `[]` and `{}`.
pub open spec fn spec_pretty(m: SVal, depth: nat, ft: spec_fn(u64) -> Seq<u8>) -> Seq<u8>
    decreases m,
{
    match m {
        SVal::Arr(items) => if items.len() == 0 {
            seq![0x5Bu8, 0x5Du8]
        } else {
            seq![0x5Bu8] + spec_pretty_items(items, depth, ft) + seq![0x0Au8] + indent(depth)
                + seq![0x5Du8]
        },
        SVal::Obj(pairs) => if pairs.len() == 0 {
            seq![0x7Bu8, 0x7Du8]
        } else {
            seq![0x7Bu8] + spec_pretty_pairs(pairs, depth, ft) + seq![0x0Au8] + indent(depth)
                + seq![0x7Du8]
        },
        _ => spec_emit(m, ft),
    }
}

pub open spec fn spec_pretty_items(items: Seq<SVal>, depth: nat, ft: spec_fn(u64) -> Seq<u8>) -> Seq<u8>
    decreases items,
{
    if items.len() == 0 {
        Seq::empty()
    } else {
        spec_pretty_items(items.drop_last(), depth, ft) + (if items.len() > 1 {
            seq![0x2Cu8]
        } else {
            Seq::empty()
        }) + seq![0x0Au8] + indent(depth + 1) + spec_pretty(items.last(), depth + 1, ft)
    }
}

pub open spec fn spec_pretty_pairs(
    pairs: Seq<(Seq<u8>, SVal)>,
    depth: nat,
    ft: spec_fn(u64) -> Seq<u8>,
) -> Seq<u8>
    decreases pairs,
{
    if pairs.len() == 0 {
        Seq::empty()
    } else {
        spec_pretty_pairs(pairs.drop_last(), depth, ft) + (if pairs.len() > 1 {
            seq![0x2Cu8]
        } else {
            Seq::empty()
        }) + seq![0x0Au8] + indent(depth + 1) + quoted(pairs.last().0) + seq![0x3Au8, 0x20u8]
            + spec_pretty(pairs.last().1, depth + 1, ft)
    }
}

// ---------------------------------------------------------------------------
// The float text that the caller supplies.
// ---------------------------------------------------------------------------

/// `f` may be called on any bit pattern, answers the same for the same bits,
/// and answers UTF-8 text.
pub open spec fn float_writer_ok<F: Fn(u64) -> Vec<u8>>(f: F) -> bool {
    &&& forall|bits: u64| #[trigger] call_requires(f, (bits,))
    &&& forall|bits: u64, r1: Vec<u8>, r2: Vec<u8>|
        #[trigger] call_ensures(f, (bits,), r1) && #[trigger] call_ensures(f, (bits,), r2) ==> r1@
            == r2@
    &&& forall|bits: u64, r: Vec<u8>| #[trigger] call_ensures(f, (bits,), r) ==> valid_utf8(r@)
}

/// The text `f` answers for `bits`.
pub open spec fn float_text_of<F: Fn(u64) -> Vec<u8>>(f: F, bits: u64) -> Seq<u8> {
    let r = choose|r: Vec<u8>| #[trigger] call_ensures(f, (bits,), r);
    if valid_utf8(r@) {
        r@
    } else {
        Seq::empty()
    }
}

pub open spec fn float_text_fn<F: Fn(u64) -> Vec<u8>>(f: F) -> spec_fn(u64) -> Seq<u8> {
    |bits: u64| float_text_of(f, bits)
}

fn call_float_text<F: Fn(u64) -> Vec<u8>>(f: &F, bits: u64) -> (r: Vec<u8>)
    requires
        float_writer_ok(*f),
    ensures
        r@ == float_text_of(*f, bits),
        valid_utf8(r@),
{
    let r = (*f)(bits);
    proof {
        let r2 = choose|r2: Vec<u8>| #[trigger] call_ensures(*f, (bits,), r2);
        assert(call_ensures(*f, (bits,), r2));
    }
    r
}

/// Calls `itoa::Buffer::format` on `i`, which writes the decimal digits of
/// `i` after a `-` when it is negative; the contract claims exactly that
/// text.
#[verifier::external_body]
pub(crate) fn itoa_text(i: i64) -> (r: Vec<u8>)
    ensures
        r@ == int_text(i as int),
{
    let mut buf = itoa::Buffer::new();
    buf.format(i).as_bytes().to_vec()
}

// ---------------------------------------------------------------------------
// The writers.
// ---------------------------------------------------------------------------

pub(crate) fn append_bytes(out: &mut Vec<u8>, bytes: &[u8])
    ensures
        final(out)@ == old(out)@ + bytes@,
{
    out.extend_from_slice(bytes);
    assert(out@ =~= old(out)@ + bytes@);
}

fn hex_lower_byte(n: u8) -> (r: u8)
    requires
        n < 16,
    ensures
        r == hex_lower(n as int),
{
    if n < 10 {
        0x30 + n
    } else {
        0x61 + n - 10
    }
}

fn write_escape_byte(out: &mut Vec<u8>, c: u8)
    ensures
        final(out)@ == old(out)@ + escape_byte(c),
{
    let ghost pre = out@;
    if c == 0x22 {
        out.push(0x5C);
        out.push(0x22);
    } else if c == 0x5C {
        out.push(0x5C);
        out.push(0x5C);
    } else if c == 0x0A {
        out.push(0x5C);
        out.push(0x6E);
    } else if c == 0x0D {
        out.push(0x5C);
        out.push(0x72);
    } else if c == 0x09 {
        out.push(0x5C);
        out.push(0x74);
    } else if c == 0x08 {
        out.push(0x5C);
        out.push(0x62);
    } else if c == 0x0C {
        out.push(0x5C);
        out.push(0x66);
    } else if c < 0x20 {
        out.push(0x5C);
        out.push(0x75);
        out.push(0x30);
        out.push(0x30);
        out.push(hex_lower_byte(c / 16));
        out.push(hex_lower_byte(c % 16));
    } else {
        out.push(c);
    }
    assert(out@ =~= pre + escape_byte(c));
}

/// Marks, in the top bit of each byte, the bytes of `w` that need escaping
/// inside a JSON string (`"`, `\\` or below 0x20), exactly up to the first
/// of them; bytes are read little-endian.
fn escape_mask(w: u64) -> (m: u64)
    ensures
        m == crate::simd::swar::swar_mask(w),
        m == 0 <==> no_special_in_word(w),
        m != 0 ==> first_special_in_word(w, (m.trailing_zeros() / 8) as u64),
{
    crate::simd::swar::mask(w)
}

/// Escaping the text before a run of plain bytes and then the run is
/// escaping the whole.
proof fn lemma_escape_run(s: Seq<u8>, a: int, b: int)
    requires
        0 <= a <= b <= s.len(),
        forall|j: int| a <= j < b ==> !is_string_special(#[trigger] s[j]),
    ensures
        escape_bytes(s.take(a)) + s.subrange(a, b) == escape_bytes(s.take(b)),
{
    let run = s.subrange(a, b);
    assert forall|i: int| 0 <= i < run.len() implies !(#[trigger] run[i] == 0x22 || run[i] == 0x5C
        || run[i] < 0x20) by {
        assert(run[i] == s[a + i]);
    }
    lemma_escape_plain(run);
    lemma_escape_append(s.take(a), run);
    assert(s.take(a) + run =~= s.take(b));
}

/// Escaping the text up to `i` and then the byte at `i`.
proof fn lemma_escape_next(s: Seq<u8>, i: int)
    requires
        0 <= i < s.len(),
    ensures
        escape_bytes(s.take(i)) + escape_byte(s[i]) == escape_bytes(s.take(i + 1)),
{
    assert(s.take(i + 1).drop_last() =~= s.take(i));
}

/// Appends `s` as a JSON string literal: runs of bytes that need no escape
/// are copied whole, found eight bytes at a time and then byte by byte.
#[verifier::rlimit(30)]
#[verifier::spinoff_prover]
fn write_escaped_str(out: &mut Vec<u8>, s: &str)
    ensures
        final(out)@ == old(out)@ + quoted(s.spec_bytes()),
{
    let bytes = s.as_bytes();
    out.push(0x22);
    let ghost head = old(out)@ + seq![0x22u8];
    let mut i: usize = 0;
    let mut run_start: usize = 0;
    while bytes.len() - i >= 8
        invariant
            run_start <= i <= bytes.len(),
            bytes@ == s.spec_bytes(),
            head == old(out)@ + seq![0x22u8],
            out@ == head + escape_bytes(bytes@.take(run_start as int)),
            forall|j: int| run_start <= j < i ==> !is_string_special(#[trigger] bytes@[j]),
        decreases bytes.len() - i,
    {
        let w = load_word(bytes, i);
        let m = escape_mask(w);
        if m == 0 {
            proof {
                assert forall|j: int| run_start <= j < i + 8 implies !is_string_special(
                    #[trigger] bytes@[j],
                ) by {
                    if j >= i {
                        assert(word_byte(w, (j - i) as u64) == bytes@[j]);
                    }
                }
            }
            i += 8;
            continue;
        }
        let off = (m.trailing_zeros() / 8) as usize;
        let hit = i + off;
        proof {
            assert forall|j: int| run_start <= j < hit implies !is_string_special(
                #[trigger] bytes@[j],
            ) by {
                if j >= i {
                    assert(word_byte(w, (j - i) as u64) == bytes@[j]);
                }
            }
            lemma_escape_run(bytes@, run_start as int, hit as int);
            lemma_escape_next(bytes@, hit as int);
        }
        if hit > run_start {
            append_bytes(out, vstd::slice::slice_subrange(bytes, run_start, hit));
        }
        write_escape_byte(out, bytes[hit]);
        i = hit + 1;
        run_start = i;
    }
    // The last bytes, fewer than eight, one at a time.
    while i < bytes.len()
        invariant
            run_start <= i <= bytes.len(),
            bytes@ == s.spec_bytes(),
            head == old(out)@ + seq![0x22u8],
            out@ == head + escape_bytes(bytes@.take(run_start as int)),
            forall|j: int| run_start <= j < i ==> !is_string_special(#[trigger] bytes@[j]),
        decreases bytes.len() - i,
    {
        let b = bytes[i];
        if b == 0x22 || b == 0x5C || b < 0x20 {
            proof {
                lemma_escape_run(bytes@, run_start as int, i as int);
                lemma_escape_next(bytes@, i as int);
            }
            if i > run_start {
                append_bytes(out, vstd::slice::slice_subrange(bytes, run_start, i));
            }
            write_escape_byte(out, b);
            run_start = i + 1;
        }
        i += 1;
    }
    proof {
        lemma_escape_run(bytes@, run_start as int, bytes.len() as int);
        assert(bytes@.take(bytes.len() as int) =~= bytes@);
    }
    if run_start < bytes.len() {
        append_bytes(out, vstd::slice::slice_subrange(bytes, run_start, bytes.len()));
    }
    out.push(0x22);
    assert(out@ =~= old(out)@ + quoted(s.spec_bytes()));
}

fn write_number<F: Fn(u64) -> Vec<u8>>(out: &mut Vec<u8>, n: NumberValue, float_text: &F)
    requires
        float_writer_ok(*float_text),
    ensures
        final(out)@ == old(out)@ + number_text(n, float_text_fn(*float_text)),
{
    match n {
        NumberValue::Integer(i) => {
            let t = itoa_text(i);
            append_bytes(out, t.as_slice());
        },
        NumberValue::Float(bits) => {
            if (bits >> 52u64) & 0x7ff == 0x7ff {
                // JSON has no text for infinities and NaN.
                write_lit(out, 0);
            } else {
                let t = call_float_text(float_text, bits);
                append_bytes(out, t.as_slice());
            }
        },
    }
}

fn write_lit(out: &mut Vec<u8>, which: u8)
    ensures
        which == 0 ==> final(out)@ == old(out)@ + text_null(),
        which == 1 ==> final(out)@ == old(out)@ + text_true(),
        which >= 2 ==> final(out)@ == old(out)@ + text_false(),
{
    let ghost pre = out@;
    if which == 0 {
        out.push(0x6E);
        out.push(0x75);
        out.push(0x6C);
        out.push(0x6C);
        assert(out@ =~= pre + text_null());
    } else if which == 1 {
        out.push(0x74);
        out.push(0x72);
        out.push(0x75);
        out.push(0x65);
        assert(out@ =~= pre + text_true());
    } else {
        out.push(0x66);
        out.push(0x61);
        out.push(0x6C);
        out.push(0x73);
        out.push(0x65);
        assert(out@ =~= pre + text_false());
    }
}

/// Appends `2 * depth` spaces.
pub fn write_indent(out: &mut Vec<u8>, depth: usize)
    ensures
        final(out)@ == old(out)@ + indent(depth as nat),
{
    let mut i: usize = 0;
    while i < depth
        invariant
            i <= depth,
            out@ == old(out)@ + indent(i as nat),
        decreases depth - i,
    {
        out.push(0x20);
        out.push(0x20);
        assert(out@ =~= old(out)@ + indent((i + 1) as nat));
        i += 1;
    }
}

/// Appends an instant as its quoted ISO 8601 text.
fn write_datetime(out: &mut Vec<u8>, d: &DataDateTime)
    ensures
        final(out)@ == old(out)@ + quoted(iso_text(d.instant().0, d.instant().1)),
{
    let t = d.to_iso_string();
    write_escaped_str(out, t.as_str());
}

/// Appends a duration as its quoted `"{d}d:{h}h:{m}m:{s}s"` text.
fn write_duration(out: &mut Vec<u8>, d: &DataDuration)
    ensures
        final(out)@ == old(out)@ + quoted(duration_text(d@)),
{
    let t = d.to_string();
    write_escaped_str(out, t.as_str());
}

#[verifier::rlimit(30)]
#[verifier::spinoff_prover]
fn write_data_value<'a, F: Fn(u64) -> Vec<u8>>(
    out: &mut Vec<u8>,
    v: &DataValue<'a>,
    Ghost(m): Ghost<SVal>,
    float_text: &F,
)
    requires
        dv_is(*v, m),
        float_writer_ok(*float_text),
    ensures
        final(out)@ == old(out)@ + spec_emit(m, float_text_fn(*float_text)),
    decreases m,
{
    let ghost ft = float_text_fn(*float_text);
    match *v {
        DataValue::Null => write_lit(out, 0),
        DataValue::Bool(b) => {
            if b {
                write_lit(out, 1)
            } else {
                write_lit(out, 2)
            }
        },
        DataValue::Number(n) => write_number(out, n, float_text),
        DataValue::String(s) => write_escaped_str(out, s),
        DataValue::DateTime(d) => write_datetime(out, &d),
        DataValue::Duration(d) => write_duration(out, &d),
        DataValue::Array(items) => {
            let ghost ms = m->Arr_0;
            let ghost pre = out@;
            out.push(0x5B);
            let mut i: usize = 0;
            while i < items.len()
                invariant
                    i <= items.len(),
                    m == SVal::Arr(ms),
                    dv_is(*v, m),
                    *v == DataValue::Array(items),
                    items@.len() == ms.len(),
                    forall|k: int| 0 <= k < ms.len() ==> dv_is(#[trigger] items@[k], ms[k]),
                    float_writer_ok(*float_text),
                    ft == float_text_fn(*float_text),
                    out@ == pre + seq![0x5Bu8] + spec_emit_items(ms.take(i as int), ft),
                decreases items.len() - i,
            {
                let ghost before = out@;
                if i > 0 {
                    out.push(0x2C);
                }
                proof {
                    assert(decreases_to!(m => ms));
                    assert(decreases_to!(ms => ms[i as int]));
                }
                write_data_value(out, &items[i], Ghost(ms[i as int]), float_text);
                proof {
                    assert(ms.take(i + 1).drop_last() =~= ms.take(i as int));
                    assert(ms.take(i + 1).last() == ms[i as int]);
                }
                assert(out@ =~= pre + seq![0x5Bu8] + spec_emit_items(ms.take(i + 1), ft));
                i += 1;
            }
            out.push(0x5D);
            assert(ms.take(i as int) =~= ms);
            assert(out@ =~= pre + spec_emit(m, ft));
        },
        DataValue::Object(pairs) => {
            let ghost ps = m->Obj_0;
            let ghost pre = out@;
            out.push(0x7B);
            let mut i: usize = 0;
            while i < pairs.len()
                invariant
                    i <= pairs.len(),
                    m == SVal::Obj(ps),
                    *v == DataValue::Object(pairs),
                    pairs@.len() == ps.len(),
                    forall|k: int|
                        0 <= k < ps.len() ==> (#[trigger] pairs@[k]).0.spec_bytes() == ps[k].0
                            && dv_is(pairs@[k].1, ps[k].1),
                    float_writer_ok(*float_text),
                    ft == float_text_fn(*float_text),
                    out@ == pre + seq![0x7Bu8] + spec_emit_pairs(ps.take(i as int), ft),
                decreases pairs.len() - i,
            {
                if i > 0 {
                    out.push(0x2C);
                }
                let (k, val) = pairs[i];
                assert(pairs@[i as int] == (k, val));
                write_escaped_str(out, k);
                out.push(0x3A);
                proof {
                    assert(decreases_to!(m => m->Obj_0));
                    assert(decreases_to!(ps => ps[i as int]));
                    assert(decreases_to!(ps[i as int] => ps[i as int].1));
                }
                write_data_value(out, &val, Ghost(ps[i as int].1), float_text);
                proof {
                    assert(ps.take(i + 1).drop_last() =~= ps.take(i as int));
                    assert(ps.take(i + 1).last() == ps[i as int]);
                }
                assert(out@ =~= pre + seq![0x7Bu8] + spec_emit_pairs(ps.take(i + 1), ft));
                i += 1;
            }
            out.push(0x7D);
            assert(ps.take(i as int) =~= ps);
            assert(out@ =~= pre + spec_emit(m, ft));
        },
    }
}

#[verifier::rlimit(30)]
#[verifier::spinoff_prover]
fn write_data_value_pretty<'a, F: Fn(u64) -> Vec<u8>>(
    out: &mut Vec<u8>,
    v: &DataValue<'a>,
    Ghost(m): Ghost<SVal>,
    depth: usize,
    float_text: &F,
)
    requires
        dv_is(*v, m),
        float_writer_ok(*float_text),
        depth <= old(out)@.len(),
    ensures
        final(out)@ == old(out)@ + spec_pretty(m, depth as nat, float_text_fn(*float_text)),
    decreases m,
{
    let ghost ft = float_text_fn(*float_text);
    match *v {
        DataValue::Array(items) => {
            let ghost ms = m->Arr_0;
            let ghost pre = out@;
            if items.len() == 0 {
                out.push(0x5B);
                out.push(0x5D);
                assert(out@ =~= pre + spec_pretty(m, depth as nat, ft));
                return;
            }
            out.push(0x5B);
            let mut i: usize = 0;
            while i < items.len()
                invariant
                    i <= items.len(),
                    m == SVal::Arr(ms),
                    *v == DataValue::Array(items),
                    items@.len() == ms.len(),
                    forall|k: int| 0 <= k < ms.len() ==> dv_is(#[trigger] items@[k], ms[k]),
                    float_writer_ok(*float_text),
                    ft == float_text_fn(*float_text),
                    depth < out@.len(),
                    out@ == pre + seq![0x5Bu8] + spec_pretty_items(ms.take(i as int), depth as nat, ft),
                decreases items.len() - i,
            {
                if i > 0 {
                    out.push(0x2C);
                }
                out.push(0x0A);
                let _ = out.len();
                write_indent(out, depth + 1);
                let ghost before = out@;
                let _ = out.len();
                proof {
                    assert(decreases_to!(m => m->Arr_0));
                    assert(decreases_to!(ms => ms[i as int]));
                }
                write_data_value_pretty(out, &items[i], Ghost(ms[i as int]), depth + 1, float_text);
                proof {
                    assert(ms.take(i + 1).drop_last() =~= ms.take(i as int));
                    assert(ms.take(i + 1).last() == ms[i as int]);
                }
                assert(out@ =~= pre + seq![0x5Bu8] + spec_pretty_items(ms.take(i + 1), depth as nat, ft));
                i += 1;
            }
            out.push(0x0A);
            write_indent(out, depth);
            out.push(0x5D);
            assert(ms.take(i as int) =~= ms);
            assert(out@ =~= pre + spec_pretty(m, depth as nat, ft));
        },
        DataValue::Object(pairs) => {
            let ghost ps = m->Obj_0;
            let ghost pre = out@;
            if pairs.len() == 0 {
                out.push(0x7B);
                out.push(0x7D);
                assert(out@ =~= pre + spec_pretty(m, depth as nat, ft));
                return;
            }
            out.push(0x7B);
            let mut i: usize = 0;
            while i < pairs.len()
                invariant
                    i <= pairs.len(),
                    m == SVal::Obj(ps),
                    *v == DataValue::Object(pairs),
                    pairs@.len() == ps.len(),
                    forall|k: int|
                        0 <= k < ps.len() ==> (#[trigger] pairs@[k]).0.spec_bytes() == ps[k].0
                            && dv_is(pairs@[k].1, ps[k].1),
                    float_writer_ok(*float_text),
                    ft == float_text_fn(*float_text),
                    depth < out@.len(),
                    out@ == pre + seq![0x7Bu8] + spec_pretty_pairs(ps.take(i as int), depth as nat, ft),
                decreases pairs.len() - i,
            {
                if i > 0 {
                    out.push(0x2C);
                }
                out.push(0x0A);
                let _ = out.len();
                write_indent(out, depth + 1);
                let (k, val) = pairs[i];
                assert(pairs@[i as int] == (k, val));
                write_escaped_str(out, k);
                out.push(0x3A);
                out.push(0x20);
                let _ = out.len();
                proof {
                    assert(decreases_to!(m => m->Obj_0));
                    assert(decreases_to!(ps => ps[i as int]));
                    assert(decreases_to!(ps[i as int] => ps[i as int].1));
                }
                write_data_value_pretty(out, &val, Ghost(ps[i as int].1), depth + 1, float_text);
                proof {
                    assert(ps.take(i + 1).drop_last() =~= ps.take(i as int));
                    assert(ps.take(i + 1).last() == ps[i as int]);
                }
                assert(out@ =~= pre + seq![0x7Bu8] + spec_pretty_pairs(ps.take(i + 1), depth as nat, ft));
                i += 1;
            }
            out.push(0x0A);
            write_indent(out, depth);
            out.push(0x7D);
            assert(ps.take(i as int) =~= ps);
            assert(out@ =~= pre + spec_pretty(m, depth as nat, ft));
        },
        _ => {
            write_data_value(out, v, Ghost(m), float_text);
        },
    }
}

/// A value to be written as indented JSON; see [`DataValue::pretty`].
pub struct Pretty<'b, T> {
    value: &'b T,
}

impl<'b, T> Pretty<'b, T> {
    pub closed spec fn inner(&self) -> T {
        *self.value
    }
}

impl<'a> DataValue<'a> {
    /// Appends the compact JSON text of this value to `out`.
    pub fn write_json_into<F: Fn(u64) -> Vec<u8>>(&self, out: &mut Vec<u8>, float_text: &F)
        requires
            dv_finite(*self),
            float_writer_ok(*float_text),
        ensures
            final(out)@ == old(out)@ + spec_emit(dv_view(*self), float_text_fn(*float_text)),
    {
        let ghost m = dv_view(*self);
        proof {
            lemma_dv_view(*self, choose|m: SVal| dv_is(*self, m));
        }
        write_data_value(out, self, Ghost(m), float_text);
    }

    /// Appends the indented JSON text of this value to `out`.
    pub fn write_json_pretty_into<F: Fn(u64) -> Vec<u8>>(&self, out: &mut Vec<u8>, float_text: &F)
        requires
            dv_finite(*self),
            float_writer_ok(*float_text),
        ensures
            final(out)@ == old(out)@ + spec_pretty(dv_view(*self), 0, float_text_fn(*float_text)),
    {
        let ghost m = dv_view(*self);
        proof {
            lemma_dv_view(*self, choose|m: SVal| dv_is(*self, m));
        }
        write_data_value_pretty(out, self, Ghost(m), 0, float_text);
    }

    /// A wrapper whose text is the indented JSON of this value.
    pub fn pretty(&self) -> (r: Pretty<'_, DataValue<'a>>)
        ensures
            r.inner() == *self,
    {
        Pretty { value: self }
    }
}

// ---------------------------------------------------------------------------
// The text is UTF-8 whenever the strings in the value are.
// ---------------------------------------------------------------------------

/// Every string and key in `m` is valid UTF-8.
pub open spec fn sval_utf8(m: SVal) -> bool
    decreases m,
{
    match m {
        SVal::Str(s) => valid_utf8(s),
        SVal::Arr(items) => forall|i: int| 0 <= i < items.len() ==> sval_utf8(#[trigger] items[i]),
        SVal::Obj(pairs) => forall|i: int|
            0 <= i < pairs.len() ==> valid_utf8((#[trigger] pairs[i]).0) && sval_utf8(pairs[i].1),
        _ => true,
    }
}

pub proof fn lemma_dv_utf8(v: DataValue, m: SVal)
    requires
        dv_is(v, m),
    ensures
        sval_utf8(m),
    decreases m,
{
    match m {
        SVal::Str(s) => {
            vstd::utf8::encode_utf8_valid_utf8(v->String_0@);
        },
        SVal::Arr(items) => {
            assert forall|i: int| 0 <= i < items.len() implies sval_utf8(#[trigger] items[i]) by {
                lemma_dv_utf8(v->Array_0@[i], items[i]);
            }
        },
        SVal::Obj(pairs) => {
            assert forall|i: int| 0 <= i < pairs.len() implies valid_utf8((#[trigger] pairs[i]).0)
                && sval_utf8(pairs[i].1) by {
                vstd::utf8::encode_utf8_valid_utf8(v->Object_0@[i].0@);
                lemma_dv_utf8(v->Object_0@[i].1, pairs[i].1);
            }
        },
        _ => {},
    }
}

pub proof fn lemma_escape_append(a: Seq<u8>, b: Seq<u8>)
    ensures
        escape_bytes(a + b) == escape_bytes(a) + escape_bytes(b),
    decreases b.len(),
{
    if b.len() == 0 {
        assert(a + b =~= a);
        assert(escape_bytes(a) + escape_bytes(b) =~= escape_bytes(a));
    } else {
        lemma_escape_append(a, b.drop_last());
        assert((a + b).drop_last() =~= a + b.drop_last());
        assert((a + b).last() == b.last());
        assert(escape_bytes(a + b) =~= escape_bytes(a) + escape_bytes(b));
    }
}

proof fn lemma_escape_byte_ascii(c: u8)
    requires
        c == 0x22 || c == 0x5C || c < 0x20,
    ensures
        valid_utf8(escape_byte(c)),
{
    let e = escape_byte(c);
    assert forall|k: int| 0 <= k < e.len() implies #[trigger] e[k] < 0x80 by {}
    lemma_ascii_valid(e);
}

pub proof fn lemma_escape_valid(s: Seq<u8>)
    requires
        valid_utf8(s),
    ensures
        valid_utf8(escape_bytes(s)),
    decreases s.len(),
{
    if exists|i: int| 0 <= i < s.len() && (s[i] == 0x22 || s[i] == 0x5C || s[i] < 0x20) {
        let i = choose|i: int| 0 <= i < s.len() && (s[i] == 0x22 || s[i] == 0x5C || s[i] < 0x20);
        let a = s.subrange(0, i);
        let c = s[i];
        let b = s.subrange(i + 1, s.len() as int);
        lemma_split_at_ascii(s, i);
        lemma_escape_valid(a);
        lemma_escape_valid(b);
        assert(s =~= a + seq![c] + b);
        lemma_escape_append(a + seq![c], b);
        lemma_escape_append(a, seq![c]);
        assert(seq![c].drop_last() =~= Seq::<u8>::empty());
        reveal_with_fuel(escape_bytes, 2);
        assert(escape_bytes(seq![c]) =~= escape_byte(c));
        lemma_escape_byte_ascii(c);
        vstd::utf8::valid_utf8_concat(escape_bytes(a), escape_byte(c));
        vstd::utf8::valid_utf8_concat(escape_bytes(a) + escape_byte(c), escape_bytes(b));
    } else {
        lemma_escape_plain(s);
    }
}

pub proof fn lemma_escape_plain(s: Seq<u8>)
    requires
        forall|i: int| 0 <= i < s.len() ==> !(#[trigger] s[i] == 0x22 || s[i] == 0x5C || s[i] < 0x20),
    ensures
        escape_bytes(s) == s,
    decreases s.len(),
{
    if s.len() > 0 {
        lemma_escape_plain(s.drop_last());
        assert(!(s[s.len() - 1] == 0x22 || s[s.len() - 1] == 0x5C || s[s.len() - 1] < 0x20));
        assert(s.drop_last() + seq![s.last()] =~= s);
    }
}

proof fn lemma_quoted_valid(s: Seq<u8>)
    requires
        valid_utf8(s),
    ensures
        valid_utf8(quoted(s)),
{
    lemma_escape_valid(s);
    lemma_ascii_valid(seq![0x22u8]);
    vstd::utf8::valid_utf8_concat(seq![0x22u8], escape_bytes(s));
    vstd::utf8::valid_utf8_concat(seq![0x22u8] + escape_bytes(s), seq![0x22u8]);
}

proof fn lemma_nat_text_ascii(n: nat)
    ensures
        forall|k: int| 0 <= k < nat_text(n).len() ==> #[trigger] nat_text(n)[k] < 0x80,
    decreases n,
{
    if n >= 10 {
        lemma_nat_text_ascii(n / 10);
        let t = nat_text(n);
        let pre = nat_text(n / 10);
        assert forall|k: int| 0 <= k < t.len() implies #[trigger] t[k] < 0x80 by {
            if k < pre.len() {
                assert(t[k] == pre[k]);
            }
        }
    }
}

/// The decimal text of an integer is ASCII.
pub proof fn lemma_int_text_ascii(i: int)
    ensures
        forall|k: int| 0 <= k < int_text(i).len() ==> #[trigger] int_text(i)[k] < 0x80,
{
    let t = int_text(i);
    if i < 0 {
        lemma_nat_text_ascii((-i) as nat);
        assert forall|k: int| 0 <= k < t.len() implies #[trigger] t[k] < 0x80 by {
            if k > 0 {
                assert(t[k] == nat_text((-i) as nat)[k - 1]);
            }
        }
    } else {
        lemma_nat_text_ascii(i as nat);
    }
}

proof fn lemma_ascii_lit_valid(t: Seq<u8>)
    requires
        forall|k: int| 0 <= k < t.len() ==> #[trigger] t[k] < 0x80,
    ensures
        valid_utf8(t),
{
    lemma_ascii_valid(t);
}

proof fn lemma_scalar_text_valid(m: SVal, ft: spec_fn(u64) -> Seq<u8>)
    requires
        forall|bits: u64| valid_utf8(#[trigger] ft(bits)),
        sval_utf8(m),
        !(m is Arr),
        !(m is Obj),
    ensures
        valid_utf8(spec_emit(m, ft)),
{
    match m {
        SVal::Null => lemma_ascii_lit_valid(text_null()),
        SVal::Bool(b) => {
            lemma_ascii_lit_valid(text_true());
            lemma_ascii_lit_valid(text_false());
        },
        SVal::Number(n) => {
            match n {
                NumberValue::Integer(i) => {
                    let t = int_text(i as int);
                    if i < 0 {
                        lemma_nat_text_ascii((-i) as nat);
                    } else {
                        lemma_nat_text_ascii(i as nat);
                    }
                    assert forall|k: int| 0 <= k < t.len() implies #[trigger] t[k] < 0x80 by {
                        if i < 0 && k > 0 {
                            assert(t[k] == nat_text((-i) as nat)[k - 1]);
                        }
                    }
                    lemma_ascii_lit_valid(t);
                },
                NumberValue::Float(bits) => lemma_ascii_lit_valid(text_null()),
            }
        },
        SVal::Str(s) => lemma_quoted_valid(s),
        SVal::DateTime(d) => {
            crate::datetime::lemma_iso_text_valid(d.instant().0, d.instant().1);
            lemma_quoted_valid(iso_text(d.instant().0, d.instant().1));
        },
        SVal::Duration(d) => {
            crate::datetime::lemma_duration_text_valid(d@);
            lemma_quoted_valid(duration_text(d@));
        },
        _ => {},
    }
}

proof fn lemma_valid3(a: Seq<u8>, b: Seq<u8>, c: Seq<u8>)
    requires
        valid_utf8(a),
        valid_utf8(b),
        valid_utf8(c),
    ensures
        valid_utf8(a + b + c),
{
    vstd::utf8::valid_utf8_concat(a, b);
    vstd::utf8::valid_utf8_concat(a + b, c);
}

pub proof fn lemma_emit_valid(m: SVal, ft: spec_fn(u64) -> Seq<u8>)
    requires
        forall|bits: u64| valid_utf8(#[trigger] ft(bits)),
        sval_utf8(m),
    ensures
        valid_utf8(spec_emit(m, ft)),
    decreases m, 1nat,
{
    match m {
        SVal::Arr(items) => {
            lemma_emit_items_valid(items, ft);
            lemma_ascii_lit_valid(seq![0x5Bu8]);
            lemma_ascii_lit_valid(seq![0x5Du8]);
            lemma_valid3(seq![0x5Bu8], spec_emit_items(items, ft), seq![0x5Du8]);
        },
        SVal::Obj(pairs) => {
            lemma_emit_pairs_valid(pairs, ft);
            lemma_ascii_lit_valid(seq![0x7Bu8]);
            lemma_ascii_lit_valid(seq![0x7Du8]);
            lemma_valid3(seq![0x7Bu8], spec_emit_pairs(pairs, ft), seq![0x7Du8]);
        },
        _ => lemma_scalar_text_valid(m, ft),
    }
}

pub proof fn lemma_emit_items_valid(items: Seq<SVal>, ft: spec_fn(u64) -> Seq<u8>)
    requires
        forall|bits: u64| valid_utf8(#[trigger] ft(bits)),
        forall|i: int| 0 <= i < items.len() ==> sval_utf8(#[trigger] items[i]),
    ensures
        valid_utf8(spec_emit_items(items, ft)),
    decreases items, 0nat,
{
    if items.len() == 0 {
        lemma_ascii_lit_valid(Seq::<u8>::empty());
    } else {
        lemma_emit_items_valid(items.drop_last(), ft);
        assert(sval_utf8(items[items.len() - 1]));
        lemma_emit_valid(items.last(), ft);
        lemma_ascii_lit_valid(seq![0x2Cu8]);
        lemma_ascii_lit_valid(Seq::<u8>::empty());
        lemma_valid3(
            spec_emit_items(items.drop_last(), ft),
            if items.len() > 1 {
                seq![0x2Cu8]
            } else {
                Seq::empty()
            },
            spec_emit(items.last(), ft),
        );
    }
}

pub proof fn lemma_emit_pairs_valid(pairs: Seq<(Seq<u8>, SVal)>, ft: spec_fn(u64) -> Seq<u8>)
    requires
        forall|bits: u64| valid_utf8(#[trigger] ft(bits)),
        forall|i: int|
            0 <= i < pairs.len() ==> valid_utf8((#[trigger] pairs[i]).0) && sval_utf8(pairs[i].1),
    ensures
        valid_utf8(spec_emit_pairs(pairs, ft)),
    decreases pairs, 0nat,
{
    if pairs.len() == 0 {
        lemma_ascii_lit_valid(Seq::<u8>::empty());
    } else {
        lemma_emit_pairs_valid(pairs.drop_last(), ft);
        let last = pairs[pairs.len() - 1];
        assert(valid_utf8(last.0) && sval_utf8(last.1));
        lemma_emit_valid(last.1, ft);
        lemma_quoted_valid(last.0);
        lemma_ascii_lit_valid(seq![0x2Cu8]);
        lemma_ascii_lit_valid(seq![0x3Au8]);
        lemma_ascii_lit_valid(Seq::<u8>::empty());
        let sep = if pairs.len() > 1 {
            seq![0x2Cu8]
        } else {
            Seq::empty()
        };
        lemma_valid3(spec_emit_pairs(pairs.drop_last(), ft), sep, quoted(last.0));
        lemma_valid3(
            spec_emit_pairs(pairs.drop_last(), ft) + sep + quoted(last.0),
            seq![0x3Au8],
            spec_emit(last.1, ft),
        );
    }
}

// ---------------------------------------------------------------------------
// Owned values.
// ---------------------------------------------------------------------------

broadcast use vstd::std_specs::vec::group_vec_axioms;

#[verifier::rlimit(30)]
#[verifier::spinoff_prover]
fn write_owned_value<F: Fn(u64) -> Vec<u8>>(out: &mut Vec<u8>, v: &OwnedDataValue, float_text: &F)
    requires
        float_writer_ok(*float_text),
    ensures
        final(out)@ == old(out)@ + spec_emit(v@, float_text_fn(*float_text)),
    decreases v,
{
    let ghost ft = float_text_fn(*float_text);
    let ghost m = v@;
    match v {
        OwnedDataValue::Null => write_lit(out, 0),
        OwnedDataValue::Bool(b) => {
            if *b {
                write_lit(out, 1)
            } else {
                write_lit(out, 2)
            }
        },
        OwnedDataValue::Number(n) => write_number(out, *n, float_text),
        OwnedDataValue::String(s) => write_escaped_str(out, s.as_str()),
        OwnedDataValue::DateTime(d) => write_datetime(out, d),
        OwnedDataValue::Duration(d) => write_duration(out, d),
        OwnedDataValue::Array(items) => {
            let ghost ms = m->Arr_0;
            let ghost pre = out@;
            out.push(0x5B);
            let mut i: usize = 0;
            while i < items.len()
                invariant
                    i <= items.len(),
                    *v == OwnedDataValue::Array(*items),
                    m == v@,
                    ms == m->Arr_0,
                    ms.len() == items@.len(),
                    forall|k: int| 0 <= k < ms.len() ==> #[trigger] ms[k] == items@[k]@,
                    float_writer_ok(*float_text),
                    ft == float_text_fn(*float_text),
                    out@ == pre + seq![0x5Bu8] + spec_emit_items(ms.take(i as int), ft),
                decreases items.len() - i,
            {
                if i > 0 {
                    out.push(0x2C);
                }
                proof {
                    assert(decreases_to!(*v => (*v)->Array_0));
                    assert(decreases_to!(*items => items[i as int]));
                }
                write_owned_value(out, &items[i], float_text);
                proof {
                    assert(ms.take(i + 1).drop_last() =~= ms.take(i as int));
                    assert(ms.take(i + 1).last() == ms[i as int]);
                }
                assert(out@ =~= pre + seq![0x5Bu8] + spec_emit_items(ms.take(i + 1), ft));
                i += 1;
            }
            out.push(0x5D);
            assert(ms.take(i as int) =~= ms);
            assert(out@ =~= pre + spec_emit(m, ft));
        },
        OwnedDataValue::Object(pairs) => {
            let ghost ps = m->Obj_0;
            let ghost pre = out@;
            out.push(0x7B);
            let mut i: usize = 0;
            while i < pairs.len()
                invariant
                    i <= pairs.len(),
                    *v == OwnedDataValue::Object(*pairs),
                    m == v@,
                    ps == m->Obj_0,
                    ps.len() == pairs@.len(),
                    forall|k: int|
                        0 <= k < ps.len() ==> #[trigger] ps[k] == (
                            vstd::utf8::encode_utf8(pairs@[k].0@),
                            pairs@[k].1@,
                        ),
                    float_writer_ok(*float_text),
                    ft == float_text_fn(*float_text),
                    out@ == pre + seq![0x7Bu8] + spec_emit_pairs(ps.take(i as int), ft),
                decreases pairs.len() - i,
            {
                if i > 0 {
                    out.push(0x2C);
                }
                let pair = &pairs[i];
                write_escaped_str(out, pair.0.as_str());
                out.push(0x3A);
                proof {
                    assert(decreases_to!(*v => (*v)->Object_0));
                    assert(decreases_to!(*pairs => pairs[i as int]));
                    assert(decreases_to!(pairs[i as int] => pairs[i as int].1));
                    assert(ps[i as int] == (vstd::utf8::encode_utf8(pairs@[i as int].0@), pairs@[i as int].1@));
                }
                write_owned_value(out, &pair.1, float_text);
                proof {
                    assert(ps.take(i + 1).drop_last() =~= ps.take(i as int));
                    assert(ps.take(i + 1).last() == ps[i as int]);
                }
                assert(out@ =~= pre + seq![0x7Bu8] + spec_emit_pairs(ps.take(i + 1), ft));
                i += 1;
            }
            out.push(0x7D);
            assert(ps.take(i as int) =~= ps);
            assert(out@ =~= pre + spec_emit(m, ft));
        },
    }
}

#[verifier::rlimit(30)]
#[verifier::spinoff_prover]
fn write_owned_value_pretty<F: Fn(u64) -> Vec<u8>>(
    out: &mut Vec<u8>,
    v: &OwnedDataValue,
    depth: usize,
    float_text: &F,
)
    requires
        float_writer_ok(*float_text),
        depth <= old(out)@.len(),
    ensures
        final(out)@ == old(out)@ + spec_pretty(v@, depth as nat, float_text_fn(*float_text)),
    decreases v,
{
    let ghost ft = float_text_fn(*float_text);
    let ghost m = v@;
    match v {
        OwnedDataValue::Array(items) => {
            let ghost ms = m->Arr_0;
            let ghost pre = out@;
            if items.len() == 0 {
                out.push(0x5B);
                out.push(0x5D);
                assert(out@ =~= pre + spec_pretty(m, depth as nat, ft));
                return;
            }
            out.push(0x5B);
            let mut i: usize = 0;
            while i < items.len()
                invariant
                    i <= items.len(),
                    *v == OwnedDataValue::Array(*items),
                    m == v@,
                    ms == m->Arr_0,
                    ms.len() == items@.len(),
                    forall|k: int| 0 <= k < ms.len() ==> #[trigger] ms[k] == items@[k]@,
                    float_writer_ok(*float_text),
                    ft == float_text_fn(*float_text),
                    depth < out@.len(),
                    out@ == pre + seq![0x5Bu8] + spec_pretty_items(ms.take(i as int), depth as nat, ft),
                decreases items.len() - i,
            {
                if i > 0 {
                    out.push(0x2C);
                }
                out.push(0x0A);
                let _ = out.len();
                write_indent(out, depth + 1);
                let _ = out.len();
                proof {
                    assert(decreases_to!(*v => (*v)->Array_0));
                    assert(decreases_to!(*items => items[i as int]));
                }
                write_owned_value_pretty(out, &items[i], depth + 1, float_text);
                proof {
                    assert(ms.take(i + 1).drop_last() =~= ms.take(i as int));
                    assert(ms.take(i + 1).last() == ms[i as int]);
                }
                assert(out@ =~= pre + seq![0x5Bu8] + spec_pretty_items(ms.take(i + 1), depth as nat, ft));
                i += 1;
            }
            out.push(0x0A);
            write_indent(out, depth);
            out.push(0x5D);
            assert(ms.take(i as int) =~= ms);
            assert(out@ =~= pre + spec_pretty(m, depth as nat, ft));
        },
        OwnedDataValue::Object(pairs) => {
            let ghost ps = m->Obj_0;
            let ghost pre = out@;
            if pairs.len() == 0 {
                out.push(0x7B);
                out.push(0x7D);
                assert(out@ =~= pre + spec_pretty(m, depth as nat, ft));
                return;
            }
            out.push(0x7B);
            let mut i: usize = 0;
            while i < pairs.len()
                invariant
                    i <= pairs.len(),
                    *v == OwnedDataValue::Object(*pairs),
                    m == v@,
                    ps == m->Obj_0,
                    ps.len() == pairs@.len(),
                    forall|k: int|
                        0 <= k < ps.len() ==> #[trigger] ps[k] == (
                            vstd::utf8::encode_utf8(pairs@[k].0@),
                            pairs@[k].1@,
                        ),
                    float_writer_ok(*float_text),
                    ft == float_text_fn(*float_text),
                    depth < out@.len(),
                    out@ == pre + seq![0x7Bu8] + spec_pretty_pairs(ps.take(i as int), depth as nat, ft),
                decreases pairs.len() - i,
            {
                if i > 0 {
                    out.push(0x2C);
                }
                out.push(0x0A);
                let _ = out.len();
                write_indent(out, depth + 1);
                let pair = &pairs[i];
                write_escaped_str(out, pair.0.as_str());
                out.push(0x3A);
                out.push(0x20);
                let _ = out.len();
                proof {
                    assert(decreases_to!(*v => (*v)->Object_0));
                    assert(decreases_to!(*pairs => pairs[i as int]));
                    assert(decreases_to!(pairs[i as int] => pairs[i as int].1));
                    assert(ps[i as int] == (vstd::utf8::encode_utf8(pairs@[i as int].0@), pairs@[i as int].1@));
                }
                write_owned_value_pretty(out, &pair.1, depth + 1, float_text);
                proof {
                    assert(ps.take(i + 1).drop_last() =~= ps.take(i as int));
                    assert(ps.take(i + 1).last() == ps[i as int]);
                }
                assert(out@ =~= pre + seq![0x7Bu8] + spec_pretty_pairs(ps.take(i + 1), depth as nat, ft));
                i += 1;
            }
            out.push(0x0A);
            write_indent(out, depth);
            out.push(0x7D);
            assert(ps.take(i as int) =~= ps);
            assert(out@ =~= pre + spec_pretty(m, depth as nat, ft));
        },
        _ => {
            write_owned_value(out, v, float_text);
        },
    }
}

// ---------------------------------------------------------------------------
// Text as a `String`.
// ---------------------------------------------------------------------------

pub proof fn lemma_owned_utf8(v: OwnedDataValue)
    ensures
        sval_utf8(v@),
    decreases v,
{
    match v {
        OwnedDataValue::String(s) => {
            vstd::utf8::encode_utf8_valid_utf8(s@);
        },
        OwnedDataValue::Array(items) => {
            assert forall|i: int| 0 <= i < v@->Arr_0.len() implies sval_utf8(#[trigger] v@->Arr_0[i]) by {
                assert(decreases_to!(v => items));
                assert(decreases_to!(items => items[i]));
                lemma_owned_utf8(items@[i]);
            }
        },
        OwnedDataValue::Object(pairs) => {
            assert forall|i: int| 0 <= i < v@->Obj_0.len() implies valid_utf8(
                (#[trigger] v@->Obj_0[i]).0,
            ) && sval_utf8(v@->Obj_0[i].1) by {
                assert(decreases_to!(v => pairs));
                assert(decreases_to!(pairs => pairs[i]));
                assert(decreases_to!(pairs[i] => pairs[i].1));
                vstd::utf8::encode_utf8_valid_utf8(pairs@[i].0@);
                lemma_owned_utf8(pairs@[i].1);
            }
        },
        _ => {},
    }
}

proof fn lemma_indent_valid(d: nat)
    ensures
        valid_utf8(indent(d)),
{
    lemma_ascii_valid(indent(d));
}

pub proof fn lemma_pretty_valid(m: SVal, depth: nat, ft: spec_fn(u64) -> Seq<u8>)
    requires
        forall|bits: u64| valid_utf8(#[trigger] ft(bits)),
        sval_utf8(m),
    ensures
        valid_utf8(spec_pretty(m, depth, ft)),
    decreases m, 1nat,
{
    match m {
        SVal::Arr(items) => {
            if items.len() == 0 {
                lemma_ascii_lit_valid(seq![0x5Bu8, 0x5Du8]);
            } else {
                lemma_pretty_items_valid(items, depth, ft);
                lemma_ascii_lit_valid(seq![0x5Bu8]);
                lemma_ascii_lit_valid(seq![0x0Au8]);
                lemma_ascii_lit_valid(seq![0x5Du8]);
                lemma_indent_valid(depth);
                lemma_valid3(seq![0x5Bu8], spec_pretty_items(items, depth, ft), seq![0x0Au8]);
                lemma_valid3(
                    seq![0x5Bu8] + spec_pretty_items(items, depth, ft) + seq![0x0Au8],
                    indent(depth),
                    seq![0x5Du8],
                );
            }
        },
        SVal::Obj(pairs) => {
            if pairs.len() == 0 {
                lemma_ascii_lit_valid(seq![0x7Bu8, 0x7Du8]);
            } else {
                lemma_pretty_pairs_valid(pairs, depth, ft);
                lemma_ascii_lit_valid(seq![0x7Bu8]);
                lemma_ascii_lit_valid(seq![0x0Au8]);
                lemma_ascii_lit_valid(seq![0x7Du8]);
                lemma_indent_valid(depth);
                lemma_valid3(seq![0x7Bu8], spec_pretty_pairs(pairs, depth, ft), seq![0x0Au8]);
                lemma_valid3(
                    seq![0x7Bu8] + spec_pretty_pairs(pairs, depth, ft) + seq![0x0Au8],
                    indent(depth),
                    seq![0x7Du8],
                );
            }
        },
        _ => lemma_scalar_text_valid(m, ft),
    }
}

pub proof fn lemma_pretty_items_valid(items: Seq<SVal>, depth: nat, ft: spec_fn(u64) -> Seq<u8>)
    requires
        forall|bits: u64| valid_utf8(#[trigger] ft(bits)),
        forall|i: int| 0 <= i < items.len() ==> sval_utf8(#[trigger] items[i]),
    ensures
        valid_utf8(spec_pretty_items(items, depth, ft)),
    decreases items, 0nat,
{
    if items.len() == 0 {
        lemma_ascii_lit_valid(Seq::<u8>::empty());
    } else {
        lemma_pretty_items_valid(items.drop_last(), depth, ft);
        assert(sval_utf8(items[items.len() - 1]));
        lemma_pretty_valid(items.last(), depth + 1, ft);
        lemma_ascii_lit_valid(seq![0x2Cu8]);
        lemma_ascii_lit_valid(seq![0x0Au8]);
        lemma_ascii_lit_valid(Seq::<u8>::empty());
        lemma_indent_valid(depth + 1);
        let sep = if items.len() > 1 {
            seq![0x2Cu8]
        } else {
            Seq::empty()
        };
        lemma_valid3(spec_pretty_items(items.drop_last(), depth, ft), sep, seq![0x0Au8]);
        lemma_valid3(
            spec_pretty_items(items.drop_last(), depth, ft) + sep + seq![0x0Au8],
            indent(depth + 1),
            spec_pretty(items.last(), depth + 1, ft),
        );
    }
}

pub proof fn lemma_pretty_pairs_valid(
    pairs: Seq<(Seq<u8>, SVal)>,
    depth: nat,
    ft: spec_fn(u64) -> Seq<u8>,
)
    requires
        forall|bits: u64| valid_utf8(#[trigger] ft(bits)),
        forall|i: int|
            0 <= i < pairs.len() ==> valid_utf8((#[trigger] pairs[i]).0) && sval_utf8(pairs[i].1),
    ensures
        valid_utf8(spec_pretty_pairs(pairs, depth, ft)),
    decreases pairs, 0nat,
{
    if pairs.len() == 0 {
        lemma_ascii_lit_valid(Seq::<u8>::empty());
    } else {
        lemma_pretty_pairs_valid(pairs.drop_last(), depth, ft);
        let last = pairs[pairs.len() - 1];
        assert(valid_utf8(last.0) && sval_utf8(last.1));
        lemma_pretty_valid(last.1, depth + 1, ft);
        lemma_quoted_valid(last.0);
        lemma_ascii_lit_valid(seq![0x2Cu8]);
        lemma_ascii_lit_valid(seq![0x0Au8]);
        lemma_ascii_lit_valid(seq![0x3Au8, 0x20u8]);
        lemma_ascii_lit_valid(Seq::<u8>::empty());
        lemma_indent_valid(depth + 1);
        let sep = if pairs.len() > 1 {
            seq![0x2Cu8]
        } else {
            Seq::empty()
        };
        let a = spec_pretty_pairs(pairs.drop_last(), depth, ft);
        lemma_valid3(a, sep, seq![0x0Au8]);
        lemma_valid3(a + sep + seq![0x0Au8], indent(depth + 1), quoted(last.0));
        lemma_valid3(
            a + sep + seq![0x0Au8] + indent(depth + 1) + quoted(last.0),
            seq![0x3Au8, 0x20u8],
            spec_pretty(last.1, depth + 1, ft),
        );
    }
}

/// Calls `String::from_utf8`, which checks that the bytes are valid UTF-8;
/// the contract claims it succeeds exactly on valid UTF-8 and then holds the
/// text those bytes encode.
#[verifier::external_body]
fn string_from_utf8(v: Vec<u8>) -> (r: Option<String>)
    ensures
        r is Some <==> valid_utf8(v@),
        r matches Some(s) ==> vstd::utf8::encode_utf8(s@) == v@,
{
    String::from_utf8(v).ok()
}

pub(crate) fn text_to_string(out: Vec<u8>) -> (r: String)
    requires
        valid_utf8(out@),
    ensures
        vstd::utf8::encode_utf8(r@) == out@,
{
    match string_from_utf8(out) {
        Some(s) => s,
        None => String::new(),
    }
}

impl<'a> DataValue<'a> {
    /// The compact JSON text of this value.
    pub fn to_json_string<F: Fn(u64) -> Vec<u8>>(&self, float_text: &F) -> (r: String)
        requires
            dv_finite(*self),
            float_writer_ok(*float_text),
        ensures
            vstd::utf8::encode_utf8(r@) == spec_emit(dv_view(*self), float_text_fn(*float_text)),
    {
        let mut out: Vec<u8> = Vec::new();
        self.write_json_into(&mut out, float_text);
        proof {
            lemma_dv_view(*self, choose|m: SVal| dv_is(*self, m));
            lemma_dv_utf8(*self, dv_view(*self));
            lemma_emit_valid(dv_view(*self), float_text_fn(*float_text));
            assert(out@ =~= spec_emit(dv_view(*self), float_text_fn(*float_text)));
        }
        text_to_string(out)
    }
}

impl<'b, 'a> Pretty<'b, DataValue<'a>> {
    /// The indented JSON text of the wrapped value.
    pub fn to_json_string<F: Fn(u64) -> Vec<u8>>(&self, float_text: &F) -> (r: String)
        requires
            dv_finite(self.inner()),
            float_writer_ok(*float_text),
        ensures
            vstd::utf8::encode_utf8(r@) == spec_pretty(dv_view(self.inner()), 0, float_text_fn(*float_text)),
    {
        let mut out: Vec<u8> = Vec::new();
        self.value.write_json_pretty_into(&mut out, float_text);
        proof {
            let v = self.inner();
            lemma_dv_view(v, choose|m: SVal| dv_is(v, m));
            lemma_dv_utf8(v, dv_view(v));
            lemma_pretty_valid(dv_view(v), 0, float_text_fn(*float_text));
            assert(out@ =~= spec_pretty(dv_view(v), 0, float_text_fn(*float_text)));
        }
        text_to_string(out)
    }
}

impl OwnedDataValue {
    /// Appends the compact JSON text of this value to `out`.
    pub fn write_json_into<F: Fn(u64) -> Vec<u8>>(&self, out: &mut Vec<u8>, float_text: &F)
        requires
            float_writer_ok(*float_text),
        ensures
            final(out)@ == old(out)@ + spec_emit(self@, float_text_fn(*float_text)),
    {
        write_owned_value(out, self, float_text);
    }

    /// Appends the indented JSON text of this value to `out`.
    pub fn write_json_pretty_into<F: Fn(u64) -> Vec<u8>>(&self, out: &mut Vec<u8>, float_text: &F)
        requires
            float_writer_ok(*float_text),
        ensures
            final(out)@ == old(out)@ + spec_pretty(self@, 0, float_text_fn(*float_text)),
    {
        write_owned_value_pretty(out, self, 0, float_text);
    }

    /// A wrapper whose text is the indented JSON of this value.
    pub fn pretty(&self) -> (r: Pretty<'_, OwnedDataValue>)
        ensures
            r.inner() == *self,
    {
        Pretty { value: self }
    }

    /// The compact JSON text of this value.
    pub fn to_json_string<F: Fn(u64) -> Vec<u8>>(&self, float_text: &F) -> (r: String)
        requires
            float_writer_ok(*float_text),
        ensures
            vstd::utf8::encode_utf8(r@) == spec_emit(self@, float_text_fn(*float_text)),
    {
        let mut out: Vec<u8> = Vec::new();
        self.write_json_into(&mut out, float_text);
        proof {
            lemma_owned_utf8(*self);
            lemma_emit_valid(self@, float_text_fn(*float_text));
            assert(out@ =~= spec_emit(self@, float_text_fn(*float_text)));
        }
        text_to_string(out)
    }
}

impl<'b> Pretty<'b, OwnedDataValue> {
    /// The indented JSON text of the wrapped value.
    pub fn to_json_string<F: Fn(u64) -> Vec<u8>>(&self, float_text: &F) -> (r: String)
        requires
            float_writer_ok(*float_text),
        ensures
            vstd::utf8::encode_utf8(r@) == spec_pretty(self.inner()@, 0, float_text_fn(*float_text)),
    {
        let mut out: Vec<u8> = Vec::new();
        self.value.write_json_pretty_into(&mut out, float_text);
        proof {
            lemma_owned_utf8(self.inner());
            lemma_pretty_valid(self.inner()@, 0, float_text_fn(*float_text));
            assert(out@ =~= spec_pretty(self.inner()@, 0, float_text_fn(*float_text)));
        }
        text_to_string(out)
    }
}

} // verus!
