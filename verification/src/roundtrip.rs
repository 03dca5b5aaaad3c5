//! Reading back what the emitter writes: the compact text of a value parses
//! to the same value.

use vstd::prelude::*;

use crate::emit::{
    escape_byte, escape_bytes, hex_lower, int_text, nat_text, non_finite_bits, quoted, spec_emit, spec_emit_items,
    spec_emit_pairs,
};
use crate::model::SVal;
use crate::number::NumberValue;
use crate::parser::{
    decimal_value, digits_end, hex_digit_value, is_digit, is_ws, lemma_digits_end, lit_false, lit_null, lit_true,
    simple_escape, skip_ws, spec_escape, spec_hex4, spec_items, spec_members, spec_number,
    spec_parse_document, spec_string, spec_string_rest, spec_value, MAX_DEPTH,
};

verus! {

/// The decimal text of `n`: digits only, no leading zero but for `0`
/// itself, and it reads back as `n`.
pub(crate) proof fn lemma_nat_text(n: nat)
    ensures
        nat_text(n).len() >= 1,
        forall|i: int| 0 <= i < nat_text(n).len() ==> is_digit(#[trigger] nat_text(n)[i]),
        decimal_value(nat_text(n)) == n,
        nat_text(n)[0] == 0x30 ==> n == 0,
    decreases n,
{
    let t = nat_text(n);
    if n >= 10 {
        lemma_nat_text(n / 10);
        let pre = nat_text(n / 10);
        assert(t.drop_last() =~= pre);
        assert(t[0] == pre[0]);
        assert(t.last() == (0x30 + n % 10) as u8);
        assert(decimal_value(t) == decimal_value(pre) * 10 + (t.last() - 0x30));
    } else {
        assert(t.drop_last() =~= Seq::<u8>::empty());
        assert(decimal_value(Seq::<u8>::empty()) == 0);
        assert(decimal_value(t) == decimal_value(t.drop_last()) * 10 + (t.last() - 0x30));
    }
}

/// The text `t` stands in `b` at `p`.
pub open spec fn holds(b: Seq<u8>, p: int, t: Seq<u8>) -> bool {
    0 <= p && p + t.len() <= b.len() && b.subrange(p, p + t.len()) == t
}

pub(crate) proof fn lemma_holds_split(b: Seq<u8>, p: int, x: Seq<u8>, y: Seq<u8>)
    requires
        holds(b, p, x + y),
    ensures
        holds(b, p, x),
        holds(b, p + x.len(), y),
{
    lemma_split_at(b, p, x, y);
}

pub(crate) proof fn lemma_holds_at(b: Seq<u8>, p: int, t: Seq<u8>, i: int)
    requires
        holds(b, p, t),
        0 <= i < t.len(),
    ensures
        b[p + i] == t[i],
{
    assert(b.subrange(p, p + t.len())[i] == t[i]);
}

proof fn lemma_low_scalar(c: u8)
    by (bit_vector)
    requires
        c < 0x80,
    ensures
        ((c as u32) & 0x7F) as u8 == c,
{
}

/// A two-byte escape (`\\"`, `\\n`, ...) reads back as its byte.
proof fn lemma_short_escape_read(b: Seq<u8>, p: int, c: u8)
    requires
        c == 0x22 || c == 0x5C || c == 0x0A || c == 0x0D || c == 0x09 || c == 0x08 || c == 0x0C,
        0 <= p,
        p + 2 <= b.len(),
        b[p] == escape_byte(c)[0],
        b[p + 1] == escape_byte(c)[1],
    ensures
        escape_byte(c).len() == 2,
        spec_escape(b, p) == Ok::<(Seq<u8>, int), crate::parser::ParseError>((seq![c], p + 2)),
{
    assert(b[p + 1] != 0x75);
    assert(simple_escape(b[p + 1]) == Some(c));
}

/// A `\u00XX` escape reads back as its byte.
#[verifier::rlimit(30)]
proof fn lemma_unicode_escape_read(b: Seq<u8>, p: int, c: u8)
    requires
        c < 0x20,
        !(c == 0x0A || c == 0x0D || c == 0x09 || c == 0x08 || c == 0x0C),
        0 <= p,
        p + 6 <= b.len(),
        b[p] == 0x5C,
        b[p + 1] == 0x75,
        b[p + 2] == 0x30,
        b[p + 3] == 0x30,
        b[p + 4] == hex_lower((c / 16) as int),
        b[p + 5] == hex_lower((c % 16) as int),
    ensures
        spec_escape(b, p) == Ok::<(Seq<u8>, int), crate::parser::ParseError>((seq![c], p + 6)),
{
    let hi = (c / 16) as int;
    let lo = (c % 16) as int;
    assert(hex_digit_value(hex_lower(hi)) == hi);
    assert(hex_digit_value(hex_lower(lo)) == lo);
    assert(spec_hex4(b, p + 2) == Ok::<(int, int), crate::parser::ParseError>((c as int, p + 6)));
    lemma_low_scalar(c);
    assert(vstd::utf8::encode_scalar(c as u32) =~= seq![c]);
}

/// An escape written for a byte reads back as that byte.
#[verifier::rlimit(40)]
#[verifier::spinoff_prover]
proof fn lemma_escape_byte_read(b: Seq<u8>, p: int, c: u8)
    requires
        c == 0x22 || c == 0x5C || c < 0x20,
        holds(b, p, escape_byte(c)),
    ensures
        spec_escape(b, p) == Ok::<(Seq<u8>, int), crate::parser::ParseError>((seq![c], p + escape_byte(c).len())),
{
    let e = escape_byte(c);
    lemma_holds_at(b, p, e, 0);
    lemma_holds_at(b, p, e, 1);
    if c == 0x22 || c == 0x5C || c == 0x0A || c == 0x0D || c == 0x09 || c == 0x08 || c == 0x0C {
        lemma_short_escape_read(b, p, c);
    } else {
        assert(e.len() == 6);
        lemma_holds_at(b, p, e, 2);
        lemma_holds_at(b, p, e, 3);
        lemma_holds_at(b, p, e, 4);
        lemma_holds_at(b, p, e, 5);
        lemma_unicode_escape_read(b, p, c);
    }
}

/// `escape_bytes` read from the front: the first byte's escape, then the
/// rest.
proof fn lemma_escape_bytes_front(s: Seq<u8>)
    requires
        s.len() > 0,
    ensures
        escape_bytes(s) == escape_byte(s[0]) + escape_bytes(s.drop_first()),
{
    crate::emit::lemma_escape_append(seq![s[0]], s.drop_first());
    assert(seq![s[0]] + s.drop_first() =~= s);
    assert(seq![s[0]].drop_last() =~= Seq::<u8>::empty());
    reveal_with_fuel(escape_bytes, 2);
    assert(escape_bytes(seq![s[0]]) =~= escape_byte(s[0]));
}

/// Where `x + y` stands at `p`, `x` stands at `p` and `y` after it.
proof fn lemma_split_at(b: Seq<u8>, p: int, x: Seq<u8>, y: Seq<u8>)
    requires
        0 <= p,
        p + x.len() + y.len() <= b.len(),
        b.subrange(p, p + x.len() + y.len()) == x + y,
    ensures
        b.subrange(p, p + x.len()) == x,
        b.subrange(p + x.len(), p + x.len() + y.len()) == y,
{
    assert forall|k: int| 0 <= k < x.len() implies b.subrange(p, p + x.len())[k] == x[k] by {
        assert(b.subrange(p, p + x.len() + y.len())[k] == (x + y)[k]);
    }
    assert forall|k: int| 0 <= k < y.len() implies b.subrange(p + x.len(), p + x.len() + y.len())[k]
        == y[k] by {
        let j = x.len() + k;
        assert(b.subrange(p, p + x.len() + y.len())[j] == (x + y)[j]);
        assert(b.subrange(p, p + x.len() + y.len())[j] == b[p + j]);
        assert(b.subrange(p + x.len(), p + x.len() + y.len())[k] == b[p + j]);
        assert((x + y)[j] == y[k]);
    }
    assert(b.subrange(p, p + x.len()) =~= x);
    assert(b.subrange(p + x.len(), p + x.len() + y.len()) =~= y);
}

/// One byte of string content read back: a plain byte as itself, a special
/// byte through its escape.
#[verifier::rlimit(100)]
#[verifier::spinoff_prover]
proof fn lemma_string_rest_step(b: Seq<u8>, p: int, acc: Seq<u8>, c: u8)
    requires
        0 <= p,
        p + escape_byte(c).len() < b.len(),
        b.subrange(p, p + escape_byte(c).len()) == escape_byte(c),
    ensures
        spec_string_rest(b, p, acc) == spec_string_rest(b, p + escape_byte(c).len(), acc.push(c)),
{
    let e = escape_byte(c);
    if c == 0x22 || c == 0x5C || c < 0x20 {
        lemma_escape_byte_read(b, p, c);
        assert(b.subrange(p, p + e.len())[0] == b[p]);
        assert(acc + seq![c] =~= acc.push(c));
    } else {
        assert(e =~= seq![c]);
        assert(b.subrange(p, p + e.len())[0] == b[p]);
    }
}

/// Reading the escaped text of `s` (inside the quotes) from `p`, up to the
/// closing quote, adds `s` to what was read.
proof fn lemma_string_rest_escaped(b: Seq<u8>, p: int, acc: Seq<u8>, s: Seq<u8>)
    requires
        0 <= p,
        p + escape_bytes(s).len() < b.len(),
        b.subrange(p, p + escape_bytes(s).len()) == escape_bytes(s),
        b[p + escape_bytes(s).len()] == 0x22,
    ensures
        spec_string_rest(b, p, acc) == Ok::<(Seq<u8>, int), crate::parser::ParseError>(
            (acc + s, p + escape_bytes(s).len() + 1),
        ),
    decreases s.len(),
{
    if s.len() == 0 {
        assert(acc + s =~= acc);
    } else {
        let c = s[0];
        let rest = s.drop_first();
        lemma_escape_bytes_front(s);
        let e = escape_byte(c);
        lemma_split_at(b, p, e, escape_bytes(rest));
        lemma_string_rest_step(b, p, acc, c);
        lemma_string_rest_escaped(b, p + e.len(), acc.push(c), rest);
        assert(acc.push(c) + rest =~= acc + s);
    }
}

/// A quoted string reads back as its bytes, up to its closing quote.
pub proof fn lemma_quoted_read(b: Seq<u8>, p: int, s: Seq<u8>)
    requires
        0 <= p,
        p + quoted(s).len() <= b.len(),
        b.subrange(p, p + quoted(s).len()) == quoted(s),
    ensures
        spec_string(b, p) == Ok::<(Seq<u8>, int), crate::parser::ParseError>((s, p + quoted(s).len())),
{
    let e = escape_bytes(s);
    assert(quoted(s).len() == e.len() + 2);
    assert(b.subrange(p + 1, p + 1 + e.len()) =~= e) by {
        assert forall|k: int| 0 <= k < e.len() implies b.subrange(p + 1, p + 1 + e.len())[k] == e[k] by {
            assert(b.subrange(p, p + quoted(s).len())[1 + k] == quoted(s)[1 + k]);
        }
    }
    assert(b[p + 1 + e.len()] == 0x22) by {
        assert(b.subrange(p, p + quoted(s).len())[1 + e.len() as int] == quoted(s)[1 + e.len() as int]);
    }
    lemma_string_rest_escaped(b, p + 1, Seq::empty(), s);
    assert(Seq::<u8>::empty() + s =~= s);
}

/// `t` is a JSON number literal with a fraction or an exponent (or both):
/// an optional `-`, then `0` or a run of digits that does not start with
/// `0`, then `.` and one or more digits and/or `e` or `E`, an optional sign
/// and one or more digits.
pub open spec fn float_literal(t: Seq<u8>) -> bool {
    let q0: int = if t.len() > 0 && t[0] == 0x2D {
        1
    } else {
        0
    };
    &&& q0 < t.len()
    &&& is_digit(t[q0])
    &&& {
        let int_end = if t[q0] == 0x30 {
            q0 + 1
        } else {
            digits_end(t, q0 + 1)
        };
        let has_frac = int_end < t.len() && t[int_end] == 0x2E;
        let frac_end = if has_frac {
            digits_end(t, int_end + 1)
        } else {
            int_end
        };
        let has_exp = frac_end < t.len() && (t[frac_end] == 0x65 || t[frac_end] == 0x45);
        let exp_digits = if has_exp && frac_end + 1 < t.len() && (t[frac_end + 1] == 0x2B || t[frac_end
            + 1] == 0x2D) {
            frac_end + 2
        } else {
            frac_end + 1
        };
        let end = if has_exp {
            digits_end(t, exp_digits)
        } else {
            frac_end
        };
        &&& has_frac || has_exp
        &&& has_frac ==> frac_end > int_end + 1
        &&& has_exp ==> end > exp_digits
        &&& end == t.len()
    }
}

/// The float `bits` is finite, `ft` writes it as a JSON float literal, and
/// `fl` reads that literal back as `bits`.
pub open spec fn float_reads_back(
    bits: u64,
    fl: spec_fn(Seq<u8>) -> Option<u64>,
    ft: spec_fn(u64) -> Seq<u8>,
) -> bool {
    &&& !non_finite_bits(bits)
    &&& float_literal(ft(bits))
    &&& fl(ft(bits)) == Some(bits)
}

/// A value whose compact text the parser reads back as that very value: no
/// instant or duration (JSON has none; their text reads back as a string),
/// every float finite and written by `ft` as a literal that `fl` reads back
/// as the same float, and nesting within the parser's limit, counting from
/// `depth`.
pub open spec fn reads_back(
    m: SVal,
    depth: int,
    fl: spec_fn(Seq<u8>) -> Option<u64>,
    ft: spec_fn(u64) -> Seq<u8>,
) -> bool
    decreases m,
{
    &&& 0 <= depth <= MAX_DEPTH as int
    &&& match m {
        SVal::Number(NumberValue::Float(bits)) => float_reads_back(bits, fl, ft),
        SVal::Arr(items) => forall|k: int|
            0 <= k < items.len() ==> reads_back(#[trigger] items[k], depth + 1, fl, ft),
        SVal::Obj(pairs) => forall|k: int|
            0 <= k < pairs.len() ==> reads_back((#[trigger] pairs[k]).1, depth + 1, fl, ft),
        SVal::DateTime(_) => false,
        SVal::Duration(_) => false,
        _ => true,
    }
}

/// The byte at `q`, if any, cannot continue a number literal.
pub open spec fn stops_number(b: Seq<u8>, q: int) -> bool {
    q >= b.len() || (!is_digit(b[q]) && b[q] != 0x2E && b[q] != 0x65 && b[q] != 0x45)
}

/// The text of a value that reads back is not empty and does not start
/// with whitespace, a `]` or a `}`.
pub(crate) proof fn lemma_emit_first(
    m: SVal,
    depth: int,
    fl: spec_fn(Seq<u8>) -> Option<u64>,
    ft: spec_fn(u64) -> Seq<u8>,
)
    requires
        reads_back(m, depth, fl, ft),
    ensures
        spec_emit(m, ft).len() > 0,
        !is_ws(spec_emit(m, ft)[0]),
        spec_emit(m, ft)[0] != 0x5D,
        spec_emit(m, ft)[0] != 0x7D,
{
    match m {
        SVal::Number(NumberValue::Integer(i)) => {
            if i < 0 {
                lemma_nat_text((-i) as nat);
            } else {
                lemma_nat_text(i as nat);
            }
        },
        SVal::Number(NumberValue::Float(bits)) => {
            let t = ft(bits);
            assert(t[0] == 0x2D || is_digit(t[0]));
        },
        SVal::Arr(items) => {},
        SVal::Obj(pairs) => {},
        _ => {},
    }
}

proof fn lemma_digits_run(b: Seq<u8>, x: int, y: int)
    requires
        0 <= x <= y <= b.len(),
        forall|k: int| x <= k < y ==> is_digit(#[trigger] b[k]),
        y == b.len() || !is_digit(b[y]),
    ensures
        digits_end(b, x) == y,
    decreases y - x,
{
    if x < y {
        lemma_digits_run(b, x + 1, y);
    }
}

/// The decimal text of an `i64` reads back as that integer.
proof fn lemma_int_read(b: Seq<u8>, p: int, i: i64, fl: spec_fn(Seq<u8>) -> Option<u64>)
    requires
        holds(b, p, int_text(i as int)),
        stops_number(b, p + int_text(i as int).len()),
    ensures
        spec_number(b, p, fl) == Ok::<(SVal, int), crate::parser::ParseError>(
            (SVal::Number(NumberValue::Integer(i)), p + int_text(i as int).len()),
        ),
{
    let neg = i < 0;
    let mag: nat = if neg {
        (-i) as nat
    } else {
        i as nat
    };
    let t = nat_text(mag);
    let whole = int_text(i as int);
    lemma_nat_text(mag);
    let q0 = if neg {
        p + 1
    } else {
        p
    };
    let end = p + whole.len();
    assert(end == q0 + t.len());
    assert(holds(b, q0, t)) by {
        if neg {
            assert(whole == seq![0x2Du8] + t);
            lemma_holds_split(b, p, seq![0x2Du8], t);
        }
    }
    lemma_holds_at(b, q0, t, 0);
    assert(b[p] == 0x2D <==> neg) by {
        lemma_holds_at(b, p, whole, 0);
    }
    assert forall|k: int| q0 <= k < end implies is_digit(#[trigger] b[k]) by {
        lemma_holds_at(b, q0, t, k - q0);
    }
    if b[q0] != 0x30 {
        lemma_digits_run(b, q0 + 1, end);
    } else {
        assert(mag == 0);
        assert(t.len() == 1);
    }
    assert(b.subrange(q0, end) =~= t);
}

/// Digit runs inside a text that stands in `b` end where they end in the
/// text, when what follows the text is no digit.
proof fn lemma_digits_shift(b: Seq<u8>, p: int, t: Seq<u8>, i: int)
    requires
        holds(b, p, t),
        0 <= i <= t.len(),
        p + t.len() == b.len() || !is_digit(b[p + t.len()]),
    ensures
        digits_end(b, p + i) == p + digits_end(t, i),
    decreases t.len() - i,
{
    if i < t.len() {
        lemma_holds_at(b, p, t, i);
        if is_digit(t[i]) {
            lemma_digits_shift(b, p, t, i + 1);
        }
    }
}

/// A float literal followed by what cannot continue a number is read as
/// the float that `fl` gives for it.
#[verifier::rlimit(40)]
#[verifier::spinoff_prover]
proof fn lemma_float_read(b: Seq<u8>, p: int, t: Seq<u8>, fl: spec_fn(Seq<u8>) -> Option<u64>)
    requires
        float_literal(t),
        holds(b, p, t),
        stops_number(b, p + t.len()),
    ensures
        spec_number(b, p, fl) == match fl(t) {
            Some(bits) => Ok::<(SVal, int), crate::parser::ParseError>(
                (SVal::Number(NumberValue::Float(bits)), p + t.len()),
            ),
            None => Err(crate::parser::perr(crate::parser::ParseErrorKind::InvalidNumber, p)),
        },
{
    let n = t.len() as int;
    let tq0: int = if t[0] == 0x2D {
        1
    } else {
        0
    };
    lemma_holds_at(b, p, t, 0);
    lemma_holds_at(b, p, t, tq0);
    lemma_digits_end(t, tq0 + 1);
    let t_int_end = if t[tq0] == 0x30 {
        tq0 + 1
    } else {
        digits_end(t, tq0 + 1)
    };
    if t[tq0] != 0x30 {
        lemma_digits_shift(b, p, t, tq0 + 1);
    }
    assert(t_int_end <= n);
    let t_has_frac = t_int_end < n && t[t_int_end] == 0x2E;
    if t_int_end < n {
        lemma_holds_at(b, p, t, t_int_end);
    }
    lemma_digits_end(t, t_int_end + 1);
    let t_frac_end = if t_has_frac {
        digits_end(t, t_int_end + 1)
    } else {
        t_int_end
    };
    if t_has_frac {
        lemma_digits_shift(b, p, t, t_int_end + 1);
    }
    let t_has_exp = t_frac_end < n && (t[t_frac_end] == 0x65 || t[t_frac_end] == 0x45);
    if t_frac_end < n {
        lemma_holds_at(b, p, t, t_frac_end);
    }
    if t_frac_end + 1 < n {
        lemma_holds_at(b, p, t, t_frac_end + 1);
    }
    let t_exp_digits = if t_has_exp && t_frac_end + 1 < n && (t[t_frac_end + 1] == 0x2B || t[t_frac_end + 1]
        == 0x2D) {
        t_frac_end + 2
    } else {
        t_frac_end + 1
    };
    if t_has_exp {
        lemma_digits_end(t, t_exp_digits);
        lemma_digits_shift(b, p, t, t_exp_digits);
        assert(t_frac_end + 1 < n);
    }
    assert(b.subrange(p, p + n) =~= t);
}

/// The compact text of items `j..` of an array, each after a comma but the
/// first of all.
pub open spec fn items_from(items: Seq<SVal>, j: int, ft: spec_fn(u64) -> Seq<u8>) -> Seq<u8>
    decreases items.len() - j,
{
    if j < 0 || j >= items.len() {
        Seq::empty()
    } else {
        (if j > 0 {
            seq![0x2Cu8]
        } else {
            Seq::empty()
        }) + spec_emit(items[j], ft) + items_from(items, j + 1, ft)
    }
}

/// The compact text of members `j..` of an object, each after a comma but
/// the first of all.
pub open spec fn pairs_from(pairs: Seq<(Seq<u8>, SVal)>, j: int, ft: spec_fn(u64) -> Seq<u8>) -> Seq<u8>
    decreases pairs.len() - j,
{
    if j < 0 || j >= pairs.len() {
        Seq::empty()
    } else {
        (if j > 0 {
            seq![0x2Cu8]
        } else {
            Seq::empty()
        }) + quoted(pairs[j].0) + seq![0x3Au8] + spec_emit(pairs[j].1, ft) + pairs_from(pairs, j + 1, ft)
    }
}

proof fn lemma_items_from(items: Seq<SVal>, j: int, ft: spec_fn(u64) -> Seq<u8>)
    requires
        0 <= j <= items.len(),
    ensures
        spec_emit_items(items.take(j), ft) + items_from(items, j, ft) == spec_emit_items(items, ft),
    decreases items.len() - j,
{
    if j == items.len() {
        assert(items.take(j) =~= items);
        assert(spec_emit_items(items, ft) + Seq::<u8>::empty() =~= spec_emit_items(items, ft));
    } else {
        lemma_items_from(items, j + 1, ft);
        assert(items.take(j + 1).drop_last() =~= items.take(j));
        assert(items.take(j + 1).last() == items[j]);
        assert(spec_emit_items(items.take(j), ft) + items_from(items, j, ft) =~= spec_emit_items(
            items.take(j + 1),
            ft,
        ) + items_from(items, j + 1, ft));
    }
}

proof fn lemma_pairs_from(pairs: Seq<(Seq<u8>, SVal)>, j: int, ft: spec_fn(u64) -> Seq<u8>)
    requires
        0 <= j <= pairs.len(),
    ensures
        spec_emit_pairs(pairs.take(j), ft) + pairs_from(pairs, j, ft) == spec_emit_pairs(pairs, ft),
    decreases pairs.len() - j,
{
    if j == pairs.len() {
        assert(pairs.take(j) =~= pairs);
        assert(spec_emit_pairs(pairs, ft) + Seq::<u8>::empty() =~= spec_emit_pairs(pairs, ft));
    } else {
        lemma_pairs_from(pairs, j + 1, ft);
        assert(pairs.take(j + 1).drop_last() =~= pairs.take(j));
        assert(pairs.take(j + 1).last() == pairs[j]);
        assert(spec_emit_pairs(pairs.take(j), ft) + pairs_from(pairs, j, ft) =~= spec_emit_pairs(
            pairs.take(j + 1),
            ft,
        ) + pairs_from(pairs, j + 1, ft));
    }
}

pub(crate) proof fn lemma_skip_none(b: Seq<u8>, p: int)
    requires
        0 <= p < b.len(),
        !is_ws(b[p]),
    ensures
        skip_ws(b, p) == p,
{
}

// One step of the grammar at a time, each with what it needs and no more.

proof fn lemma_step_items_more(
    b: Seq<u8>,
    q: int,
    r: int,
    depth: int,
    fl: spec_fn(Seq<u8>) -> Option<u64>,
    acc: Seq<SVal>,
    v: SVal,
    res: (SVal, int),
)
    requires
        spec_value(b, q, depth + 1, fl) == Ok::<(SVal, int), crate::parser::ParseError>((v, r)),
        0 <= q < r < b.len(),
        b[r] == 0x2C,
        r + 1 < b.len(),
        !is_ws(b[r + 1]),
        spec_items(b, r + 1, depth, fl, acc.push(v)) == Ok::<(SVal, int), crate::parser::ParseError>(res),
    ensures
        spec_items(b, q, depth, fl, acc) == Ok::<(SVal, int), crate::parser::ParseError>(res),
{
    lemma_skip_none(b, r);
    lemma_skip_none(b, r + 1);
}

proof fn lemma_step_items_last(
    b: Seq<u8>,
    q: int,
    r: int,
    depth: int,
    fl: spec_fn(Seq<u8>) -> Option<u64>,
    acc: Seq<SVal>,
    v: SVal,
)
    requires
        spec_value(b, q, depth + 1, fl) == Ok::<(SVal, int), crate::parser::ParseError>((v, r)),
        0 <= q < r < b.len(),
        b[r] == 0x5D,
    ensures
        spec_items(b, q, depth, fl, acc) == Ok::<(SVal, int), crate::parser::ParseError>(
            (SVal::Arr(acc.push(v)), r + 1),
        ),
{
    lemma_skip_none(b, r);
}

proof fn lemma_step_members_more(
    b: Seq<u8>,
    q: int,
    c: int,
    r: int,
    depth: int,
    fl: spec_fn(Seq<u8>) -> Option<u64>,
    acc: Seq<(Seq<u8>, SVal)>,
    k: Seq<u8>,
    v: SVal,
    res: (SVal, int),
)
    requires
        0 <= q < c,
        c + 1 < r < b.len(),
        b[q] == 0x22,
        spec_string(b, q) == Ok::<(Seq<u8>, int), crate::parser::ParseError>((k, c)),
        b[c] == 0x3A,
        spec_value(b, c + 1, depth + 1, fl) == Ok::<(SVal, int), crate::parser::ParseError>((v, r)),
        b[r] == 0x2C,
        r + 1 < b.len(),
        !is_ws(b[r + 1]),
        spec_members(b, r + 1, depth, fl, acc.push((k, v))) == Ok::<(SVal, int), crate::parser::ParseError>(res),
    ensures
        spec_members(b, q, depth, fl, acc) == Ok::<(SVal, int), crate::parser::ParseError>(res),
{
    lemma_skip_none(b, c);
    lemma_skip_none(b, r);
    lemma_skip_none(b, r + 1);
}

proof fn lemma_step_members_last(
    b: Seq<u8>,
    q: int,
    c: int,
    r: int,
    depth: int,
    fl: spec_fn(Seq<u8>) -> Option<u64>,
    acc: Seq<(Seq<u8>, SVal)>,
    k: Seq<u8>,
    v: SVal,
)
    requires
        0 <= q < c,
        c + 1 < r < b.len(),
        b[q] == 0x22,
        spec_string(b, q) == Ok::<(Seq<u8>, int), crate::parser::ParseError>((k, c)),
        b[c] == 0x3A,
        spec_value(b, c + 1, depth + 1, fl) == Ok::<(SVal, int), crate::parser::ParseError>((v, r)),
        b[r] == 0x7D,
    ensures
        spec_members(b, q, depth, fl, acc) == Ok::<(SVal, int), crate::parser::ParseError>(
            (SVal::Obj(acc.push((k, v))), r + 1),
        ),
{
    lemma_skip_none(b, c);
    lemma_skip_none(b, r);
}

proof fn lemma_step_array(
    b: Seq<u8>,
    p: int,
    depth: int,
    fl: spec_fn(Seq<u8>) -> Option<u64>,
    res: Result<(SVal, int), crate::parser::ParseError>,
)
    requires
        0 <= depth <= MAX_DEPTH as int,
        0 <= p,
        p + 1 < b.len(),
        b[p] == 0x5B,
        !is_ws(b[p + 1]),
        b[p + 1] == 0x5D ==> res == Ok::<(SVal, int), crate::parser::ParseError>((SVal::Arr(Seq::empty()), p + 2)),
        b[p + 1] != 0x5D ==> spec_items(b, p + 1, depth, fl, Seq::empty()) == res,
    ensures
        spec_value(b, p, depth, fl) == res,
{
    lemma_skip_none(b, p);
    lemma_skip_none(b, p + 1);
}

proof fn lemma_step_object(
    b: Seq<u8>,
    p: int,
    depth: int,
    fl: spec_fn(Seq<u8>) -> Option<u64>,
    res: Result<(SVal, int), crate::parser::ParseError>,
)
    requires
        0 <= depth <= MAX_DEPTH as int,
        0 <= p,
        p + 1 < b.len(),
        b[p] == 0x7B,
        !is_ws(b[p + 1]),
        b[p + 1] == 0x7D ==> res == Ok::<(SVal, int), crate::parser::ParseError>((SVal::Obj(Seq::empty()), p + 2)),
        b[p + 1] != 0x7D ==> spec_members(b, p + 1, depth, fl, Seq::empty()) == res,
    ensures
        spec_value(b, p, depth, fl) == res,
{
    lemma_skip_none(b, p);
    lemma_skip_none(b, p + 1);
}

pub(crate) proof fn lemma_step_scalar(
    m: SVal,
    depth: int,
    b: Seq<u8>,
    p: int,
    fl: spec_fn(Seq<u8>) -> Option<u64>,
    ft: spec_fn(u64) -> Seq<u8>,
)
    requires
        reads_back(m, depth, fl, ft),
        !(m is Arr),
        !(m is Obj),
        holds(b, p, spec_emit(m, ft)),
        stops_number(b, p + spec_emit(m, ft).len()),
    ensures
        spec_value(b, p, depth, fl) == Ok::<(SVal, int), crate::parser::ParseError>(
            (m, p + spec_emit(m, ft).len()),
        ),
{
    let e = spec_emit(m, ft);
    lemma_emit_first(m, depth, fl, ft);
    lemma_holds_at(b, p, e, 0);
    lemma_skip_none(b, p);
    match m {
        SVal::Null => {
            assert(b.subrange(p, p + 4) =~= lit_null());
        },
        SVal::Bool(x) => {
            if x {
                assert(b.subrange(p, p + 4) =~= lit_true());
            } else {
                assert(b.subrange(p, p + 4) != lit_true()) by {
                    assert(b.subrange(p, p + 4)[0] != lit_true()[0]);
                }
                assert(b.subrange(p, p + 5) =~= lit_false());
            }
        },
        SVal::Number(n) => {
            match n {
                NumberValue::Integer(i) => lemma_int_read(b, p, i, fl),
                NumberValue::Float(bits) => lemma_float_read(b, p, ft(bits), fl),
            }
        },
        SVal::Str(st) => {
            lemma_quoted_read(b, p, st);
        },
        _ => {},
    }
}

/// The compact text of a value that [`reads_back`] reads back as that
/// value, wherever it stands and whatever follows it that cannot continue
/// a number.
#[verifier::rlimit(30)]
#[verifier::spinoff_prover]
proof fn lemma_value_read(
    m: SVal,
    depth: int,
    b: Seq<u8>,
    p: int,
    fl: spec_fn(Seq<u8>) -> Option<u64>,
    ft: spec_fn(u64) -> Seq<u8>,
)
    requires
        reads_back(m, depth, fl, ft),
        holds(b, p, spec_emit(m, ft)),
        stops_number(b, p + spec_emit(m, ft).len()),
    ensures
        spec_value(b, p, depth, fl) == Ok::<(SVal, int), crate::parser::ParseError>(
            (m, p + spec_emit(m, ft).len()),
        ),
    decreases m, 0int,
{
    let e = spec_emit(m, ft);
    match m {
        SVal::Arr(items) => {
            lemma_items_from(items, 0, ft);
            assert(items.take(0) =~= Seq::<SVal>::empty());
            assert(spec_emit_items(Seq::<SVal>::empty(), ft) =~= Seq::<u8>::empty());
            let body = items_from(items, 0, ft);
            assert(e =~= seq![0x5Bu8] + (body + seq![0x5Du8]));
            lemma_holds_split(b, p, seq![0x5Bu8], body + seq![0x5Du8]);
            lemma_holds_at(b, p, seq![0x5Bu8], 0);
            lemma_holds_at(b, p + 1, body + seq![0x5Du8], 0);
            if items.len() == 0 {
                assert(body =~= Seq::<u8>::empty());
                assert(items =~= Seq::<SVal>::empty());
                lemma_step_array(b, p, depth, fl, Ok((m, p + 2)));
            } else {
                assert(decreases_to!(m => m->Arr_0));
                assert(reads_back(items[0], depth + 1, fl, ft));
                lemma_emit_first(items[0], depth + 1, fl, ft);
                assert(body =~= spec_emit(items[0], ft) + items_from(items, 1, ft));
                lemma_items_read(items, 0, depth, b, p + 1, fl, ft);
                lemma_step_array(b, p, depth, fl, Ok((m, p + e.len())));
            }
        },
        SVal::Obj(pairs) => {
            lemma_pairs_from(pairs, 0, ft);
            assert(pairs.take(0) =~= Seq::<(Seq<u8>, SVal)>::empty());
            assert(spec_emit_pairs(Seq::<(Seq<u8>, SVal)>::empty(), ft) =~= Seq::<u8>::empty());
            let body = pairs_from(pairs, 0, ft);
            assert(e =~= seq![0x7Bu8] + (body + seq![0x7Du8]));
            lemma_holds_split(b, p, seq![0x7Bu8], body + seq![0x7Du8]);
            lemma_holds_at(b, p, seq![0x7Bu8], 0);
            lemma_holds_at(b, p + 1, body + seq![0x7Du8], 0);
            if pairs.len() == 0 {
                assert(body =~= Seq::<u8>::empty());
                assert(pairs =~= Seq::<(Seq<u8>, SVal)>::empty());
                lemma_step_object(b, p, depth, fl, Ok((m, p + 2)));
            } else {
                assert(decreases_to!(m => m->Obj_0));
                assert(body =~= quoted(pairs[0].0) + seq![0x3Au8] + spec_emit(pairs[0].1, ft) + pairs_from(pairs, 1, ft));
                lemma_pairs_read(pairs, 0, depth, b, p + 1, fl, ft);
                lemma_step_object(b, p, depth, fl, Ok((m, p + e.len())));
            }
        },
        _ => {
            lemma_step_scalar(m, depth, b, p, fl, ft);
        },
    }
}

/// Items `k..` of an array read back, from the start of item `k` through
/// the closing `]`.
#[verifier::rlimit(100)]
#[verifier::spinoff_prover]
proof fn lemma_items_read(
    items: Seq<SVal>,
    k: int,
    depth: int,
    b: Seq<u8>,
    q: int,
    fl: spec_fn(Seq<u8>) -> Option<u64>,
    ft: spec_fn(u64) -> Seq<u8>,
)
    requires
        0 <= k < items.len(),
        0 <= depth,
        forall|j: int| 0 <= j < items.len() ==> reads_back(#[trigger] items[j], depth + 1, fl, ft),
        holds(b, q, spec_emit(items[k], ft) + items_from(items, k + 1, ft) + seq![0x5Du8]),
    ensures
        spec_items(b, q, depth, fl, items.take(k)) == Ok::<(SVal, int), crate::parser::ParseError>(
            (SVal::Arr(items), q + (spec_emit(items[k], ft) + items_from(items, k + 1, ft)).len() + 1),
        ),
    decreases items, items.len() - k,
{
    let e = spec_emit(items[k], ft);
    let rest = items_from(items, k + 1, ft);
    assert(e + rest + seq![0x5Du8] =~= e + (rest + seq![0x5Du8]));
    lemma_holds_split(b, q, e, rest + seq![0x5Du8]);
    lemma_holds_at(b, q + e.len(), rest + seq![0x5Du8], 0);
    let r = q + e.len();
    assert(reads_back(items[k], depth + 1, fl, ft));
    lemma_emit_first(items[k], depth + 1, fl, ft);
    assert(decreases_to!(items => items[k]));
    lemma_value_read(items[k], depth + 1, b, q, fl, ft);
    assert(items.take(k).push(items[k]) =~= items.take(k + 1));
    if k + 1 < items.len() {
        let e2 = spec_emit(items[k + 1], ft);
        let rest2 = items_from(items, k + 2, ft);
        assert(rest =~= seq![0x2Cu8] + e2 + rest2);
        assert(rest + seq![0x5Du8] =~= seq![0x2Cu8] + (e2 + rest2 + seq![0x5Du8]));
        lemma_holds_split(b, r, seq![0x2Cu8], e2 + rest2 + seq![0x5Du8]);
        assert(reads_back(items[k + 1], depth + 1, fl, ft));
        lemma_emit_first(items[k + 1], depth + 1, fl, ft);
        lemma_holds_at(b, r + 1, e2 + rest2 + seq![0x5Du8], 0);
        lemma_items_read(items, k + 1, depth, b, r + 1, fl, ft);
        lemma_step_items_more(
            b,
            q,
            r,
            depth,
            fl,
            items.take(k),
            items[k],
            (SVal::Arr(items), r + 1 + (e2 + rest2).len() + 1),
        );
    } else {
        assert(rest =~= Seq::<u8>::empty());
        assert(items.take(k + 1) =~= items);
        lemma_step_items_last(b, q, r, depth, fl, items.take(k), items[k]);
    }
}

/// Members `k..` of an object read back, from the `"` of member `k`'s key
/// through the closing `}`.
#[verifier::rlimit(100)]
#[verifier::spinoff_prover]
proof fn lemma_pairs_read(
    pairs: Seq<(Seq<u8>, SVal)>,
    k: int,
    depth: int,
    b: Seq<u8>,
    q: int,
    fl: spec_fn(Seq<u8>) -> Option<u64>,
    ft: spec_fn(u64) -> Seq<u8>,
)
    requires
        0 <= k < pairs.len(),
        0 <= depth,
        forall|j: int| 0 <= j < pairs.len() ==> reads_back((#[trigger] pairs[j]).1, depth + 1, fl, ft),
        holds(
            b,
            q,
            quoted(pairs[k].0) + seq![0x3Au8] + spec_emit(pairs[k].1, ft) + pairs_from(pairs, k + 1, ft) + seq![
                0x7Du8,
            ],
        ),
    ensures
        spec_members(b, q, depth, fl, pairs.take(k)) == Ok::<(SVal, int), crate::parser::ParseError>(
            (
                SVal::Obj(pairs),
                q + (quoted(pairs[k].0) + seq![0x3Au8] + spec_emit(pairs[k].1, ft) + pairs_from(pairs, k + 1, ft)).len()
                    + 1,
            ),
        ),
    decreases pairs, pairs.len() - k,
{
    let key = quoted(pairs[k].0);
    let e = spec_emit(pairs[k].1, ft);
    let rest = pairs_from(pairs, k + 1, ft);
    assert(key + seq![0x3Au8] + e + rest + seq![0x7Du8] =~= key + (seq![0x3Au8] + (e + (rest + seq![0x7Du8]))));
    lemma_holds_split(b, q, key, seq![0x3Au8] + (e + (rest + seq![0x7Du8])));
    lemma_holds_at(b, q, key, 0);
    lemma_quoted_read(b, q, pairs[k].0);
    let c = q + key.len();
    lemma_holds_split(b, c, seq![0x3Au8], e + (rest + seq![0x7Du8]));
    lemma_holds_at(b, c, seq![0x3Au8], 0);
    lemma_holds_split(b, c + 1, e, rest + seq![0x7Du8]);
    let r = c + 1 + e.len();
    lemma_holds_at(b, r, rest + seq![0x7Du8], 0);
    assert(reads_back(pairs[k].1, depth + 1, fl, ft));
    lemma_emit_first(pairs[k].1, depth + 1, fl, ft);
    assert(decreases_to!(pairs => pairs[k]));
    assert(decreases_to!(pairs[k] => pairs[k].1));
    lemma_value_read(pairs[k].1, depth + 1, b, c + 1, fl, ft);
    assert(pairs.take(k).push((pairs[k].0, pairs[k].1)) =~= pairs.take(k + 1));
    if k + 1 < pairs.len() {
        let key2 = quoted(pairs[k + 1].0);
        let tail2 = key2 + seq![0x3Au8] + spec_emit(pairs[k + 1].1, ft) + pairs_from(pairs, k + 2, ft);
        assert(rest =~= seq![0x2Cu8] + tail2);
        assert(rest + seq![0x7Du8] =~= seq![0x2Cu8] + (tail2 + seq![0x7Du8]));
        lemma_holds_split(b, r, seq![0x2Cu8], tail2 + seq![0x7Du8]);
        lemma_holds_at(b, r + 1, tail2 + seq![0x7Du8], 0);
        assert(tail2 + seq![0x7Du8] =~= key2 + seq![0x3Au8] + spec_emit(pairs[k + 1].1, ft) + pairs_from(pairs, k + 2, ft)
            + seq![0x7Du8]);
        lemma_pairs_read(pairs, k + 1, depth, b, r + 1, fl, ft);
        lemma_step_members_more(
            b,
            q,
            c,
            r,
            depth,
            fl,
            pairs.take(k),
            pairs[k].0,
            pairs[k].1,
            (SVal::Obj(pairs), r + 1 + tail2.len() + 1),
        );
    } else {
        assert(rest =~= Seq::<u8>::empty());
        assert(pairs.take(k + 1) =~= pairs);
        lemma_step_members_last(b, q, c, r, depth, fl, pairs.take(k), pairs[k].0, pairs[k].1);
    }
}

/// Writing a value as compact JSON and parsing the text back gives the
/// value again, for every value whose floats are finite and written by `ft`
/// as literals that `fl` reads back as the same floats, and nested at most
/// `MAX_DEPTH` levels deep.
pub proof fn law_emit_then_parse(m: SVal, fl: spec_fn(Seq<u8>) -> Option<u64>, ft: spec_fn(u64) -> Seq<u8>)
    requires
        reads_back(m, 0, fl, ft),
    ensures
        spec_parse_document(spec_emit(m, ft), fl) == Ok::<SVal, crate::parser::ParseError>(m),
{
    let e = spec_emit(m, ft);
    lemma_emit_first(m, 0, fl, ft);
    assert(e.subrange(0, e.len() as int) =~= e);
    lemma_skip_none(e, 0);
    lemma_value_read(m, 0, e, 0, fl, ft);
}

/// Any string written as a JSON string literal (quotes around its escaped
/// bytes, as the emitters write every string and key) reads back as the
/// same string, whatever float reader the parser is given.
pub proof fn law_string_literal_reads_back(s: Seq<u8>, fl: spec_fn(Seq<u8>) -> Option<u64>)
    ensures
        spec_parse_document(quoted(s), fl) == Ok::<SVal, crate::parser::ParseError>(SVal::Str(s)),
{
    let ft = |bits: u64| Seq::<u8>::empty();
    assert(spec_emit(SVal::Str(s), ft) == quoted(s));
    law_emit_then_parse(SVal::Str(s), fl, ft);
}

/// Whitespace from `p` up to `q`, and none at `q`: the skip from `p` ends
/// at `q`.
proof fn lemma_skip_run(b: Seq<u8>, p: int, q: int)
    requires
        0 <= p <= q <= b.len(),
        forall|k: int| p <= k < q ==> is_ws(#[trigger] b[k]),
        q == b.len() || !is_ws(b[q]),
    ensures
        skip_ws(b, p) == q,
    decreases q - p,
{
    if p < q {
        lemma_skip_run(b, p + 1, q);
    }
}

/// JSON's four whitespace bytes (space, tab, line feed, carriage return),
/// in any number and any mix, may stand before and after a document without
/// changing what it reads as: the compact text of a value that reads back,
/// so surrounded, still parses to that value.
pub proof fn law_whitespace_around_document(
    m: SVal,
    pre: Seq<u8>,
    post: Seq<u8>,
    fl: spec_fn(Seq<u8>) -> Option<u64>,
    ft: spec_fn(u64) -> Seq<u8>,
)
    requires
        reads_back(m, 0, fl, ft),
        forall|i: int| 0 <= i < pre.len() ==> (#[trigger] pre[i] == 0x20 || pre[i] == 0x09 || pre[i] == 0x0A
            || pre[i] == 0x0D),
        forall|i: int| 0 <= i < post.len() ==> (#[trigger] post[i] == 0x20 || post[i] == 0x09 || post[i] == 0x0A
            || post[i] == 0x0D),
    ensures
        spec_parse_document(pre + spec_emit(m, ft) + post, fl) == Ok::<SVal, crate::parser::ParseError>(m),
{
    let e = spec_emit(m, ft);
    let b = pre + e + post;
    let p = pre.len() as int;
    let q = p + e.len();
    lemma_emit_first(m, 0, fl, ft);
    assert forall|k: int| 0 <= k < p implies is_ws(#[trigger] b[k]) by {
        assert(b[k] == pre[k]);
    }
    assert(b[p] == e[0]);
    lemma_skip_run(b, 0, p);
    assert(b.subrange(p, q) =~= e);
    assert forall|k: int| q <= k < b.len() implies is_ws(#[trigger] b[k]) by {
        assert(b[k] == post[k - q]);
    }
    if q < b.len() {
        assert(b[q] == post[0]);
    }
    lemma_value_read(m, 0, b, p, fl, ft);
    lemma_skip_run(b, q, b.len() as int);
}

} // verus!
