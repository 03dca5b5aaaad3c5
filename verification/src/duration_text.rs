//! Reading back the text form of a duration: the colon form that
//! `DataDuration::to_string` writes is read by `DataDuration::parse` as the
//! same four counts, and so as the same span when that span is a whole
//! number of seconds.

use vstd::prelude::*;

use crate::datetime::{
    apply_part, colon_fields, compact_fields, duration_text, in_i64, int_text_digits, max_span, max_whole_secs, next_colon,
    spec_parse_duration, spec_parse_i64, Fields, all_digits, is_unit_letter,
};
use crate::number::{trunc_div, trunc_rem};
use crate::emit::{int_text, nat_text};
use crate::parser::is_digit;
use crate::roundtrip::lemma_nat_text;

verus! {

/// The text of an `i64` reads back as that `i64`.
proof fn lemma_int_text_reads(i: int)
    requires
        in_i64(i),
    ensures
        spec_parse_i64(int_text(i)) == Some(i as i64),
        forall|k: int| 0 <= k < int_text(i).len() ==> #[trigger] int_text(i)[k] != 0x3A,
        forall|k: int| 0 <= k < int_text(i).len() ==> !is_unit_letter(#[trigger] int_text(i)[k]),
{
    let t = int_text(i);
    if i < 0 {
        let n = (-i) as nat;
        lemma_nat_text(n);
        assert(int_text_digits(t) =~= nat_text(n));
        assert(all_digits(int_text_digits(t)));
        assert forall|k: int| 0 <= k < t.len() implies #[trigger] t[k] != 0x3A && !is_unit_letter(t[k]) by {
            if k > 0 {
                assert(t[k] == nat_text(n)[k - 1]);
            }
        }
    } else {
        let n = i as nat;
        lemma_nat_text(n);
        assert(t[0] != 0x2D && t[0] != 0x2B);
        assert(int_text_digits(t) =~= nat_text(n));
    }
}

/// With no `:` in `b[i..j]` and one at `j` (or `j` the end), the next `:`
/// from `i` is at `j`.
proof fn lemma_next_colon_at(b: Seq<u8>, i: int, j: int)
    requires
        0 <= i <= j <= b.len(),
        forall|k: int| i <= k < j ==> b[k] != 0x3A,
        j == b.len() || b[j] == 0x3A,
    ensures
        next_colon(b, i) == j,
    decreases j - i,
{
    if i < j {
        lemma_next_colon_at(b, i + 1, j);
    }
}

/// `next_colon` on `x + y` from inside `y` is `next_colon` on `y`, moved.
proof fn lemma_next_colon_shift(x: Seq<u8>, y: Seq<u8>, i: int)
    requires
        0 <= i <= y.len(),
    ensures
        next_colon(x + y, x.len() + i) == x.len() + next_colon(y, i),
    decreases y.len() - i,
{
    if i < y.len() {
        assert((x + y)[x.len() + i] == y[i]);
        if y[i] != 0x3A {
            lemma_next_colon_shift(x, y, i + 1);
        }
    }
}

/// Reading the colon form of `x + y` from inside `y` is reading `y`.
proof fn lemma_colon_fields_shift(x: Seq<u8>, y: Seq<u8>, i: int, f: Fields)
    requires
        0 <= i <= y.len(),
    ensures
        colon_fields(x + y, x.len() + i, f) == colon_fields(y, i, f),
    decreases y.len() - i,
{
    let b = x + y;
    let s = x.len() + i;
    lemma_next_colon_shift(x, y, i);
    let end_y = next_colon(y, i);
    lemma_next_colon_bounds(y, i);
    assert(b.subrange(s, x.len() + end_y) =~= y.subrange(i, end_y));
    match apply_part(y.subrange(i, end_y), f) {
        None => {},
        Some(g) => {
            if end_y < y.len() {
                lemma_colon_fields_shift(x, y, end_y + 1, g);
            }
        },
    }
}

proof fn lemma_next_colon_bounds(b: Seq<u8>, i: int)
    requires
        0 <= i <= b.len(),
    ensures
        i <= next_colon(b, i) <= b.len(),
        forall|k: int| i <= k < next_colon(b, i) ==> b[k] != 0x3A,
        next_colon(b, i) == b.len() || b[next_colon(b, i)] == 0x3A,
    decreases b.len() - i,
{
    if i < b.len() && b[i] != 0x3A {
        lemma_next_colon_bounds(b, i + 1);
    }
}

/// A part with a final unit letter after the text of an `i64` sets that
/// count.
proof fn lemma_apply_unit(v: int, unit: u8, f: Fields)
    requires
        in_i64(v),
        is_unit_letter(unit),
    ensures
        apply_part(int_text(v) + seq![unit], f) == Some(
            if unit == 0x64 {
                (v as i64, f.1, f.2, f.3)
            } else if unit == 0x68 {
                (f.0, v as i64, f.2, f.3)
            } else if unit == 0x6D {
                (f.0, f.1, v as i64, f.3)
            } else {
                (f.0, f.1, f.2, v as i64)
            },
        ),
{
    let p = int_text(v) + seq![unit];
    assert(p.drop_last() =~= int_text(v));
    lemma_int_text_reads(v);
}

/// A colon-free part followed by `:` and the rest: the part is applied and
/// the rest read from there.
proof fn lemma_colon_step(p: Seq<u8>, r: Seq<u8>, f: Fields)
    requires
        forall|k: int| 0 <= k < p.len() ==> p[k] != 0x3A,
    ensures
        colon_fields(p + seq![0x3Au8] + r, 0, f) == match apply_part(p, f) {
            None => None,
            Some(g) => colon_fields(r, 0, g),
        },
{
    let b = p + seq![0x3Au8] + r;
    lemma_next_colon_at(b, 0, p.len() as int);
    assert(b.subrange(0, p.len() as int) =~= p);
    assert(b =~= (p + seq![0x3Au8]) + r);
    lemma_colon_fields_shift(p + seq![0x3Au8], r, 0, match apply_part(p, f) {
        None => f,
        Some(g) => g,
    });
}

/// A colon-free text is read as a single part.
proof fn lemma_colon_last(p: Seq<u8>, f: Fields)
    requires
        forall|k: int| 0 <= k < p.len() ==> p[k] != 0x3A,
    ensures
        colon_fields(p, 0, f) == apply_part(p, f),
{
    lemma_next_colon_at(p, 0, p.len() as int);
    assert(p.subrange(0, p.len() as int) =~= p);
}

/// Truncating division and remainder by `q` are those of the magnitude,
/// with the sign of `t`.
proof fn lemma_trunc(t: int, q: int)
    requires
        q > 0,
    ensures
        trunc_div(t, q) == (if t < 0 {
            -((-t) / q)
        } else {
            t / q
        }),
        trunc_rem(t, q) == (if t < 0 {
            -((-t) % q)
        } else {
            t % q
        }),
{
    if t < 0 {
        vstd::arithmetic::div_mod::lemma_fundamental_div_mod(-t, q);
        vstd::arithmetic::mul::lemma_mul_is_commutative((-t) / q, q);
        assert(trunc_div(t, q) * q == -(((-t) / q) * q)) by {
            vstd::arithmetic::mul::lemma_mul_unary_negation((-t) / q, q);
        }
    } else {
        vstd::arithmetic::div_mod::lemma_fundamental_div_mod(t, q);
        vstd::arithmetic::mul::lemma_mul_is_commutative(t / q, q);
    }
}

/// The counts of a span of `m >= 0` whole seconds put back together give
/// `m`, and each is in its range.
proof fn lemma_counts_nat(m: int)
    requires
        m >= 0,
    ensures
        (m / 86_400) * 86_400 + ((m % 86_400) / 3_600) * 3_600 + ((m % 3_600) / 60) * 60 + m % 60 == m,
        0 <= (m / 86_400) * 86_400 <= m,
        0 <= (m % 86_400) / 3_600 < 24,
        0 <= (m % 3_600) / 60 < 60,
        0 <= m % 60 < 60,
        (m % 86_400) % 3_600 == m % 3_600,
{
    vstd::arithmetic::div_mod::lemma_mod_mod(m, 3_600, 24);
    vstd::arithmetic::div_mod::lemma_mod_mod(m, 60, 60);
    vstd::arithmetic::div_mod::lemma_fundamental_div_mod(m, 86_400);
    vstd::arithmetic::div_mod::lemma_fundamental_div_mod(m % 86_400, 3_600);
    vstd::arithmetic::div_mod::lemma_fundamental_div_mod(m % 3_600, 60);
    vstd::arithmetic::div_mod::lemma_mod_bound(m, 86_400);
    vstd::arithmetic::div_mod::lemma_mod_bound(m, 3_600);
    vstd::arithmetic::div_mod::lemma_mod_bound(m, 60);
    vstd::arithmetic::div_mod::lemma_div_pos_is_pos(m, 86_400);
    vstd::arithmetic::div_mod::lemma_div_pos_is_pos(m % 86_400, 3_600);
    vstd::arithmetic::div_mod::lemma_div_pos_is_pos(m % 3_600, 60);
    assert((m % 86_400) / 3_600 < 24) by {
        vstd::arithmetic::div_mod::lemma_div_by_multiple_is_strongly_ordered(m % 86_400, 86_400, 24, 3_600);
    }
    assert((m % 3_600) / 60 < 60) by {
        vstd::arithmetic::div_mod::lemma_div_by_multiple_is_strongly_ordered(m % 3_600, 3_600, 60, 60);
    }
    assert(m % 3_600 % 60 == m % 60);
}

/// The counts of a span of `t` whole seconds put back together give `t`.
proof fn lemma_counts_sum(t: int)
    ensures
        trunc_div(t, 86_400) * 86_400 + trunc_div(trunc_rem(t, 86_400), 3_600) * 3_600 + trunc_div(
            trunc_rem(t, 3_600),
            60,
        ) * 60 + trunc_rem(t, 60) == t,
        -24 < trunc_div(trunc_rem(t, 86_400), 3_600) < 24,
        -60 < trunc_div(trunc_rem(t, 3_600), 60) < 60,
        -60 < trunc_rem(t, 60) < 60,
        t >= 0 ==> 0 <= trunc_div(t, 86_400) * 86_400 <= t,
        t < 0 ==> t <= trunc_div(t, 86_400) * 86_400 <= 0,
{
    let m = if t < 0 {
        -t
    } else {
        t
    };
    lemma_counts_nat(m);
    lemma_trunc(t, 86_400);
    lemma_trunc(t, 3_600);
    lemma_trunc(t, 60);
    lemma_trunc(trunc_rem(t, 86_400), 3_600);
    lemma_trunc(trunc_rem(t, 3_600), 60);
    if t < 0 {
        assert(trunc_div(trunc_rem(t, 86_400), 3_600) == -((m % 86_400) / 3_600));
        assert(trunc_div(trunc_rem(t, 3_600), 60) == -((m % 3_600) / 60));
        assert(trunc_rem(t, 60) == -(m % 60));
        assert(trunc_div(t, 86_400) == -(m / 86_400));
        assert(trunc_div(t, 86_400) * 86_400 == -((m / 86_400) * 86_400));
    }
}

/// The colon form with the four counts `a`, `h`, `m`, `s`.
spec fn four_parts(a: int, h: int, m: int, s: int) -> Seq<u8> {
    int_text(a) + seq![0x64u8, 0x3Au8] + int_text(h) + seq![0x68u8, 0x3Au8] + int_text(m) + seq![0x6Du8, 0x3Au8]
        + int_text(s) + seq![0x73u8]
}

/// A unit part holds no `:`.
proof fn lemma_part_colon_free(v: int, unit: u8)
    requires
        in_i64(v),
        is_unit_letter(unit),
    ensures
        forall|k: int| 0 <= k < (int_text(v) + seq![unit]).len() ==> (int_text(v) + seq![unit])[k] != 0x3A,
{
    lemma_int_text_reads(v);
    let p = int_text(v) + seq![unit];
    assert forall|k: int| 0 <= k < p.len() implies p[k] != 0x3A by {
        if k < int_text(v).len() {
            assert(p[k] == int_text(v)[k]);
        }
    }
}

/// The colon form of four counts reads back as those counts.
#[verifier::rlimit(30)]
proof fn lemma_four_parts(a: int, h: int, m: int, s: int)
    requires
        in_i64(a),
        in_i64(h),
        in_i64(m),
        in_i64(s),
    ensures
        colon_fields(four_parts(a, h, m, s), 0, (0, 0, 0, 0)) == Some::<Fields>(
            (a as i64, h as i64, m as i64, s as i64),
        ),
{
    let pa = int_text(a) + seq![0x64u8];
    let ph = int_text(h) + seq![0x68u8];
    let pm = int_text(m) + seq![0x6Du8];
    let ps = int_text(s) + seq![0x73u8];
    let r2 = pm + seq![0x3Au8] + ps;
    let r1 = ph + seq![0x3Au8] + r2;
    assert(four_parts(a, h, m, s) =~= pa + seq![0x3Au8] + r1);
    lemma_part_colon_free(a, 0x64);
    lemma_part_colon_free(h, 0x68);
    lemma_part_colon_free(m, 0x6D);
    lemma_part_colon_free(s, 0x73);
    let f0: Fields = (0, 0, 0, 0);
    let f1: Fields = (a as i64, 0, 0, 0);
    let f2: Fields = (a as i64, h as i64, 0, 0);
    let f3: Fields = (a as i64, h as i64, m as i64, 0);
    lemma_apply_unit(a, 0x64, f0);
    lemma_apply_unit(h, 0x68, f1);
    lemma_apply_unit(m, 0x6D, f2);
    lemma_apply_unit(s, 0x73, f3);
    lemma_colon_step(pa, r1, f0);
    lemma_colon_step(ph, r2, f1);
    lemma_colon_step(pm, ps, f2);
    lemma_colon_last(ps, f3);
}

/// The text of a duration of whole seconds reads back as that duration.
pub(crate) proof fn lemma_duration_text_round_trip(n: int)
    requires
        -max_span() <= n <= max_span(),
        n % 1_000_000_000 == 0,
    ensures
        spec_parse_duration(duration_text(n)) == Some(n),
{
    let b = duration_text(n);
    let t = trunc_div(n, 1_000_000_000);
    let q = n / 1_000_000_000;
    vstd::arithmetic::div_mod::lemma_fundamental_div_mod(n, 1_000_000_000);
    assert(n == 1_000_000_000 * q);
    if n < 0 {
        assert(-n == 1_000_000_000 * (-q));
        vstd::arithmetic::div_mod::lemma_div_multiples_vanish(-q, 1_000_000_000);
    } else {
        vstd::arithmetic::div_mod::lemma_div_multiples_vanish(q, 1_000_000_000);
    }
    assert(t == q);
    assert(t * 1_000_000_000 == n);
    assert(-max_whole_secs() <= t <= max_whole_secs()) by (nonlinear_arith)
        requires
            -max_span() <= n <= max_span(),
            t * 1_000_000_000 == n,
    ;
    lemma_counts_sum(t);
    let a = trunc_div(t, 86_400);
    let h = trunc_div(trunc_rem(t, 86_400), 3_600);
    let m = trunc_div(trunc_rem(t, 3_600), 60);
    let s = trunc_rem(t, 60);
    assert(b =~= four_parts(a, h, m, s));
    lemma_four_parts(a, h, m, s);
    lemma_int_text_reads(a);
    // The text has a `:`, and a unit letter right after the day count.
    let k = int_text(a).len() as int;
    assert(b[k] == 0x64u8);
    assert(b[k + 1] == 0x3Au8);
    assert(exists|i: int| 0 <= i < b.len() && b[i] == 0x3A);
    assert(exists|i: int| 0 <= i < b.len() && is_unit_letter(b[i]));
}

/// A unit of the compact form: the count's digits then the unit letter,
/// or nothing for a unit left out.
pub open spec fn compact_unit(count: Option<nat>, unit: u8) -> Seq<u8> {
    match count {
        Some(n) => nat_text(n).push(unit),
        None => Seq::empty(),
    }
}

/// The count a unit stands for: zero when left out.
pub open spec fn unit_count(count: Option<nat>) -> int {
    match count {
        Some(n) => n as int,
        None => 0,
    }
}

/// The counts with the one that `unit` names replaced by `n`.
spec fn set_unit(f: Fields, unit: u8, n: int) -> Fields {
    if unit == 0x64 {
        (n as i64, f.1, f.2, f.3)
    } else if unit == 0x68 {
        (f.0, n as i64, f.2, f.3)
    } else if unit == 0x6D {
        (f.0, f.1, n as i64, f.3)
    } else {
        (f.0, f.1, f.2, n as i64)
    }
}

/// Digits from `k` to `e` are passed over: the reading from `k` is the
/// reading from `e`, with the same run start.
proof fn lemma_compact_digits(b: Seq<u8>, k: int, e: int, run: int, f: Fields)
    requires
        0 <= run <= k <= e < b.len(),
        forall|i: int| k <= i < e ==> is_digit(#[trigger] b[i]),
    ensures
        compact_fields(b, k, run, f) == compact_fields(b, e, run, f),
    decreases e - k,
{
    if k < e {
        lemma_compact_digits(b, k + 1, e, run, f);
    }
}

/// One unit of the compact form, `x + digits(n) + unit + y`, read from
/// its start sets that unit's count to `n` and goes on after the letter.
proof fn lemma_compact_unit(x: Seq<u8>, n: nat, unit: u8, y: Seq<u8>, f: Fields)
    requires
        is_unit_letter(unit),
        n <= i64::MAX,
    ensures
        compact_fields(x + nat_text(n).push(unit) + y, x.len() as int, x.len() as int, f) == compact_fields(
            x + nat_text(n).push(unit) + y,
            (x.len() + nat_text(n).len() + 1) as int,
            (x.len() + nat_text(n).len() + 1) as int,
            set_unit(f, unit, n as int),
        ),
{
    let t = nat_text(n);
    let b = x + t.push(unit) + y;
    let p = x.len() as int;
    let e = p + t.len();
    lemma_nat_text(n);
    lemma_int_text_reads(n as int);
    assert(int_text(n as int) == t);
    assert forall|i: int| p <= i < e implies is_digit(#[trigger] b[i]) by {
        assert(b[i] == t[i - p]);
    }
    assert(b[e] == unit);
    assert(!is_digit(unit));
    lemma_compact_digits(b, p, e, p, f);
    assert(b.subrange(p, e) =~= t);
}

/// The bytes of a unit are digits and its letter: no `:`.
proof fn lemma_compact_unit_bytes(count: Option<nat>, unit: u8)
    requires
        is_unit_letter(unit),
    ensures
        forall|k: int| 0 <= k < compact_unit(count, unit).len() ==> #[trigger] compact_unit(count, unit)[k] != 0x3A,
{
    if let Some(n) = count {
        lemma_nat_text(n);
        assert forall|k: int| 0 <= k < compact_unit(count, unit).len() implies #[trigger] compact_unit(count, unit)[k]
            != 0x3A by {
            if k < nat_text(n).len() {
                assert(is_digit(nat_text(n)[k]));
            }
        }
    }
}

/// A unit, read from where it stands in `x + unit + y`, sets its count
/// (or nothing, when left out) and goes on after it.
proof fn lemma_compact_unit_opt(x: Seq<u8>, count: Option<nat>, unit: u8, y: Seq<u8>, f: Fields)
    requires
        is_unit_letter(unit),
        unit_count(count) <= i64::MAX,
    ensures
        compact_fields(x + compact_unit(count, unit) + y, x.len() as int, x.len() as int, f) == compact_fields(
            x + compact_unit(count, unit) + y,
            (x.len() + compact_unit(count, unit).len()) as int,
            (x.len() + compact_unit(count, unit).len()) as int,
            match count {
                Some(n) => set_unit(f, unit, n as int),
                None => f,
            },
        ),
{
    if let Some(n) = count {
        lemma_compact_unit(x, n, unit, y, f);
    }
}

/// The text of the compact form with these units.
pub open spec fn compact_text(d: Option<nat>, h: Option<nat>, m: Option<nat>, s: Option<nat>) -> Seq<u8> {
    compact_unit(d, 0x64) + compact_unit(h, 0x68) + compact_unit(m, 0x6D) + compact_unit(s, 0x73)
}

/// Reading the compact form sets each unit given to its count and leaves
/// the others zero.
proof fn lemma_compact_text_fields(d: Option<nat>, h: Option<nat>, m: Option<nat>, s: Option<nat>)
    requires
        unit_count(d) <= i64::MAX,
        unit_count(h) <= i64::MAX,
        unit_count(m) <= i64::MAX,
        unit_count(s) <= i64::MAX,
    ensures
        compact_fields(compact_text(d, h, m, s), 0, 0, (0, 0, 0, 0)) == Some(
            (unit_count(d) as i64, unit_count(h) as i64, unit_count(m) as i64, unit_count(s) as i64),
        ),
{
    let ud = compact_unit(d, 0x64);
    let uh = compact_unit(h, 0x68);
    let um = compact_unit(m, 0x6D);
    let us = compact_unit(s, 0x73);
    let b = compact_text(d, h, m, s);
    let zero: Fields = (0, 0, 0, 0);
    let f1: Fields = match d {
        Some(n) => set_unit(zero, 0x64, n as int),
        None => zero,
    };
    let f2: Fields = match h {
        Some(n) => set_unit(f1, 0x68, n as int),
        None => f1,
    };
    let f3: Fields = match m {
        Some(n) => set_unit(f2, 0x6D, n as int),
        None => f2,
    };
    let f4: Fields = match s {
        Some(n) => set_unit(f3, 0x73, n as int),
        None => f3,
    };
    assert(b =~= Seq::<u8>::empty() + ud + (uh + um + us));
    lemma_compact_unit_opt(Seq::<u8>::empty(), d, 0x64, uh + um + us, zero);
    assert(b =~= ud + uh + (um + us));
    lemma_compact_unit_opt(ud, h, 0x68, um + us, f1);
    assert(b =~= (ud + uh) + um + us);
    lemma_compact_unit_opt(ud + uh, m, 0x6D, us, f2);
    assert(b =~= (ud + uh + um) + us + Seq::<u8>::empty());
    lemma_compact_unit_opt(ud + uh + um, s, 0x73, Seq::<u8>::empty(), f3);
}

/// The compact form holds no `:`, and a unit letter where any unit is
/// given.
proof fn lemma_compact_text_bytes(d: Option<nat>, h: Option<nat>, m: Option<nat>, s: Option<nat>)
    requires
        d is Some || h is Some || m is Some || s is Some,
    ensures
        !(exists|i: int| 0 <= i < compact_text(d, h, m, s).len() && compact_text(d, h, m, s)[i] == 0x3A),
        exists|i: int|
            0 <= i < compact_text(d, h, m, s).len() && is_unit_letter(#[trigger] compact_text(d, h, m, s)[i]),
{
    let ud = compact_unit(d, 0x64);
    let uh = compact_unit(h, 0x68);
    let um = compact_unit(m, 0x6D);
    let us = compact_unit(s, 0x73);
    let b = compact_text(d, h, m, s);
    lemma_compact_unit_bytes(d, 0x64);
    lemma_compact_unit_bytes(h, 0x68);
    lemma_compact_unit_bytes(m, 0x6D);
    lemma_compact_unit_bytes(s, 0x73);
    assert forall|i: int| 0 <= i < b.len() implies #[trigger] b[i] != 0x3A by {
        if i < ud.len() {
            assert(b[i] == ud[i]);
        } else if i < ud.len() + uh.len() {
            assert(b[i] == uh[i - ud.len()]);
        } else if i < ud.len() + uh.len() + um.len() {
            assert(b[i] == um[i - ud.len() - uh.len()]);
        } else {
            assert(b[i] == us[i - ud.len() - uh.len() - um.len()]);
        }
    }
    if d is Some {
        assert(is_unit_letter(b[ud.len() - 1]));
    } else if h is Some {
        assert(is_unit_letter(b[ud.len() + uh.len() - 1]));
    } else if m is Some {
        assert(is_unit_letter(b[ud.len() + uh.len() + um.len() - 1]));
    } else {
        assert(is_unit_letter(b[b.len() - 1]));
    }
}

/// The compact form adds up its units: text written as the count of days
/// then `d`, of hours then `h`, of minutes then `m` and of seconds then
/// `s`, any of them left out but not all, parses (`DataDuration::parse`) as
/// `86400 d + 3600 h + 60 m + s` seconds, when that total fits a duration.
pub proof fn law_compact_duration_adds_units(d: Option<nat>, h: Option<nat>, m: Option<nat>, s: Option<nat>)
    requires
        d is Some || h is Some || m is Some || s is Some,
        86_400 * unit_count(d) + 3_600 * unit_count(h) + 60 * unit_count(m) + unit_count(s) <= max_whole_secs(),
    ensures
        spec_parse_duration(
            compact_unit(d, 0x64) + compact_unit(h, 0x68) + compact_unit(m, 0x6D) + compact_unit(s, 0x73),
        ) == Some(
            (86_400 * unit_count(d) + 3_600 * unit_count(h) + 60 * unit_count(m) + unit_count(s)) * 1_000_000_000,
        ),
{
    let cd = unit_count(d);
    let ch = unit_count(h);
    let cm = unit_count(m);
    let cs = unit_count(s);
    assert(0 <= cd && 0 <= ch && 0 <= cm && 0 <= cs);
    assert(max_whole_secs() < i64::MAX);
    lemma_compact_text_fields(d, h, m, s);
    lemma_compact_text_bytes(d, h, m, s);
}

} // verus!
