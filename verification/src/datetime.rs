//! `DataDuration`, a signed span of time as `chrono::TimeDelta` holds it,
//! with the `"1d:2h:3m:4s"` text form that values carry it in; and
//! `DataDateTime`, a UTC instant that remembers the offset of the text it
//! was read from. The calendar work is `chrono`'s.

use chrono::{Datelike, Timelike};
use core::fmt::Write;
use vstd::prelude::*;
use vstd::string::StringSliceAdditionalSpecFns;

use crate::emit::{append_bytes, int_text, itoa_text, lemma_int_text_ascii, text_to_string};
use crate::text::lemma_ascii_valid;
use crate::number::{trunc_div, trunc_rem};
use crate::parser::{decimal_value, is_digit};

verus! {

/// The longest span either way, in nanoseconds: `i64::MAX` milliseconds.
pub open spec fn max_span() -> int {
    9_223_372_036_854_775_807int * 1_000_000int
}

/// A signed span of time to the nanosecond, at most `i64::MAX`
/// milliseconds either way: whole seconds and a nanosecond part in
/// `0..10^9` that adds to them.
#[derive(Debug, Clone, Copy, PartialEq, Eq, Structural, PartialOrd, Ord)]
pub struct DataDuration {
    secs: i64,
    nanos: i32,
}

impl View for DataDuration {
    type V = int;

    /// The span in nanoseconds.
    closed spec fn view(&self) -> int {
        self.secs * 1_000_000_000 + self.nanos
    }
}

impl DataDuration {
    #[verifier::type_invariant]
    spec fn well_formed(self) -> bool {
        &&& 0 <= self.nanos < 1_000_000_000
        &&& -max_span() <= self.secs * 1_000_000_000 + self.nanos <= max_span()
    }
}

/// The most whole seconds a duration can hold either way.
pub open spec fn max_whole_secs() -> int {
    9_223_372_036_854_775
}

impl DataDuration {
    /// The longest span, `i64::MAX` milliseconds.
    pub fn span_max() -> (r: Self)
        ensures
            r@ == max_span(),
    {
        DataDuration { secs: 9_223_372_036_854_775, nanos: 807_000_000 }
    }

    /// The longest negative span, `-i64::MAX` milliseconds.
    pub fn span_min() -> (r: Self)
        ensures
            r@ == -max_span(),
    {
        DataDuration { secs: -9_223_372_036_854_776, nanos: 193_000_000 }
    }

    /// A span of whole seconds, when it is in range.
    pub fn try_seconds(seconds: i64) -> (r: Option<Self>)
        ensures
            r is Some <==> -max_whole_secs() <= seconds <= max_whole_secs(),
            r matches Some(d) ==> d@ == seconds * 1_000_000_000,
    {
        if seconds < -9_223_372_036_854_775 || seconds > 9_223_372_036_854_775 {
            None
        } else {
            Some(DataDuration { secs: seconds, nanos: 0 })
        }
    }

    /// The whole seconds of the span, rounded toward zero.
    pub fn num_seconds(&self) -> (r: i64)
        ensures
            r == trunc_div(self@, 1_000_000_000),
    {
        proof {
            use_type_invariant(self);
        }
        let r = if self.secs < 0 && self.nanos > 0 {
            self.secs + 1
        } else {
            self.secs
        };
        assert(r == trunc_div(self@, 1_000_000_000)) by (nonlinear_arith)
            requires
                0 <= self.nanos < 1_000_000_000,
                r == (if self.secs < 0 && self.nanos > 0 {
                    self.secs + 1
                } else {
                    self.secs as int
                }),
        ;
        r
    }

    /// The sum of two spans, when it is in range.
    pub fn checked_add(&self, other: &Self) -> (r: Option<Self>)
        ensures
            r is Some <==> -max_span() <= self@ + other@ <= max_span(),
            r matches Some(d) ==> d@ == self@ + other@,
    {
        proof {
            use_type_invariant(self);
            use_type_invariant(other);
        }
        let mut secs = self.secs + other.secs;
        let mut nanos = self.nanos + other.nanos;
        if nanos >= 1_000_000_000 {
            nanos -= 1_000_000_000;
            secs += 1;
        }
        let total: i128 = secs as i128 * 1_000_000_000 + nanos as i128;
        if total < -9_223_372_036_854_775_807_000_000i128 || total > 9_223_372_036_854_775_807_000_000i128 {
            None
        } else {
            Some(DataDuration { secs, nanos })
        }
    }

    /// The difference of two spans, when it is in range.
    pub fn checked_sub(&self, other: &Self) -> (r: Option<Self>)
        ensures
            r is Some <==> -max_span() <= self@ - other@ <= max_span(),
            r matches Some(d) ==> d@ == self@ - other@,
    {
        proof {
            use_type_invariant(self);
            use_type_invariant(other);
        }
        let mut secs = self.secs - other.secs;
        let mut nanos = self.nanos - other.nanos;
        if nanos < 0 {
            nanos += 1_000_000_000;
            secs -= 1;
        }
        let total: i128 = secs as i128 * 1_000_000_000 + nanos as i128;
        if total < -9_223_372_036_854_775_807_000_000i128 || total > 9_223_372_036_854_775_807_000_000i128 {
            None
        } else {
            Some(DataDuration { secs, nanos })
        }
    }

    /// The sum; on overflow the longest span of the sign of whichever
    /// operand has a positive number of whole seconds, or else the longest
    /// negative span.
    pub fn add(&self, other: &Self) -> (r: Self)
        ensures
            r@ == if -max_span() <= self@ + other@ <= max_span() {
                self@ + other@
            } else if trunc_div(self@, 1_000_000_000) > 0 || trunc_div(other@, 1_000_000_000) > 0 {
                max_span()
            } else {
                -max_span()
            },
    {
        match self.checked_add(other) {
            Some(d) => d,
            None => if self.num_seconds() > 0 || other.num_seconds() > 0 {
                DataDuration::span_max()
            } else {
                DataDuration::span_min()
            },
        }
    }

    /// The difference; on overflow the longest span whose sign says which
    /// operand has more whole seconds.
    pub fn sub(&self, other: &Self) -> (r: Self)
        ensures
            r@ == if -max_span() <= self@ - other@ <= max_span() {
                self@ - other@
            } else if trunc_div(self@, 1_000_000_000) > trunc_div(other@, 1_000_000_000) {
                max_span()
            } else {
                -max_span()
            },
    {
        match self.checked_sub(other) {
            Some(d) => d,
            None => if self.num_seconds() > other.num_seconds() {
                DataDuration::span_max()
            } else {
                DataDuration::span_min()
            },
        }
    }
}

// ---------------------------------------------------------------------------
// Reading the text form.
// ---------------------------------------------------------------------------

pub open spec fn in_i64(x: int) -> bool {
    i64::MIN <= x <= i64::MAX
}

/// The digits of an integer's text: what follows its sign, if it has one.
pub open spec fn int_text_digits(t: Seq<u8>) -> Seq<u8> {
    if t.len() > 0 && (t[0] == 0x2D || t[0] == 0x2B) {
        t.drop_first()
    } else {
        t
    }
}

/// All of `s` are decimal digits, and there is at least one.
pub open spec fn all_digits(s: Seq<u8>) -> bool {
    s.len() > 0 && forall|i: int| 0 <= i < s.len() ==> is_digit(#[trigger] s[i])
}

/// A decimal integer as the standard library reads one: an optional `+`
/// or `-`, then one or more digits, with a value that fits an `i64`.
pub open spec fn spec_parse_i64(t: Seq<u8>) -> Option<i64> {
    let v = if t.len() > 0 && t[0] == 0x2D {
        -decimal_value(int_text_digits(t))
    } else {
        decimal_value(int_text_digits(t))
    };
    if all_digits(int_text_digits(t)) && in_i64(v) {
        Some(v as i64)
    } else {
        None
    }
}

proof fn lemma_decimal_prefix(s: Seq<u8>, j: int)
    requires
        0 <= j <= s.len(),
        forall|i: int| 0 <= i < s.len() ==> is_digit(#[trigger] s[i]),
    ensures
        0 <= decimal_value(s.take(j)) <= decimal_value(s),
    decreases s.len() - j,
{
    if j < s.len() {
        lemma_decimal_prefix(s, j + 1);
        assert(s.take(j + 1).drop_last() =~= s.take(j));
    } else {
        assert(s.take(j) =~= s);
    }
    lemma_decimal_nonneg(s.take(j));
}

proof fn lemma_decimal_nonneg(s: Seq<u8>)
    requires
        forall|i: int| 0 <= i < s.len() ==> is_digit(#[trigger] s[i]),
    ensures
        decimal_value(s) >= 0,
    decreases s.len(),
{
    if s.len() > 0 {
        lemma_decimal_nonneg(s.drop_last());
    }
}

/// Reads `t` as an `i64` the way `str::parse::<i64>` does.
#[verifier::rlimit(40)]
#[verifier::spinoff_prover]
fn parse_i64(t: &[u8]) -> (r: Option<i64>)
    ensures
        r == spec_parse_i64(t@),
{
    let n = t.len();
    if n == 0 {
        return None;
    }
    let neg = t[0] == 0x2D;
    let start: usize = if t[0] == 0x2D || t[0] == 0x2B {
        1
    } else {
        0
    };
    let ghost digits = t@.subrange(start as int, n as int);
    assert(digits =~= int_text_digits(t@));
    if start == n {
        return None;
    }
    let mut acc: i64 = 0;
    let mut i: usize = start;
    while i < n
        invariant
            start <= i <= n,
            n == t@.len(),
            start < n,
            digits == t@.subrange(start as int, n as int),
            digits == int_text_digits(t@),
            neg == (t@.len() > 0 && t@[0] == 0x2D),
            forall|k: int| 0 <= k < i - start ==> is_digit(#[trigger] digits[k]),
            acc == (if neg {
                -decimal_value(digits.take(i - start))
            } else {
                decimal_value(digits.take(i - start))
            }),
        decreases n - i,
    {
        let c = t[i];
        if !(c >= 0x30 && c <= 0x39) {
            assert(!is_digit(digits[i - start]));
            assert(!all_digits(digits));
            return None;
        }
        let d = (c - 0x30) as i64;
        let ghost k = (i - start) as int;
        assert(digits.take(k + 1).drop_last() =~= digits.take(k));
        assert(digits[k] == c);
        let next = if neg {
            match acc.checked_mul(10) {
                Some(m) => m.checked_sub(d),
                None => None,
            }
        } else {
            match acc.checked_mul(10) {
                Some(m) => m.checked_add(d),
                None => None,
            }
        };
        match next {
            Some(v) => {
                acc = v;
            },
            None => {
                proof {
                    if all_digits(digits) {
                        lemma_decimal_prefix(digits, k + 1);
                        lemma_decimal_prefix(digits, k);
                        if neg {
                            assert(!in_i64(-decimal_value(digits)));
                        } else {
                            assert(!in_i64(decimal_value(digits)));
                        }
                    }
                }
                return None;
            },
        }
        i += 1;
    }
    assert(digits.take(n - start) =~= digits);
    Some(acc)
}

/// The day, hour, minute and second counts of a duration's text.
pub type Fields = (i64, i64, i64, i64);

/// A part of the colon form (`"1d"`, `"2h"`, ...) applied to `f`: the number
/// before a final `d`, `h`, `m` or `s` replaces that count; a part without
/// one of these letters changes nothing; a number that does not read fails.
pub open spec fn apply_part(part: Seq<u8>, f: Fields) -> Option<Fields> {
    if part.len() == 0 {
        Some(f)
    } else {
        let unit = part.last();
        let n = spec_parse_i64(part.drop_last());
        if unit == 0x64 {
            match n {
                Some(v) => Some((v, f.1, f.2, f.3)),
                None => None,
            }
        } else if unit == 0x68 {
            match n {
                Some(v) => Some((f.0, v, f.2, f.3)),
                None => None,
            }
        } else if unit == 0x6D {
            match n {
                Some(v) => Some((f.0, f.1, v, f.3)),
                None => None,
            }
        } else if unit == 0x73 {
            match n {
                Some(v) => Some((f.0, f.1, f.2, v)),
                None => None,
            }
        } else {
            Some(f)
        }
    }
}

/// The first `:` of `b` at or after `i`, or the end of `b`.
pub open spec fn next_colon(b: Seq<u8>, i: int) -> int
    decreases b.len() - i,
{
    if i >= b.len() {
        b.len() as int
    } else if b[i] == 0x3A {
        i
    } else {
        next_colon(b, i + 1)
    }
}

/// The colon form read from `start`: each `:`-separated part applied in
/// turn.
pub open spec fn colon_fields(b: Seq<u8>, start: int, f: Fields) -> Option<Fields>
    decreases b.len() - start,
{
    if start < 0 || start > b.len() {
        None
    } else {
        let end = next_colon(b, start);
        match apply_part(b.subrange(start, end), f) {
            None => None,
            Some(g) => if end >= b.len() || end < start {
                Some(g)
            } else {
                colon_fields(b, end + 1, g)
            },
        }
    }
}

/// The compact form (`"1d2h30m"`) read from `i`, the digits since the last
/// unit letter starting at `run`: each of `d`, `h`, `m`, `s` takes those
/// digits as its count, any other byte (or a letter with no digits before
/// it) fails, and digits after the last letter are ignored.
pub open spec fn compact_fields(b: Seq<u8>, i: int, run: int, f: Fields) -> Option<Fields>
    decreases b.len() - i,
{
    if i < 0 || i >= b.len() || run < 0 || run > i {
        Some(f)
    } else if is_digit(b[i]) {
        compact_fields(b, i + 1, run, f)
    } else {
        match spec_parse_i64(b.subrange(run, i)) {
            None => None,
            Some(n) => if b[i] == 0x64 {
                compact_fields(b, i + 1, i + 1, (n, f.1, f.2, f.3))
            } else if b[i] == 0x68 {
                compact_fields(b, i + 1, i + 1, (f.0, n, f.2, f.3))
            } else if b[i] == 0x6D {
                compact_fields(b, i + 1, i + 1, (f.0, f.1, n, f.3))
            } else if b[i] == 0x73 {
                compact_fields(b, i + 1, i + 1, (f.0, f.1, f.2, n))
            } else {
                None
            },
        }
    }
}

pub open spec fn is_unit_letter(c: u8) -> bool {
    c == 0x64 || c == 0x68 || c == 0x6D || c == 0x73
}

/// The span, in nanoseconds, that a duration's text stands for: the colon
/// form where the text has a `:`, the compact form otherwise. Text with all
/// counts zero and no unit letter at all is no duration; the total number
/// of seconds must fit an `i64` at every step of its sum; a total beyond
/// what a duration holds becomes the longest span of its sign.
pub open spec fn spec_parse_duration(b: Seq<u8>) -> Option<int> {
    let zero: Fields = (0, 0, 0, 0);
    let fields = if exists|i: int| 0 <= i < b.len() && b[i] == 0x3A {
        colon_fields(b, 0, zero)
    } else {
        compact_fields(b, 0, 0, zero)
    };
    match fields {
        None => None,
        Some((d, h, m, s)) => {
            let total = d * 86_400 + h * 3_600 + m * 60 + s;
            if d == 0 && h == 0 && m == 0 && s == 0 && !(exists|i: int| 0 <= i < b.len() && is_unit_letter(b[i])) {
                None
            } else if !(in_i64(d * 86_400) && in_i64(h * 3_600) && in_i64(d * 86_400 + h * 3_600) && in_i64(m * 60)
                && in_i64(d * 86_400 + h * 3_600 + m * 60) && in_i64(total)) {
                None
            } else if total < -max_whole_secs() || total > max_whole_secs() {
                Some(
                    if total > 0 {
                        max_span()
                    } else {
                        -max_span()
                    },
                )
            } else {
                Some(total * 1_000_000_000)
            }
        },
    }
}

/// Applies one part of the colon form, `b[start..end]`.
fn apply_part_exec(b: &[u8], start: usize, end: usize, f: Fields) -> (r: Option<Fields>)
    requires
        start <= end <= b.len(),
    ensures
        r == apply_part(b@.subrange(start as int, end as int), f),
{
    let ghost part = b@.subrange(start as int, end as int);
    if start == end {
        return Some(f);
    }
    let unit = b[end - 1];
    assert(part.last() == unit);
    let digits = vstd::slice::slice_subrange(b, start, end - 1);
    assert(digits@ =~= part.drop_last());
    if unit == 0x64 || unit == 0x68 || unit == 0x6D || unit == 0x73 {
        let n = match parse_i64(digits) {
            Some(n) => n,
            None => return None,
        };
        if unit == 0x64 {
            Some((n, f.1, f.2, f.3))
        } else if unit == 0x68 {
            Some((f.0, n, f.2, f.3))
        } else if unit == 0x6D {
            Some((f.0, f.1, n, f.3))
        } else {
            Some((f.0, f.1, f.2, n))
        }
    } else {
        Some(f)
    }
}

/// Whether some byte of `b` is `byte`.
fn contains_byte(b: &[u8], byte: u8) -> (r: bool)
    ensures
        r == exists|i: int| 0 <= i < b@.len() && b@[i] == byte,
{
    let mut i: usize = 0;
    while i < b.len()
        invariant
            i <= b.len(),
            forall|k: int| 0 <= k < i ==> b@[k] != byte,
        decreases b.len() - i,
    {
        if b[i] == byte {
            return true;
        }
        i += 1;
    }
    false
}

/// Whether some byte of `b` is `d`, `h`, `m` or `s`.
fn contains_unit_letter(b: &[u8]) -> (r: bool)
    ensures
        r == exists|i: int| 0 <= i < b@.len() && is_unit_letter(b@[i]),
{
    let mut i: usize = 0;
    while i < b.len()
        invariant
            i <= b.len(),
            forall|k: int| 0 <= k < i ==> !is_unit_letter(#[trigger] b@[k]),
        decreases b.len() - i,
    {
        let c = b[i];
        if c == 0x64 || c == 0x68 || c == 0x6D || c == 0x73 {
            return true;
        }
        i += 1;
    }
    false
}

/// Reads the colon form of `b`.
fn read_colon_form(b: &[u8]) -> (r: Option<Fields>)
    ensures
        r == colon_fields(b@, 0, (0, 0, 0, 0)),
{
    let mut f: Fields = (0, 0, 0, 0);
    let mut start: usize = 0;
    loop
        invariant
            start <= b.len(),
            colon_fields(b@, 0, (0, 0, 0, 0)) == colon_fields(b@, start as int, f),
        decreases b.len() - start,
    {
        let mut end = start;
        while end < b.len() && b[end] != 0x3A
            invariant
                start <= end <= b.len(),
                next_colon(b@, start as int) == next_colon(b@, end as int),
            decreases b.len() - end,
        {
            end += 1;
        }
        assert(next_colon(b@, start as int) == end);
        f = match apply_part_exec(b, start, end, f) {
            Some(g) => g,
            None => return None,
        };
        if end >= b.len() {
            return Some(f);
        }
        start = end + 1;
    }
}

/// Reads the compact form of `b`.
fn read_compact_form(b: &[u8]) -> (r: Option<Fields>)
    ensures
        r == compact_fields(b@, 0, 0, (0, 0, 0, 0)),
{
    let mut f: Fields = (0, 0, 0, 0);
    let mut i: usize = 0;
    let mut run: usize = 0;
    while i < b.len()
        invariant
            run <= i <= b.len(),
            compact_fields(b@, 0, 0, (0, 0, 0, 0)) == compact_fields(b@, i as int, run as int, f),
        decreases b.len() - i,
    {
        let c = b[i];
        if c >= 0x30 && c <= 0x39 {
            i += 1;
        } else {
            let n = match parse_i64(vstd::slice::slice_subrange(b, run, i)) {
                Some(n) => n,
                None => return None,
            };
            if c == 0x64 {
                f = (n, f.1, f.2, f.3);
            } else if c == 0x68 {
                f = (f.0, n, f.2, f.3);
            } else if c == 0x6D {
                f = (f.0, f.1, n, f.3);
            } else if c == 0x73 {
                f = (f.0, f.1, f.2, n);
            } else {
                return None;
            }
            i += 1;
            run = i;
        }
    }
    Some(f)
}

impl DataDuration {
    /// Reads `"1d:2h:3m:4s"`, `"1d2h30m"` or `"45s"` style text; see
    /// [`spec_parse_duration`] for exactly what is accepted. `None` when no
    /// unit letter is present at all.
    #[verifier::rlimit(40)]
    #[verifier::spinoff_prover]
    pub fn parse(s: &str) -> (r: Option<DataDuration>)
        ensures
            match spec_parse_duration(s.spec_bytes()) {
                Some(n) => r matches Some(d) && d@ == n,
                None => r is None,
            },
    {
        let b = s.as_bytes();
        let fields = if contains_byte(b, 0x3A) {
            read_colon_form(b)
        } else {
            read_compact_form(b)
        };
        let (days, hours, minutes, seconds) = match fields {
            Some(f) => f,
            None => return None,
        };
        if days == 0 && hours == 0 && minutes == 0 && seconds == 0 && !contains_unit_letter(b) {
            return None;
        }
        let d = match days.checked_mul(86_400) {
            Some(v) => v,
            None => return None,
        };
        let h = match hours.checked_mul(3_600) {
            Some(v) => v,
            None => return None,
        };
        let dh = match d.checked_add(h) {
            Some(v) => v,
            None => return None,
        };
        let m = match minutes.checked_mul(60) {
            Some(v) => v,
            None => return None,
        };
        let dhm = match dh.checked_add(m) {
            Some(v) => v,
            None => return None,
        };
        let total = match dhm.checked_add(seconds) {
            Some(v) => v,
            None => return None,
        };
        if total < -9_223_372_036_854_775 || total > 9_223_372_036_854_775 {
            return Some(
                if total > 0 {
                    DataDuration::span_max()
                } else {
                    DataDuration::span_min()
                },
            );
        }
        DataDuration::try_seconds(total)
    }
}

// ---------------------------------------------------------------------------
// Writing the text form.
// ---------------------------------------------------------------------------

/// The text of a span of `n` nanoseconds: its whole seconds split into
/// days, hours, minutes and seconds, each rounded toward zero and carrying
/// the sign of the span, as `"{d}d:{h}h:{m}m:{s}s"`.
pub open spec fn duration_text(n: int) -> Seq<u8> {
    let t = trunc_div(n, 1_000_000_000);
    int_text(trunc_div(t, 86_400)) + seq![0x64u8, 0x3Au8] + int_text(trunc_div(trunc_rem(t, 86_400), 3_600))
        + seq![0x68u8, 0x3Au8] + int_text(trunc_div(trunc_rem(t, 3_600), 60)) + seq![0x6Du8, 0x3Au8]
        + int_text(trunc_rem(t, 60)) + seq![0x73u8]
}

impl DataDuration {
    /// The text form, `"{d}d:{h}h:{m}m:{s}s"`; see [`duration_text`].
    #[verifier::rlimit(40)]
    #[verifier::spinoff_prover]
    pub fn to_string(&self) -> (r: String)
        ensures
            vstd::utf8::encode_utf8(r@) == duration_text(self@),
    {
        let total = self.num_seconds();
        let neg = total < 0;
        // Magnitudes, so that every quotient and remainder is of naturals;
        // each part then takes the sign of the total.
        let mag: u64 = if neg {
            (-(total as i128)) as u64
        } else {
            total as u64
        };
        let days = (mag / 86_400) as i64;
        let hours = ((mag % 86_400) / 3_600) as i64;
        let minutes = ((mag % 3_600) / 60) as i64;
        let seconds = (mag % 60) as i64;
        let (days, hours, minutes, seconds) = if neg {
            (-days, -hours, -minutes, -seconds)
        } else {
            (days, hours, minutes, seconds)
        };
        proof {
            let t = total as int;
            assert(t == trunc_div(self@, 1_000_000_000));
            assert(days == trunc_div(t, 86_400));
            assert(hours == trunc_div(trunc_rem(t, 86_400), 3_600)) by (nonlinear_arith)
                requires
                    mag == (if t < 0 { -t } else { t }),
                    hours == (if t < 0 { -((mag % 86_400) / 3_600) } else { ((mag % 86_400) / 3_600) as int }),
                    t < 0 <==> neg,
            ;
            assert(minutes == trunc_div(trunc_rem(t, 3_600), 60)) by (nonlinear_arith)
                requires
                    mag == (if t < 0 { -t } else { t }),
                    minutes == (if t < 0 { -((mag % 3_600) / 60) } else { ((mag % 3_600) / 60) as int }),
                    t < 0 <==> neg,
            ;
            assert(seconds == trunc_rem(t, 60)) by (nonlinear_arith)
                requires
                    mag == (if t < 0 { -t } else { t }),
                    seconds == (if t < 0 { -(mag % 60) } else { (mag % 60) as int }),
                    t < 0 <==> neg,
            ;
        }
        let mut out: Vec<u8> = Vec::new();
        append_bytes(&mut out, itoa_text(days).as_slice());
        out.push(0x64);
        out.push(0x3A);
        append_bytes(&mut out, itoa_text(hours).as_slice());
        out.push(0x68);
        out.push(0x3A);
        append_bytes(&mut out, itoa_text(minutes).as_slice());
        out.push(0x6D);
        out.push(0x3A);
        append_bytes(&mut out, itoa_text(seconds).as_slice());
        out.push(0x73);
        proof {
            assert(out@ =~= duration_text(self@));
            lemma_int_text_ascii(days as int);
            lemma_int_text_ascii(hours as int);
            lemma_int_text_ascii(minutes as int);
            lemma_int_text_ascii(seconds as int);
            assert forall|k: int| 0 <= k < out@.len() implies #[trigger] out@[k] < 0x80 by {
                let a = int_text(days as int);
                let b = int_text(hours as int);
                let c = int_text(minutes as int);
                let d = int_text(seconds as int);
                if k < a.len() {
                    assert(out@[k] == a[k]);
                } else if a.len() + 2 <= k < a.len() + 2 + b.len() {
                    assert(out@[k] == b[k - a.len() - 2]);
                } else if a.len() + 4 + b.len() <= k < a.len() + 4 + b.len() + c.len() {
                    assert(out@[k] == c[k - a.len() - 4 - b.len()]);
                } else if a.len() + 6 + b.len() + c.len() <= k < a.len() + 6 + b.len() + c.len() + d.len() {
                    assert(out@[k] == d[k - a.len() - 6 - b.len() - c.len()]);
                }
            }
            lemma_ascii_valid(out@);
        }
        text_to_string(out)
    }
}

// ---------------------------------------------------------------------------
// Instants, through chrono.
// ---------------------------------------------------------------------------

/// The day number of `1970-01-01` counted as chrono counts days from the
/// start of the common era.
pub open spec fn unix_epoch_day() -> int {
    719_163
}

/// `DateTime::<Utc>::from_timestamp(secs, nanos)` gives an instant: the
/// seconds since 1970 and the nanoseconds within the second name a moment
/// that chrono can hold.
pub uninterp spec fn utc_valid(secs: i64, nanos: u32) -> bool;

/// What `NaiveDate::from_ymd_opt(year, month, day)` gives, as its day
/// number from the start of the common era.
pub uninterp spec fn civil_day(year: i32, month: u32, day: u32) -> Option<i32>;

/// What `DateTime::parse_from_rfc3339(s)` gives: the instant's seconds
/// since 1970, its nanoseconds, and the text's offset from UTC in seconds.
pub uninterp spec fn rfc3339_instant(s: Seq<char>) -> Option<(i64, u32, i32)>;

/// What `NaiveDateTime::parse_from_str(s, format)` gives, read as UTC.
pub uninterp spec fn naive_instant(s: Seq<char>, format: Seq<char>) -> Option<(i64, u32)>;

/// What `NaiveDate::parse_from_str(s, format)` gives, as its day number.
pub uninterp spec fn naive_day(s: Seq<char>, format: Seq<char>) -> Option<i32>;

/// `DateTime::<Utc>::MAX_UTC` (when `latest`) or `MIN_UTC`.
pub uninterp spec fn utc_bound(latest: bool) -> (i64, u32);

/// What `checked_add_signed` gives for the instant plus the span.
pub uninterp spec fn utc_plus(secs: i64, nanos: u32, span: int) -> Option<(i64, u32)>;

/// What `checked_sub_signed` gives for the instant minus the span.
pub uninterp spec fn utc_minus(secs: i64, nanos: u32, span: int) -> Option<(i64, u32)>;

/// The span from the second instant to the first, in nanoseconds, as the
/// subtraction of two `DateTime`s gives it.
pub uninterp spec fn utc_difference(s1: i64, n1: u32, s2: i64, n2: u32) -> int;

/// Year, month, day, hour, minute and second of the instant, as
/// `Datelike` and `Timelike` give them.
pub uninterp spec fn utc_civil(secs: i64, nanos: u32) -> (i32, u32, u32, u32, u32, u32);

/// The instant as `to_rfc3339_opts(SecondsFormat::Secs, true)` writes it.
pub uninterp spec fn rfc3339_secs(secs: i64, nanos: u32) -> Seq<char>;

/// A day that `from_ymd_opt` or `parse_from_str` gave: every second of it
/// is an instant chrono holds, since `from_timestamp` rebuilds the same day.
pub open spec fn whole_day_valid(day: int) -> bool {
    forall|s: int|
        0 <= s < 86_400 ==> #[trigger] utc_valid(((day - unix_epoch_day()) * 86_400 + s) as i64, 0)
}

/// Calls `chrono::NaiveDate::from_ymd_opt`, which checks the calendar date
/// and gives its day number (`num_days_from_ce`); the contract names that
/// result and claims that every second of such a day is an instant
/// `from_timestamp` accepts.
#[verifier::external_body]
fn calendar_day(year: i32, month: u32, day: u32) -> (r: Option<i32>)
    ensures
        r == civil_day(year, month, day),
        r matches Some(n) ==> whole_day_valid(n as int),
{
    match chrono::NaiveDate::from_ymd_opt(year, month, day) {
        Some(date) => Some(date.num_days_from_ce()),
        None => None,
    }
}

/// Calls `chrono::DateTime::parse_from_rfc3339`; the contract names the
/// result (timestamp, sub-second nanoseconds, offset) and claims that the
/// instant round-trips through `from_timestamp`, as chrono documents.
#[verifier::external_body]
fn parse_rfc3339(s: &str) -> (r: Option<(i64, u32, i32)>)
    ensures
        r == rfc3339_instant(s@),
        r matches Some((t, n, o)) ==> utc_valid(t, n),
{
    match chrono::DateTime::parse_from_rfc3339(s) {
        Ok(dt) => Some((dt.timestamp(), dt.timestamp_subsec_nanos(), dt.offset().local_minus_utc())),
        Err(_) => None,
    }
}

/// Calls `chrono::NaiveDateTime::parse_from_str`, the result read as UTC;
/// the contract names it and claims it round-trips through
/// `from_timestamp`.
#[verifier::external_body]
fn parse_naive(s: &str, format: &str) -> (r: Option<(i64, u32)>)
    ensures
        r == naive_instant(s@, format@),
        r matches Some((t, n)) ==> utc_valid(t, n),
{
    match chrono::NaiveDateTime::parse_from_str(s, format) {
        Ok(naive) => Some((naive.and_utc().timestamp(), naive.and_utc().timestamp_subsec_nanos())),
        Err(_) => None,
    }
}

/// Calls `chrono::NaiveDate::parse_from_str` and gives the day number; the
/// contract names it and claims every second of that day is an instant.
#[verifier::external_body]
fn parse_naive_date(s: &str, format: &str) -> (r: Option<i32>)
    ensures
        r == naive_day(s@, format@),
        r matches Some(n) ==> whole_day_valid(n as int),
{
    match chrono::NaiveDate::parse_from_str(s, format) {
        Ok(date) => Some(date.num_days_from_ce()),
        Err(_) => None,
    }
}

/// Reads `DateTime::<Utc>::MAX_UTC` or `MIN_UTC` as timestamp and
/// nanoseconds; the contract names them and claims they are instants.
#[verifier::external_body]
fn instant_bound(latest: bool) -> (r: (i64, u32))
    ensures
        r == utc_bound(latest),
        utc_valid(r.0, r.1),
{
    let dt = if latest {
        chrono::DateTime::<chrono::Utc>::MAX_UTC
    } else {
        chrono::DateTime::<chrono::Utc>::MIN_UTC
    };
    (dt.timestamp(), dt.timestamp_subsec_nanos())
}

/// Calls `DateTime::<Utc>::checked_add_signed` with the span as a
/// `TimeDelta`; the contract names the result and claims it is an instant.
/// From a start outside a leap second, chrono adds the span to the
/// nanosecond count (`NaiveTime::overflowing_add_signed`), so the result is
/// outside a leap second too and `checked_sub_signed` of the same span,
/// which adds its negation the same way, gives the start back.
#[verifier::external_body]
fn instant_plus(secs: i64, nanos: u32, span: DataDuration) -> (r: Option<(i64, u32)>)
    requires
        utc_valid(secs, nanos),
    ensures
        r == utc_plus(secs, nanos, span@),
        r matches Some((t, n)) ==> utc_valid(t, n),
        nanos < 1_000_000_000 ==> (r matches Some((t, n)) ==> n < 1_000_000_000 && utc_minus(t, n, span@)
            == Some((secs, nanos))),
{
    let dt = chrono::DateTime::from_timestamp(secs, nanos).unwrap();
    let delta = chrono::TimeDelta::new(span.secs, span.nanos as u32).unwrap();
    match dt.checked_add_signed(delta) {
        Some(r) => Some((r.timestamp(), r.timestamp_subsec_nanos())),
        None => None,
    }
}

/// Calls `DateTime::<Utc>::checked_sub_signed` with the span as a
/// `TimeDelta`; the contract names the result and claims it is an instant.
/// From a start outside a leap second the result is the start's nanosecond
/// count less the span, outside a leap second too, and
/// `checked_add_signed` of the same span gives the start back.
#[verifier::external_body]
fn instant_minus(secs: i64, nanos: u32, span: DataDuration) -> (r: Option<(i64, u32)>)
    requires
        utc_valid(secs, nanos),
    ensures
        r == utc_minus(secs, nanos, span@),
        r matches Some((t, n)) ==> utc_valid(t, n),
        nanos < 1_000_000_000 ==> (r matches Some((t, n)) ==> n < 1_000_000_000 && utc_plus(t, n, span@)
            == Some((secs, nanos))),
{
    let dt = chrono::DateTime::from_timestamp(secs, nanos).unwrap();
    let delta = chrono::TimeDelta::new(span.secs, span.nanos as u32).unwrap();
    match dt.checked_sub_signed(delta) {
        Some(r) => Some((r.timestamp(), r.timestamp_subsec_nanos())),
        None => None,
    }
}

/// Subtracts two instants (`DateTime - DateTime`, which chrono says never
/// overflows) and gives the `TimeDelta`'s whole seconds and signed
/// sub-second nanoseconds; the contract names the span and claims what
/// chrono's `TimeDelta` always keeps: the nanoseconds carry the seconds'
/// sign and stay below a second, and the span is at most `i64::MAX`
/// milliseconds either way.
#[verifier::external_body]
fn instant_difference(s1: i64, n1: u32, s2: i64, n2: u32) -> (r: (i64, i32))
    requires
        utc_valid(s1, n1),
        utc_valid(s2, n2),
    ensures
        r.0 * 1_000_000_000 + r.1 == utc_difference(s1, n1, s2, n2),
        -1_000_000_000 < r.1 < 1_000_000_000,
        r.0 > 0 ==> r.1 >= 0,
        r.0 < 0 ==> r.1 <= 0,
        -max_span() <= r.0 * 1_000_000_000 + r.1 <= max_span(),
{
    let a = chrono::DateTime::from_timestamp(s1, n1).unwrap();
    let b = chrono::DateTime::from_timestamp(s2, n2).unwrap();
    let delta = a - b;
    (delta.num_seconds(), delta.subsec_nanos())
}

/// Reads the calendar fields of an instant through `Datelike` and
/// `Timelike`; the contract names them and claims the ranges chrono
/// documents (a leap second reads as second 59).
#[verifier::external_body]
fn instant_civil(secs: i64, nanos: u32) -> (r: (i32, u32, u32, u32, u32, u32))
    requires
        utc_valid(secs, nanos),
    ensures
        r == utc_civil(secs, nanos),
        1 <= r.1 <= 12,
        1 <= r.2 <= 31,
        r.3 < 24,
        r.4 < 60,
        r.5 < 60,
{
    let dt = chrono::DateTime::from_timestamp(secs, nanos).unwrap();
    (dt.year(), dt.month(), dt.day(), dt.hour(), dt.minute(), dt.second())
}

/// Calls `to_rfc3339_opts(SecondsFormat::Secs, true)`; the contract names
/// the text.
#[verifier::external_body]
fn instant_rfc3339(secs: i64, nanos: u32) -> (r: String)
    requires
        utc_valid(secs, nanos),
    ensures
        r@ == rfc3339_secs(secs, nanos),
{
    let dt = chrono::DateTime::from_timestamp(secs, nanos).unwrap();
    dt.to_rfc3339_opts(chrono::SecondsFormat::Secs, true)
}

/// What `DateTime::<Utc>::format(fmt)` writes for the instant; `None` when
/// that text cannot be written, which is when the format holds a specifier
/// chrono does not know.
pub uninterp spec fn chrono_text(secs: i64, nanos: u32, fmt: Seq<char>) -> Option<Seq<char>>;

/// Calls `DateTime::format` and writes its text into a `String`, or `None`
/// when writing fails; the contract names the outcome.
#[verifier::external_body]
fn instant_format(secs: i64, nanos: u32, fmt: &str) -> (r: Option<String>)
    requires
        utc_valid(secs, nanos),
    ensures
        match r {
            Some(t) => chrono_text(secs, nanos, fmt@) == Some(t@),
            None => chrono_text(secs, nanos, fmt@) is None,
        },
{
    let dt = chrono::DateTime::from_timestamp(secs, nanos).unwrap();
    let mut out = String::new();
    match write!(out, "{}", dt.format(fmt)) {
        Ok(()) => Some(out),
        Err(_) => None,
    }
}

// ---------------------------------------------------------------------------
// DataDateTime.
// ---------------------------------------------------------------------------

/// Two decimal digits at `o`.
pub open spec fn two_digits(b: Seq<u8>, o: int) -> Option<u32> {
    if is_digit(b[o]) && is_digit(b[o + 1]) {
        Some(((b[o] - 0x30) * 10 + (b[o + 1] - 0x30)) as u32)
    } else {
        None
    }
}

/// Four decimal digits at `o`.
pub open spec fn four_digits(b: Seq<u8>, o: int) -> Option<u32> {
    if is_digit(b[o]) && is_digit(b[o + 1]) && is_digit(b[o + 2]) && is_digit(b[o + 3]) {
        Some(
            ((b[o] - 0x30) * 1000 + (b[o + 1] - 0x30) * 100 + (b[o + 2] - 0x30) * 10 + (b[o + 3]
                - 0x30)) as u32,
        )
    } else {
        None
    }
}

/// Reads two decimal digits at `offset`.
fn parse_2digits(b: &[u8], offset: usize) -> (r: Option<u32>)
    requires
        offset + 2 <= b.len(),
    ensures
        r == two_digits(b@, offset as int),
{
    let d0 = b[offset].wrapping_sub(0x30);
    let d1 = b[offset + 1].wrapping_sub(0x30);
    if d0 > 9 || d1 > 9 {
        return None;
    }
    Some(d0 as u32 * 10 + d1 as u32)
}

/// Reads four decimal digits at `offset`.
fn parse_4digits(b: &[u8], offset: usize) -> (r: Option<u32>)
    requires
        offset + 4 <= b.len(),
    ensures
        r == four_digits(b@, offset as int),
{
    let d0 = b[offset].wrapping_sub(0x30);
    let d1 = b[offset + 1].wrapping_sub(0x30);
    let d2 = b[offset + 2].wrapping_sub(0x30);
    let d3 = b[offset + 3].wrapping_sub(0x30);
    if d0 > 9 || d1 > 9 || d2 > 9 || d3 > 9 {
        return None;
    }
    Some(d0 as u32 * 1000 + d1 as u32 * 100 + d2 as u32 * 10 + d3 as u32)
}

/// `b` is exactly `YYYY-MM-DDTHH:MM:SSZ` with digits where the letters
/// are: the year, month, day, hour, minute and second it spells.
pub open spec fn iso_z_fields(b: Seq<u8>) -> Option<(u32, u32, u32, u32, u32, u32)> {
    if b.len() == 20 && b[4] == 0x2D && b[7] == 0x2D && b[10] == 0x54 && b[13] == 0x3A && b[16] == 0x3A
        && b[19] == 0x5A {
        match (
            four_digits(b, 0),
            two_digits(b, 5),
            two_digits(b, 8),
            two_digits(b, 11),
            two_digits(b, 14),
            two_digits(b, 17),
        ) {
            (Some(y), Some(mo), Some(d), Some(h), Some(mi), Some(s)) => Some((y, mo, d, h, mi, s)),
            _ => None,
        }
    } else {
        None
    }
}

/// The instant spelled by `YYYY-MM-DDTHH:MM:SSZ` text, when the date is one
/// of the calendar and the time one of the day.
pub open spec fn iso_z_instant(b: Seq<u8>) -> Option<i64> {
    match iso_z_fields(b) {
        Some((y, mo, d, h, mi, s)) => match civil_day(y as i32, mo, d) {
            Some(n) => if h < 24 && mi < 60 && s < 60 {
                Some(((n - unix_epoch_day()) * 86_400 + h * 3_600 + mi * 60 + s) as i64)
            } else {
                None
            },
            None => None,
        },
        None => None,
    }
}

/// What `DataDateTime::parse` reads from `s`: the `YYYY-MM-DDTHH:MM:SSZ`
/// form (offset zero); else RFC 3339 (its offset kept); else
/// `%Y-%m-%dT%H:%M:%S` taken as UTC (no offset). Timestamp, nanoseconds
/// and offset.
pub open spec fn spec_parse_datetime(s: &str) -> Option<(i64, u32, Option<i32>)> {
    match iso_z_instant(s.spec_bytes()) {
        Some(t) => Some((t, 0u32, Some(0i32))),
        None => match rfc3339_instant(s@) {
            Some((t, n, o)) => Some((t, n, Some(o))),
            None => match naive_instant(s@, "%Y-%m-%dT%H:%M:%S"@) {
                Some((t, n)) => Some((t, n, None)),
                None => None,
            },
        },
    }
}

/// The text `YYYY-MM-DDTHH:MM:SSZ` of the given fields, each zero-padded.
pub open spec fn iso_z_text(y: int, mo: int, d: int, h: int, mi: int, s: int) -> Seq<u8> {
    seq![
        (0x30 + (y / 1000) % 10) as u8,
        (0x30 + (y / 100) % 10) as u8,
        (0x30 + (y / 10) % 10) as u8,
        (0x30 + y % 10) as u8,
        0x2Du8,
        (0x30 + (mo / 10) % 10) as u8,
        (0x30 + mo % 10) as u8,
        0x2Du8,
        (0x30 + (d / 10) % 10) as u8,
        (0x30 + d % 10) as u8,
        0x54u8,
        (0x30 + (h / 10) % 10) as u8,
        (0x30 + h % 10) as u8,
        0x3Au8,
        (0x30 + (mi / 10) % 10) as u8,
        (0x30 + mi % 10) as u8,
        0x3Au8,
        (0x30 + (s / 10) % 10) as u8,
        (0x30 + s % 10) as u8,
        0x5Au8,
    ]
}

/// The text of an instant is UTF-8.
pub proof fn lemma_iso_text_valid(secs: i64, nanos: u32)
    ensures
        vstd::utf8::valid_utf8(iso_text(secs, nanos)),
{
    let (y, mo, d, h, mi, s) = utc_civil(secs, nanos);
    if 0 <= y <= 9999 {
        let t = iso_z_text(y as int, mo as int, d as int, h as int, mi as int, s as int);
        assert forall|k: int| 0 <= k < t.len() implies #[trigger] t[k] < 0x80 by {}
        lemma_ascii_valid(t);
    } else {
        vstd::utf8::encode_utf8_valid_utf8(rfc3339_secs(secs, nanos));
    }
}

/// The text of a duration is UTF-8.
pub proof fn lemma_duration_text_valid(n: int)
    ensures
        vstd::utf8::valid_utf8(duration_text(n)),
{
    let t = trunc_div(n, 1_000_000_000);
    let a = int_text(trunc_div(t, 86_400));
    let b = int_text(trunc_div(trunc_rem(t, 86_400), 3_600));
    let c = int_text(trunc_div(trunc_rem(t, 3_600), 60));
    let e = int_text(trunc_rem(t, 60));
    lemma_int_text_ascii(trunc_div(t, 86_400));
    lemma_int_text_ascii(trunc_div(trunc_rem(t, 86_400), 3_600));
    lemma_int_text_ascii(trunc_div(trunc_rem(t, 3_600), 60));
    lemma_int_text_ascii(trunc_rem(t, 60));
    let w = duration_text(n);
    assert(w =~= a + seq![0x64u8, 0x3Au8] + b + seq![0x68u8, 0x3Au8] + c + seq![0x6Du8, 0x3Au8] + e + seq![0x73u8]);
    assert forall|k: int| 0 <= k < w.len() implies #[trigger] w[k] < 0x80 by {
        let la = a.len() as int;
        let lb = b.len() as int;
        let lc = c.len() as int;
        if k < la {
            assert(w[k] == a[k]);
        } else if la + 2 <= k < la + 2 + lb {
            assert(w[k] == b[k - la - 2]);
        } else if la + 4 + lb <= k < la + 4 + lb + lc {
            assert(w[k] == c[k - la - 4 - lb]);
        } else if la + 6 + lb + lc <= k < la + 6 + lb + lc + e.len() {
            assert(w[k] == e[k - la - 6 - lb - lc]);
        }
    }
    lemma_ascii_valid(w);
}

/// At least two decimal digits of `n`, zero-padded.
pub open spec fn pad2_text(n: nat) -> Seq<u8> {
    if n < 10 {
        seq![0x30u8] + int_text(n as int)
    } else {
        int_text(n as int)
    }
}

/// The text of a UTC offset of `o` seconds: a sign, the whole hours (at
/// least two digits) and the minutes (two digits), as `+0530`; the sign is
/// that of the offset, so that `-00:30` is written `-0030`.
pub open spec fn offset_text(o: int) -> Seq<u8> {
    let hours = trunc_div(o, 3_600);
    let minutes = (if trunc_rem(o, 3_600) < 0 {
        -trunc_rem(o, 3_600)
    } else {
        trunc_rem(o, 3_600)
    }) / 60;
    let sign: u8 = if o < 0 {
        0x2D
    } else {
        0x2B
    };
    let mag: nat = if hours < 0 {
        (-hours) as nat
    } else {
        hours as nat
    };
    seq![sign] + pad2_text(mag) + pad2_text(minutes as nat)
}

/// The `+HHMM` text of an offset, `+0000` when there is none.
pub open spec fn offset_format(o: Option<i32>) -> Seq<u8> {
    match o {
        Some(o) => offset_text(o as int),
        None => seq![0x2Bu8, 0x30u8, 0x30u8, 0x30u8, 0x30u8],
    }
}

/// A UTC instant to the nanosecond (beyond a second's worth during a leap
/// second), with the UTC offset of the text it was read from, if it had
/// one. Equality looks at the instant only.
#[derive(Debug, Clone, Copy, Eq)]
pub struct DataDateTime {
    secs: i64,
    nanos: u32,
    original_offset: Option<i32>,
}

impl DataDateTime {
    #[verifier::type_invariant]
    spec fn well_formed(self) -> bool {
        utc_valid(self.secs, self.nanos)
    }

    /// The instant: seconds since 1970-01-01 UTC and nanoseconds.
    pub closed spec fn instant(self) -> (i64, u32) {
        (self.secs, self.nanos)
    }

    /// The offset of the text the value was read from, in seconds east of
    /// UTC; `None` when that text had none.
    pub closed spec fn offset(self) -> Option<i32> {
        self.original_offset
    }

    pub fn timestamp(&self) -> (r: i64)
        ensures
            r == self.instant().0,
    {
        self.secs
    }

    pub fn timestamp_subsec_nanos(&self) -> (r: u32)
        ensures
            r == self.instant().1,
    {
        self.nanos
    }

    pub fn original_offset(&self) -> (r: Option<i32>)
        ensures
            r == self.offset(),
    {
        self.original_offset
    }

    /// `YYYY-MM-DDTHH:MM:SSZ`, read through the fast path.
    #[verifier::rlimit(40)]
    #[verifier::spinoff_prover]
    fn parse_utc_fast(b: &[u8]) -> (r: Option<DataDateTime>)
        requires
            b.len() == 20,
            b[4] == 0x2D && b[7] == 0x2D && b[10] == 0x54 && b[13] == 0x3A && b[16] == 0x3A && b[19] == 0x5A,
        ensures
            match iso_z_instant(b@) {
                Some(t) => r matches Some(d) && d.instant() == (t, 0u32) && d.offset() == Some(0i32),
                None => r is None,
            },
    {
        let year = match parse_4digits(b, 0) {
            Some(v) => v,
            None => return None,
        };
        let month = match parse_2digits(b, 5) {
            Some(v) => v,
            None => return None,
        };
        let day = match parse_2digits(b, 8) {
            Some(v) => v,
            None => return None,
        };
        let hour = match parse_2digits(b, 11) {
            Some(v) => v,
            None => return None,
        };
        let min = match parse_2digits(b, 14) {
            Some(v) => v,
            None => return None,
        };
        let sec = match parse_2digits(b, 17) {
            Some(v) => v,
            None => return None,
        };
        let n = match calendar_day(year as i32, month, day) {
            Some(n) => n,
            None => return None,
        };
        if hour >= 24 || min >= 60 || sec >= 60 {
            return None;
        }
        let secs: i64 = (n as i64 - 719_163) * 86_400 + (hour * 3_600 + min * 60 + sec) as i64;
        proof {
            let s = (hour * 3_600 + min * 60 + sec) as int;
            assert(utc_valid(((n - unix_epoch_day()) * 86_400 + s) as i64, 0));
        }
        Some(DataDateTime { secs, nanos: 0, original_offset: Some(0) })
    }

    /// Reads an RFC 3339 / ISO 8601 instant; see [`spec_parse_datetime`].
    /// Text without a time zone, `%Y-%m-%dT%H:%M:%S`, is taken as UTC.
    pub fn parse(s: &str) -> (r: Option<DataDateTime>)
        ensures
            match spec_parse_datetime(s) {
                Some((t, n, o)) => r matches Some(d) && d.instant() == (t, n) && d.offset() == o,
                None => r is None,
            },
    {
        let b = s.as_bytes();
        if b.len() == 20 && b[4] == 0x2D && b[7] == 0x2D && b[10] == 0x54 && b[13] == 0x3A && b[16]
            == 0x3A && b[19] == 0x5A {
            if let Some(dt) = DataDateTime::parse_utc_fast(b) {
                return Some(dt);
            }
        }
        if let Some((t, n, o)) = parse_rfc3339(s) {
            return Some(DataDateTime { secs: t, nanos: n, original_offset: Some(o) });
        }
        if let Some((t, n)) = parse_naive(s, "%Y-%m-%dT%H:%M:%S") {
            return Some(DataDateTime { secs: t, nanos: n, original_offset: None });
        }
        None
    }

    /// Reads `s` with an explicit chrono format: as a date and time, else
    /// as a date at midnight; taken as UTC, with no offset.
    pub fn parse_with_format(s: &str, format: &str) -> (r: Option<DataDateTime>)
        ensures
            match naive_instant(s@, format@) {
                Some((t, n)) => r matches Some(d) && d.instant() == (t, n) && d.offset() is None,
                None => match naive_day(s@, format@) {
                    Some(day) => r matches Some(d) && d.instant() == (
                        ((day - unix_epoch_day()) * 86_400) as i64,
                        0u32,
                    ) && d.offset() is None,
                    None => r is None,
                },
            },
    {
        if let Some((t, n)) = parse_naive(s, format) {
            return Some(DataDateTime { secs: t, nanos: n, original_offset: None });
        }
        if let Some(day) = parse_naive_date(s, format) {
            proof {
                assert(utc_valid(((day - unix_epoch_day()) * 86_400 + 0) as i64, 0));
            }
            let secs: i64 = (day as i64 - 719_163) * 86_400;
            return Some(DataDateTime { secs, nanos: 0, original_offset: None });
        }
        None
    }
}

/// `YYYY-MM-DDTHH:MM:SSZ` for years 0 to 9999, and chrono's RFC 3339 text
/// to the second otherwise.
pub open spec fn iso_text(secs: i64, nanos: u32) -> Seq<u8> {
    let (y, mo, d, h, mi, s) = utc_civil(secs, nanos);
    if 0 <= y <= 9999 {
        iso_z_text(y as int, mo as int, d as int, h as int, mi as int, s as int)
    } else {
        vstd::utf8::encode_utf8(rfc3339_secs(secs, nanos))
    }
}

/// The canonical text of an instant; see [`iso_text`].
#[verifier::rlimit(40)]
#[verifier::spinoff_prover]
fn format_utc_iso_secs(secs: i64, nanos: u32) -> (r: String)
    requires
        utc_valid(secs, nanos),
    ensures
        vstd::utf8::encode_utf8(r@) == iso_text(secs, nanos),
{
    let (year, month, day, hour, minute, second) = instant_civil(secs, nanos);
    if year < 0 || year > 9999 {
        return instant_rfc3339(secs, nanos);
    }
    let y = year as u32;
    let month = month as u8;
    let day = day as u8;
    let hour = hour as u8;
    let minute = minute as u8;
    let second = second as u8;
    let mut buf: Vec<u8> = Vec::with_capacity(20);
    buf.push((0x30 + (y / 1000) % 10) as u8);
    buf.push((0x30 + (y / 100) % 10) as u8);
    buf.push((0x30 + (y / 10) % 10) as u8);
    buf.push((0x30 + y % 10) as u8);
    buf.push(0x2D);
    buf.push(0x30 + (month / 10) % 10);
    buf.push(0x30 + month % 10);
    buf.push(0x2D);
    buf.push(0x30 + (day / 10) % 10);
    buf.push(0x30 + day % 10);
    buf.push(0x54);
    buf.push(0x30 + (hour / 10) % 10);
    buf.push(0x30 + hour % 10);
    buf.push(0x3A);
    buf.push(0x30 + (minute / 10) % 10);
    buf.push(0x30 + minute % 10);
    buf.push(0x3A);
    buf.push(0x30 + (second / 10) % 10);
    buf.push(0x30 + second % 10);
    buf.push(0x5A);
    proof {
        assert(buf@ =~= iso_text(secs, nanos));
        assert forall|k: int| 0 <= k < buf@.len() implies #[trigger] buf@[k] < 0x80 by {}
        lemma_ascii_valid(buf@);
    }
    text_to_string(buf)
}

/// The decimal text of `n`, zero-padded to two digits.
fn pad2(out: &mut Vec<u8>, n: u32)
    ensures
        final(out)@ == old(out)@ + pad2_text(n as nat),
{
    if n < 10 {
        out.push(0x30);
    }
    append_bytes(out, itoa_text(n as i64).as_slice());
}

impl DataDateTime {
    /// `YYYY-MM-DDTHH:MM:SSZ`, the text values carry an instant in.
    pub fn to_iso_string(&self) -> (r: String)
        ensures
            vstd::utf8::encode_utf8(r@) == iso_text(self.instant().0, self.instant().1),
    {
        proof {
            use_type_invariant(self);
        }
        format_utc_iso_secs(self.secs, self.nanos)
    }

    /// The UTC offset of the text the value was read from as `+HHMM`
    /// (what the format `"z"` gives); `+0000` when that text had none.
    #[verifier::rlimit(40)]
    #[verifier::spinoff_prover]
    pub fn format_offset(&self) -> (r: String)
        ensures
            vstd::utf8::encode_utf8(r@) == offset_format(self.offset()),
    {
        let mut out: Vec<u8> = Vec::new();
        match self.original_offset {
            Some(o) => {
                let hours = o / 3_600;
                let rem = o % 3_600;
                let minutes = (if rem < 0 {
                    -rem
                } else {
                    rem
                }) / 60;
                proof {
                    assert(hours == trunc_div(o as int, 3_600));
                    assert(rem == trunc_rem(o as int, 3_600));
                }
                let mag: u32 = if hours < 0 {
                    (-hours) as u32
                } else {
                    hours as u32
                };
                out.push(
                    if o < 0 {
                        0x2D
                    } else {
                        0x2B
                    },
                );
                pad2(&mut out, mag);
                pad2(&mut out, minutes as u32);
            },
            None => {
                out.push(0x2B);
                out.push(0x30);
                out.push(0x30);
                out.push(0x30);
                out.push(0x30);
            },
        }
        proof {
            let t = out@;
            assert(match self.offset() {
                Some(o) => t =~= offset_text(o as int),
                None => t =~= seq![0x2Bu8, 0x30u8, 0x30u8, 0x30u8, 0x30u8],
            });
            assert forall|k: int| 0 <= k < t.len() implies #[trigger] t[k] < 0x80 by {
                if let Some(o) = self.offset() {
                    let hours = trunc_div(o as int, 3_600);
                    let mag: nat = if hours < 0 {
                        (-hours) as nat
                    } else {
                        hours as nat
                    };
                    let minutes = (if trunc_rem(o as int, 3_600) < 0 {
                        -trunc_rem(o as int, 3_600)
                    } else {
                        trunc_rem(o as int, 3_600)
                    }) / 60;
                    lemma_int_text_ascii(mag as int);
                    lemma_int_text_ascii(minutes);
                    let a = pad2_text(mag);
                    let b = pad2_text(minutes as nat);
                    if 1 <= k < 1 + a.len() {
                        assert(t[k] == a[k - 1]);
                        if mag < 10 && k > 1 {
                            assert(a[k - 1] == int_text(mag as int)[k - 2]);
                        }
                    } else if 1 + a.len() <= k {
                        assert(t[k] == b[k - 1 - a.len()]);
                        if minutes < 10 && k > 1 + a.len() {
                            assert(b[k - 1 - a.len()] == int_text(minutes)[k - 2 - a.len()]);
                        }
                    }
                }
            }
            lemma_ascii_valid(t);
        }
        text_to_string(out)
    }

    /// The instant moved later by `duration`; past the end of what chrono
    /// holds, the latest instant when the duration has a positive number
    /// of whole seconds and the earliest otherwise. The offset is kept.
    /// From an instant outside a leap second, when the sum is in range,
    /// `sub_duration` of the same span gives the instant back.
    pub fn add_duration(&self, duration: &DataDuration) -> (r: DataDateTime)
        ensures
            r.instant() == match utc_plus(self.instant().0, self.instant().1, duration@) {
                Some(x) => x,
                None => utc_bound(trunc_div(duration@, 1_000_000_000) > 0),
            },
            r.offset() == self.offset(),
            self.instant().1 < 1_000_000_000 && utc_plus(self.instant().0, self.instant().1, duration@) is Some
                ==> r.instant().1 < 1_000_000_000 && utc_minus(r.instant().0, r.instant().1, duration@)
                == Some(self.instant()),
    {
        proof {
            use_type_invariant(self);
        }
        let (secs, nanos) = match instant_plus(self.secs, self.nanos, *duration) {
            Some(x) => x,
            None => instant_bound(duration.num_seconds() > 0),
        };
        DataDateTime { secs, nanos, original_offset: self.original_offset }
    }

    /// The instant moved earlier by `duration`; past what chrono holds, the
    /// latest instant when the duration has a negative number of whole
    /// seconds and the earliest otherwise. The offset is kept.
    /// From an instant outside a leap second, when the difference is in
    /// range, `add_duration` of the same span gives the instant back.
    pub fn sub_duration(&self, duration: &DataDuration) -> (r: DataDateTime)
        ensures
            r.instant() == match utc_minus(self.instant().0, self.instant().1, duration@) {
                Some(x) => x,
                None => utc_bound(trunc_div(duration@, 1_000_000_000) < 0),
            },
            r.offset() == self.offset(),
            self.instant().1 < 1_000_000_000 && utc_minus(self.instant().0, self.instant().1, duration@) is Some
                ==> r.instant().1 < 1_000_000_000 && utc_plus(r.instant().0, r.instant().1, duration@)
                == Some(self.instant()),
    {
        proof {
            use_type_invariant(self);
        }
        let (secs, nanos) = match instant_minus(self.secs, self.nanos, *duration) {
            Some(x) => x,
            None => instant_bound(duration.num_seconds() < 0),
        };
        DataDateTime { secs, nanos, original_offset: self.original_offset }
    }

    /// The span from `other` to this instant.
    pub fn diff(&self, other: &DataDateTime) -> (r: DataDuration)
        ensures
            r@ == utc_difference(self.instant().0, self.instant().1, other.instant().0, other.instant().1),
    {
        proof {
            use_type_invariant(self);
            use_type_invariant(other);
        }
        let (s, ns) = instant_difference(self.secs, self.nanos, other.secs, other.nanos);
        if ns < 0 {
            DataDuration { secs: s - 1, nanos: ns + 1_000_000_000 }
        } else {
            DataDuration { secs: s, nanos: ns }
        }
    }
}

impl DataDateTime {
    /// The instant written with a chrono format string; the format `"z"`
    /// gives the offset of the text the instant was read from instead (see
    /// [`DataDateTime::format_offset`]). A format holding a specifier that
    /// chrono does not know is excluded.
    pub fn format(&self, format: &str) -> (r: String)
        requires
            format.spec_bytes() == seq![0x7Au8] || chrono_text(self.instant().0, self.instant().1, format@) is Some,
        ensures
            format.spec_bytes() == seq![0x7Au8] ==> vstd::utf8::encode_utf8(r@) == offset_format(self.offset()),
            format.spec_bytes() != seq![0x7Au8] ==> chrono_text(self.instant().0, self.instant().1, format@)
                == Some(r@),
    {
        proof {
            use_type_invariant(self);
        }
        let b = format.as_bytes();
        if b.len() == 1 && b[0] == 0x7A {
            assert(b@ =~= seq![0x7Au8]);
            return self.format_offset();
        }
        match instant_format(self.secs, self.nanos, format) {
            Some(t) => t,
            None => String::new(),
        }
    }

    /// [`DataDateTime::format`] where the format can be written; `None`
    /// where it holds a specifier chrono does not know.
    pub fn try_format(&self, format: &str) -> (r: Option<String>)
        ensures
            r is None <==> (format.spec_bytes() != seq![0x7Au8] && chrono_text(
                self.instant().0,
                self.instant().1,
                format@,
            ) is None),
            r matches Some(t) ==> (format.spec_bytes() == seq![0x7Au8] ==> vstd::utf8::encode_utf8(t@)
                == offset_format(self.offset())),
            r matches Some(t) ==> (format.spec_bytes() != seq![0x7Au8] ==> chrono_text(
                self.instant().0,
                self.instant().1,
                format@,
            ) == Some(t@)),
    {
        proof {
            use_type_invariant(self);
        }
        let b = format.as_bytes();
        if b.len() == 1 && b[0] == 0x7A {
            assert(b@ =~= seq![0x7Au8]);
            return Some(self.format(format));
        }
        match instant_format(self.secs, self.nanos, format) {
            Some(_) => Some(self.format(format)),
            None => None,
        }
    }
}

impl PartialEq for DataDateTime {
    /// The same instant, whatever the offsets.
    fn eq(&self, other: &Self) -> (r: bool) {
        self.secs == other.secs && self.nanos == other.nanos
    }
}

impl vstd::std_specs::cmp::PartialEqSpecImpl for DataDateTime {
    open spec fn obeys_eq_spec() -> bool {
        true
    }

    open spec fn eq_spec(&self, other: &DataDateTime) -> bool {
        self.instant() == other.instant()
    }
}

} // verus!
