//! `NumberValue`: JSON numbers, kept as `i64` where the text is an integer
//! and as the IEEE-754 binary64 bit pattern otherwise.
//!
//! The questions this library asks of a float (is it zero, NaN, a whole
//! number, and which) are answered here from the bit pattern; arithmetic on
//! floats is left to the caller's floating-point unit.

use vstd::arithmetic::power2::{lemma2_to64, lemma2_to64_rest, lemma_pow2_pos, lemma_pow2_strictly_increases, pow2};
use vstd::bits::{lemma_u64_low_bits_mask_is_mod, lemma_u64_shl_is_mul, lemma_u64_shr_is_div, low_bits_mask};
use vstd::prelude::*;

verus! {

/// A JSON number. `Float` holds the bit pattern of a binary64 value.
#[derive(Debug, Clone, Copy)]
pub enum NumberValue {
    Integer(i64),
    Float(u64),
}

/// The biased exponent field of a binary64 bit pattern.
pub open spec fn f64_exponent(bits: u64) -> int {
    ((bits >> 52u64) & 0x7ffu64) as int
}

/// The fraction field of a binary64 bit pattern.
pub open spec fn f64_fraction(bits: u64) -> int {
    (bits & 0xf_ffff_ffff_ffffu64) as int
}

pub open spec fn f64_negative(bits: u64) -> bool {
    bits >> 63u64 == 1
}

pub open spec fn f64_is_finite(bits: u64) -> bool {
    f64_exponent(bits) != 0x7ff
}

pub open spec fn f64_is_nan(bits: u64) -> bool {
    f64_exponent(bits) == 0x7ff && f64_fraction(bits) != 0
}

/// `+0.0` or `-0.0`.
pub open spec fn f64_is_zero(bits: u64) -> bool {
    f64_exponent(bits) == 0 && f64_fraction(bits) == 0
}

/// A finite binary64 value is `±significand · 2^scale`.
pub open spec fn f64_significand(bits: u64) -> nat {
    if f64_exponent(bits) == 0 {
        f64_fraction(bits) as nat
    } else {
        (f64_fraction(bits) + pow2(52)) as nat
    }
}

pub open spec fn f64_scale(bits: u64) -> int {
    if f64_exponent(bits) == 0 {
        -1074
    } else {
        f64_exponent(bits) - 1075
    }
}

/// The whole number that a finite binary64 value equals, if it is one.
pub open spec fn f64_whole_value(bits: u64) -> Option<int> {
    if !f64_is_finite(bits) {
        None
    } else {
        let sig = f64_significand(bits);
        let scale = f64_scale(bits);
        let magnitude: Option<nat> = if scale >= 0 {
            Some(sig * pow2(scale as nat))
        } else if sig % pow2((-scale) as nat) == 0 {
            Some(sig / pow2((-scale) as nat))
        } else {
            None
        };
        match magnitude {
            Some(m) => Some(
                if f64_negative(bits) {
                    -m
                } else {
                    m as int
                },
            ),
            None => None,
        }
    }
}

/// The number as an `i64`: an integer as it is; a float only when it is a
/// whole number from -2^63 to 2^63, where 2^63 (one past the largest `i64`)
/// saturates to `i64::MAX` as a float-to-integer cast does.
pub open spec fn number_as_i64(n: NumberValue) -> Option<i64> {
    match n {
        NumberValue::Integer(i) => Some(i),
        NumberValue::Float(bits) => match f64_whole_value(bits) {
            Some(v) => if -pow2(63) <= v < pow2(63) {
                Some(v as i64)
            } else if v == pow2(63) {
                Some(i64::MAX)
            } else {
                None
            },
            None => None,
        },
    }
}

pub open spec fn number_is_zero(n: NumberValue) -> bool {
    match n {
        NumberValue::Integer(i) => i == 0,
        NumberValue::Float(bits) => f64_is_zero(bits),
    }
}

proof fn lemma_f64_fields(bits: u64)
    by (bit_vector)
    ensures
        (bits >> 52u64) & 0x7ffu64 < 0x800,
        bits & 0xf_ffff_ffff_ffffu64 < 0x10_0000_0000_0000u64,
        (bits & 0xf_ffff_ffff_ffffu64) | 0x10_0000_0000_0000u64 == (bits & 0xf_ffff_ffff_ffffu64)
            + 0x10_0000_0000_0000u64,
        (bits & 0x7fff_ffff_ffff_ffffu64 == 0) == ((bits >> 52u64) & 0x7ffu64 == 0 && bits
            & 0xf_ffff_ffff_ffffu64 == 0),
{
}

/// The float with bit pattern `bits` as an `i64`, under the rules of
/// [`number_as_i64`].
#[verifier::rlimit(30)]
#[verifier::spinoff_prover]
fn float_bits_as_i64(bits: u64) -> (r: Option<i64>)
    ensures
        r == number_as_i64(NumberValue::Float(bits)),
{
    proof {
        lemma_f64_fields(bits);
        lemma2_to64();
        lemma2_to64_rest();
    }
    let exp = (bits >> 52u64) & 0x7ffu64;
    let frac = bits & 0xf_ffff_ffff_ffffu64;
    let neg = (bits >> 63u64) == 1;
    if exp == 0x7ff {
        return None;
    }
    if exp == 0 {
        if frac == 0 {
            assert(f64_significand(bits) == 0);
            assert(0nat % pow2(1074) == 0) by {
                lemma_pow2_pos(1074);
            }
            assert(0nat / pow2(1074) == 0) by {
                lemma_pow2_pos(1074);
            }
            return Some(0);
        }
        // A subnormal lies strictly between -1 and 1 and is not zero.
        assert(f64_significand(bits) % pow2(1074) != 0) by {
            lemma_pow2_strictly_increases(52, 1074);
            vstd::arithmetic::div_mod::lemma_small_mod(f64_significand(bits), pow2(1074));
        }
        return None;
    }
    let sig = frac | 0x10_0000_0000_0000u64;
    assert(sig == f64_significand(bits));
    if exp < 1075 {
        let sh = 1075 - exp;
        if sh >= 53 {
            assert((sig as nat) % pow2(sh as nat) != 0) by {
                if sh > 53 {
                    lemma_pow2_strictly_increases(53, sh as nat);
                }
                vstd::arithmetic::div_mod::lemma_small_mod(sig as nat, pow2(sh as nat));
            }
            return None;
        }
        let one: u64 = 1;
        proof {
            lemma_pow2_pos(sh as nat);
            vstd::bits::lemma_u64_pow2_no_overflow(sh as nat);
            lemma_u64_shl_is_mul(one, sh);
        }
        let mask = (one << sh) - 1;
        proof {
            assert(mask == low_bits_mask(sh as nat));
            lemma_u64_low_bits_mask_is_mod(sig, sh as nat);
        }
        if sig & mask != 0 {
            return None;
        }
        let mag = sig >> sh;
        proof {
            lemma_u64_shr_is_div(sig, sh);
            vstd::arithmetic::div_mod::lemma_div_is_ordered_by_denominator(sig as int, 1, pow2(sh as nat) as int);
        }
        let m = mag as i64;
        if neg {
            return Some(-m);
        } else {
            return Some(m);
        }
    } else {
        let sh = exp - 1075;
        if sh >= 11 {
            if sh == 11 && frac == 0 {
                assert(sig * pow2(11) == pow2(63)) by {
                    vstd::arithmetic::power2::lemma_pow2_adds(52, 11);
                }
                if neg {
                    return Some(i64::MIN);
                } else {
                    return Some(i64::MAX);
                }
            }
            assert(sig * pow2(sh as nat) > pow2(63)) by {
                vstd::arithmetic::power2::lemma_pow2_adds(52, 11);
                if sh > 11 {
                    lemma_pow2_strictly_increases(11, sh as nat);
                    assert(sig * pow2(sh as nat) > sig * pow2(11)) by (nonlinear_arith)
                        requires
                            pow2(sh as nat) > pow2(11),
                            sig > 0,
                    ;
                    assert(sig * pow2(11) >= pow2(52) * pow2(11)) by (nonlinear_arith)
                        requires
                            sig >= pow2(52),
                    ;
                } else {
                    assert(sig * pow2(11) > pow2(52) * pow2(11)) by (nonlinear_arith)
                        requires
                            sig > pow2(52),
                            pow2(11) > 0,
                    ;
                }
            }
            return None;
        }
        proof {
            if sh < 10 {
                lemma_pow2_strictly_increases(sh as nat, 10);
            }
            assert(sig * pow2(sh as nat) < pow2(53) * pow2(10)) by (nonlinear_arith)
                requires
                    sig < pow2(53),
                    pow2(sh as nat) <= pow2(10),
                    pow2(sh as nat) > 0,
            ;
            vstd::arithmetic::power2::lemma_pow2_adds(53, 10);
            lemma_pow2_pos(sh as nat);
            lemma_u64_shl_is_mul(sig, sh);
        }
        let mag = sig << sh;
        let m = mag as i64;
        if neg {
            return Some(-m);
        } else {
            return Some(m);
        }
    }
}

/// The number of binary digits of `m`.
pub open spec fn bit_length(m: nat) -> nat
    decreases m,
{
    if m == 0 {
        0
    } else {
        1 + bit_length(m / 2)
    }
}

/// The bit pattern of the binary64 nearest to the integer `a`, ties going to
/// the even significand, as an integer-to-float cast rounds: the magnitude's
/// leading 53 bits are kept and the rest rounds the last kept bit.
pub open spec fn int_to_f64_bits(a: int) -> u64 {
    let m: nat = if a < 0 {
        (-a) as nat
    } else {
        a as nat
    };
    let sign: int = if a < 0 {
        pow2(63) as int
    } else {
        0
    };
    let k = bit_length(m);
    if m == 0 {
        0
    } else if k <= 53 {
        (sign + (k + 1022) * pow2(52) + (m * pow2((53 - k) as nat) - pow2(52))) as u64
    } else {
        let sh = (k - 53) as nat;
        let q = m / pow2(sh);
        let r = m % pow2(sh);
        let half = pow2((sh - 1) as nat);
        let q2 = if r > half || (r == half && q % 2 == 1) {
            q + 1
        } else {
            q
        };
        if q2 == pow2(53) {
            (sign + (k + 1023) * pow2(52)) as u64
        } else {
            (sign + (k + 1022) * pow2(52) + (q2 - pow2(52))) as u64
        }
    }
}

/// The sign bit of a binary64 bit pattern.
pub const SIGN_BIT: u64 = 0x8000_0000_0000_0000;

/// The number as a binary64 bit pattern: an integer is rounded to the
/// nearest binary64, as an integer-to-float cast does.
pub open spec fn number_f64_bits(n: NumberValue) -> u64 {
    match n {
        NumberValue::Integer(i) => int_to_f64_bits(i as int),
        NumberValue::Float(bits) => bits,
    }
}

/// IEEE-754 equality of two binary64 values: NaN equals nothing, `-0.0`
/// equals `+0.0`, and otherwise the bit patterns agree.
pub open spec fn f64_eq(x: u64, y: u64) -> bool {
    !f64_is_nan(x) && !f64_is_nan(y) && (x == y || (f64_is_zero(x) && f64_is_zero(y)))
}

/// Numeric equality: integers compare as integers, floats as binary64
/// values, and an integer against a float after the integer is converted
/// to the nearest binary64.
pub open spec fn number_eq(a: NumberValue, b: NumberValue) -> bool {
    match (a, b) {
        (NumberValue::Integer(x), NumberValue::Integer(y)) => x == y,
        (NumberValue::Float(x), NumberValue::Float(y)) => f64_eq(x, y),
        (NumberValue::Integer(x), NumberValue::Float(y)) => f64_eq(int_to_f64_bits(x as int), y),
        (NumberValue::Float(x), NumberValue::Integer(y)) => f64_eq(x, int_to_f64_bits(y as int)),
    }
}

proof fn lemma_bit_length(m: nat)
    requires
        m > 0,
    ensures
        pow2((bit_length(m) - 1) as nat) <= m < pow2(bit_length(m)),
        bit_length(m) >= 1,
    decreases m,
{
    let b = bit_length(m / 2);
    assert(bit_length(m) == 1 + b);
    if m / 2 > 0 {
        lemma_bit_length(m / 2);
        vstd::arithmetic::power2::lemma_pow2_unfold(b + 1);
        vstd::arithmetic::power2::lemma_pow2_unfold(b);
        assert(pow2(b) <= m);
        assert(m < pow2(b + 1));
    } else {
        lemma2_to64();
        assert(m == 1);
        assert(bit_length(0) == 0);
        assert(bit_length(1) == 1);
    }
}

proof fn lemma_leading_zeros(m: u64)
    ensures
        vstd::std_specs::bits::u64_leading_zeros(m) == 64 - bit_length(m as nat),
    decreases m,
{
    reveal(vstd::std_specs::bits::u64_leading_zeros);
    if m > 0 {
        lemma_leading_zeros(m / 2);
    }
}

proof fn lemma_pack_f64(s: u64, e: u64, frac: u64)
    by (bit_vector)
    requires
        s == 0 || s == 0x8000_0000_0000_0000u64,
        e < 0x800,
        frac < 0x10_0000_0000_0000u64,
    ensures
        s | (e << 52u64) | frac == s + e * 0x10_0000_0000_0000u64 + frac,
        s | (e << 52u64) == s + e * 0x10_0000_0000_0000u64,
{
}

/// The bit pattern of the binary64 nearest to the integer `a`.
pub(crate) fn i64_to_f64_bits(a: i64) -> (r: u64)
    ensures
        r == int_to_f64_bits(a as int),
{
    if a == 0 {
        return 0;
    }
    let neg = a < 0;
    let m: u64 = if a == i64::MIN {
        0x8000_0000_0000_0000u64
    } else if neg {
        (-a) as u64
    } else {
        a as u64
    };
    magnitude_to_f64_bits(neg, m)
}

/// The bit pattern of the binary64 nearest to the integer `v`.
pub fn u64_to_f64_bits(v: u64) -> (r: u64)
    ensures
        r == int_to_f64_bits(v as int),
{
    if v == 0 {
        return 0;
    }
    magnitude_to_f64_bits(false, v)
}

/// The bit pattern of the binary64 nearest to `m`, negated when `neg`.
#[verifier::rlimit(30)]
#[verifier::spinoff_prover]
fn magnitude_to_f64_bits(neg: bool, m: u64) -> (r: u64)
    requires
        m > 0,
    ensures
        r == int_to_f64_bits(
            if neg {
                -(m as int)
            } else {
                m as int
            },
        ),
{
    proof {
        lemma2_to64();
        lemma2_to64_rest();
    }
    let sign: u64 = if neg {
        0x8000_0000_0000_0000u64
    } else {
        0
    };
    proof {
        lemma_leading_zeros(m);
        lemma_bit_length(m as nat);
        if bit_length(m as nat) > 64 {
            lemma_pow2_strictly_increases(64, (bit_length(m as nat) - 1) as nat);
        }
    }
    let k: u64 = 64 - m.leading_zeros() as u64;
    assert(k == bit_length(m as nat));
    if k <= 53 {
        let up = 53 - k;
        proof {
            lemma_pow2_pos(up as nat);
            vstd::arithmetic::power2::lemma_pow2_adds((k - 1) as nat, up as nat);
            vstd::arithmetic::power2::lemma_pow2_adds(k as nat, up as nat);
            assert(m * pow2(up as nat) < pow2(k as nat) * pow2(up as nat)) by (nonlinear_arith)
                requires
                    m < pow2(k as nat),
                    pow2(up as nat) > 0,
            ;
            assert(m * pow2(up as nat) >= pow2((k - 1) as nat) * pow2(up as nat)) by (nonlinear_arith)
                requires
                    m >= pow2((k - 1) as nat),
            ;
            lemma_u64_shl_is_mul(m, up);
        }
        let frac = (m << up) - 0x10_0000_0000_0000u64;
        let e = k + 1022;
        proof {
            lemma_pack_f64(sign, e, frac);
        }
        return sign | (e << 52u64) | frac;
    }
    let sh = k - 53;
    let one: u64 = 1;
    proof {
        lemma_pow2_pos(sh as nat);
        lemma_pow2_pos((sh - 1) as nat);
        vstd::bits::lemma_u64_pow2_no_overflow(sh as nat);
        vstd::bits::lemma_u64_pow2_no_overflow((sh - 1) as nat);
        lemma_u64_shl_is_mul(one, sh);
        lemma_u64_shl_is_mul(one, (sh - 1) as u64);
    }
    let q = m >> sh;
    let mask = (one << sh) - 1;
    let r = m & mask;
    let half = one << (sh - 1);
    proof {
        lemma_u64_shr_is_div(m, sh);
        assert(mask == low_bits_mask(sh as nat));
        lemma_u64_low_bits_mask_is_mod(m, sh as nat);
        assert(low_bits_mask(1) == 1);
        lemma_u64_low_bits_mask_is_mod(q, 1);
        vstd::arithmetic::power2::lemma_pow2_adds(52, sh as nat);
        vstd::arithmetic::power2::lemma_pow2_adds(53, sh as nat);
        vstd::arithmetic::div_mod::lemma_div_is_ordered(
            pow2(52) * pow2(sh as nat) as int,
            m as int,
            pow2(sh as nat) as int,
        );
        vstd::arithmetic::div_mod::lemma_div_by_multiple(pow2(52) as int, pow2(sh as nat) as int);
        vstd::arithmetic::div_mod::lemma_div_by_multiple_is_strongly_ordered(
            m as int,
            pow2(53) * pow2(sh as nat) as int,
            pow2(53) as int,
            pow2(sh as nat) as int,
        );
        vstd::arithmetic::div_mod::lemma_div_by_multiple(pow2(53) as int, pow2(sh as nat) as int);
        assert(q < pow2(53));
        assert(q >= pow2(52));
    }
    let round_up = r > half || (r == half && (q & 1) == 1);
    let q2 = if round_up {
        q + 1
    } else {
        q
    };
    if q2 == 0x20_0000_0000_0000u64 {
        let e = k + 1023;
        proof {
            lemma_pack_f64(sign, e, 0);
        }
        return sign | (e << 52u64);
    }
    let frac = q2 - 0x10_0000_0000_0000u64;
    let e = k + 1022;
    proof {
        lemma_pack_f64(sign, e, frac);
    }
    sign | (e << 52u64) | frac
}

pub(crate) fn f64_bits_eq(x: u64, y: u64) -> (r: bool)
    ensures
        r == f64_eq(x, y),
{
    proof {
        lemma_f64_fields(x);
        lemma_f64_fields(y);
    }
    let x_nan = (x >> 52u64) & 0x7ffu64 == 0x7ff && x & 0xf_ffff_ffff_ffffu64 != 0;
    let y_nan = (y >> 52u64) & 0x7ffu64 == 0x7ff && y & 0xf_ffff_ffff_ffffu64 != 0;
    if x_nan || y_nan {
        return false;
    }
    x == y || (x & 0x7fff_ffff_ffff_ffffu64 == 0 && y & 0x7fff_ffff_ffff_ffffu64 == 0)
}

impl PartialEq for NumberValue {
    fn eq(&self, other: &Self) -> (r: bool) {
        match (*self, *other) {
            (NumberValue::Integer(a), NumberValue::Integer(b)) => a == b,
            (NumberValue::Float(a), NumberValue::Float(b)) => f64_bits_eq(a, b),
            (NumberValue::Integer(a), NumberValue::Float(b)) => f64_bits_eq(i64_to_f64_bits(a), b),
            (NumberValue::Float(a), NumberValue::Integer(b)) => f64_bits_eq(a, i64_to_f64_bits(b)),
        }
    }
}

impl vstd::std_specs::cmp::PartialEqSpecImpl for NumberValue {
    open spec fn obeys_eq_spec() -> bool {
        true
    }

    open spec fn eq_spec(&self, other: &NumberValue) -> bool {
        number_eq(*self, *other)
    }
}

impl NumberValue {
    pub fn from_i64(value: i64) -> (r: NumberValue)
        ensures
            r == NumberValue::Integer(value),
    {
        NumberValue::Integer(value)
    }

    pub fn is_integer(&self) -> (r: bool)
        ensures
            r == (self is Integer),
    {
        matches!(self, NumberValue::Integer(_))
    }

    /// The number as an `i64`; see [`number_as_i64`].
    pub fn as_i64(&self) -> (r: Option<i64>)
        ensures
            r == number_as_i64(*self),
    {
        match *self {
            NumberValue::Integer(i) => Some(i),
            NumberValue::Float(bits) => float_bits_as_i64(bits),
        }
    }

    /// Zero, where `-0.0` counts as zero.
    pub fn is_zero(&self) -> (r: bool)
        ensures
            r == number_is_zero(*self),
    {
        match *self {
            NumberValue::Integer(i) => i == 0,
            NumberValue::Float(bits) => {
                proof {
                    lemma_f64_fields(bits);
                }
                bits & 0x7fff_ffff_ffff_ffffu64 == 0
            },
        }
    }

    /// The number for a binary64 value given by its bit pattern: a whole
    /// value from -2^63 to 2^63 becomes an `Integer` (2^63 saturating to
    /// `i64::MAX`), anything else stays a `Float`.
    pub fn from_f64_bits(bits: u64) -> (r: NumberValue)
        ensures
            r == (match number_as_i64(NumberValue::Float(bits)) {
                Some(i) => NumberValue::Integer(i),
                None => NumberValue::Float(bits),
            }),
    {
        match float_bits_as_i64(bits) {
            Some(i) => NumberValue::Integer(i),
            None => NumberValue::Float(bits),
        }
    }

    /// The number as a binary64 bit pattern; an integer rounds to the
    /// nearest binary64.
    pub fn as_f64_bits(&self) -> (r: u64)
        ensures
            r == number_f64_bits(*self),
    {
        match *self {
            NumberValue::Integer(i) => i64_to_f64_bits(i),
            NumberValue::Float(bits) => bits,
        }
    }

    /// The negation. An integer stays one unless it is `i64::MIN`, whose
    /// negation becomes the binary64 2^63; a float has its sign bit flipped.
    pub fn neg(&self) -> (r: NumberValue)
        ensures
            r == (match *self {
                NumberValue::Integer(i) => if i == i64::MIN {
                    NumberValue::Float(int_to_f64_bits(i as int) ^ SIGN_BIT)
                } else {
                    NumberValue::Integer((-i) as i64)
                },
                NumberValue::Float(bits) => NumberValue::Float(bits ^ SIGN_BIT),
            }),
    {
        match *self {
            NumberValue::Integer(i) => if i == i64::MIN {
                NumberValue::Float(i64_to_f64_bits(i) ^ SIGN_BIT)
            } else {
                NumberValue::Integer(-i)
            },
            NumberValue::Float(bits) => NumberValue::Float(bits ^ SIGN_BIT),
        }
    }

    /// The absolute value. An integer stays one unless it is `i64::MIN`,
    /// whose absolute value becomes the binary64 2^63; a float has its sign
    /// bit cleared.
    pub fn abs(&self) -> (r: NumberValue)
        ensures
            r == (match *self {
                NumberValue::Integer(i) => if i == i64::MIN {
                    NumberValue::Float(int_to_f64_bits(i as int) & !SIGN_BIT)
                } else if i < 0 {
                    NumberValue::Integer((-i) as i64)
                } else {
                    NumberValue::Integer(i)
                },
                NumberValue::Float(bits) => NumberValue::Float(bits & !SIGN_BIT),
            }),
    {
        match *self {
            NumberValue::Integer(i) => if i == i64::MIN {
                NumberValue::Float(i64_to_f64_bits(i) & !SIGN_BIT)
            } else if i < 0 {
                NumberValue::Integer(-i)
            } else {
                NumberValue::Integer(i)
            },
            NumberValue::Float(bits) => NumberValue::Float(bits & !SIGN_BIT),
        }
    }

    pub fn is_nan(&self) -> (r: bool)
        ensures
            r == (*self matches NumberValue::Float(bits) && f64_is_nan(bits)),
    {
        match *self {
            NumberValue::Integer(_) => false,
            NumberValue::Float(bits) => (bits >> 52u64) & 0x7ffu64 == 0x7ff && bits
                & 0xf_ffff_ffff_ffffu64 != 0,
        }
    }
}

/// `a + b`, when it fits an `i64`.
pub fn int_add(a: i64, b: i64) -> (r: Option<i64>)
    ensures
        r == (if i64::MIN <= a + b <= i64::MAX {
            Some((a + b) as i64)
        } else {
            None::<i64>
        }),
{
    a.checked_add(b)
}

/// `a - b`, when it fits an `i64`.
pub fn int_sub(a: i64, b: i64) -> (r: Option<i64>)
    ensures
        r == (if i64::MIN <= a - b <= i64::MAX {
            Some((a - b) as i64)
        } else {
            None::<i64>
        }),
{
    a.checked_sub(b)
}

/// `a * b`, when it fits an `i64`.
pub fn int_mul(a: i64, b: i64) -> (r: Option<i64>)
    ensures
        r == (if i64::MIN <= a * b <= i64::MAX {
            Some((a * b) as i64)
        } else {
            None::<i64>
        }),
{
    a.checked_mul(b)
}

/// `a / b` rounded toward zero, as integer division does.
pub open spec fn trunc_div(a: int, b: int) -> int {
    if a >= 0 {
        a / b
    } else {
        -((-a) / b)
    }
}

/// `a % b` with the sign of `a`, as the integer remainder has.
pub open spec fn trunc_rem(a: int, b: int) -> int {
    a - trunc_div(a, b) * b
}

/// Dividing by a negative number: the quotient is that by its magnitude,
/// negated.
proof fn lemma_div_by_negative(x: int, b: int)
    requires
        x >= 0,
        b < 0,
    ensures
        x / b == -(x / (-b)),
{
    vstd::arithmetic::div_mod::lemma_fundamental_div_mod(x, b);
    vstd::arithmetic::div_mod::lemma_fundamental_div_mod(x, -b);
    vstd::arithmetic::div_mod::lemma_mod_bound(x, -b);
    assert(0 <= x % b < -b) by (nonlinear_arith)
        requires
            b < 0,
    ;
    assert(x / b == -(x / (-b))) by (nonlinear_arith)
        requires
            x == b * (x / b) + x % b,
            x == (-b) * (x / (-b)) + x % (-b),
            0 <= x % b < -b,
            0 <= x % (-b) < -b,
    ;
}

/// Truncating division works on the magnitudes: their quotient, negative
/// when exactly one of `a` and `b` is, and their remainder with the sign
/// of `a`.
proof fn lemma_trunc_by_magnitudes(a: int, b: int, ma: int, mb: int)
    requires
        b != 0,
        ma == (if a < 0 { -a } else { a }),
        mb == (if b < 0 { -b } else { b }),
    ensures
        trunc_div(a, b) == (if (a < 0) != (b < 0) { -(ma / mb) } else { ma / mb }),
        trunc_rem(a, b) == (if a < 0 { -(ma % mb) } else { ma % mb }),
{
    if b < 0 {
        lemma_div_by_negative(ma, b);
    }
    vstd::arithmetic::div_mod::lemma_fundamental_div_mod(ma, mb);
    assert(ma == mb * (ma / mb) + ma % mb);
    if a < 0 {
        assert(trunc_rem(a, b) == -(ma % mb)) by (nonlinear_arith)
            requires
                trunc_div(a, b) == (if b < 0 { ma / mb } else { -(ma / mb) }),
                trunc_rem(a, b) == a - trunc_div(a, b) * b,
                a == -ma,
                mb == (if b < 0 { -b } else { b }),
                ma == mb * (ma / mb) + ma % mb,
        ;
    } else {
        assert(trunc_rem(a, b) == ma % mb) by (nonlinear_arith)
            requires
                trunc_div(a, b) == (if b < 0 { -(ma / mb) } else { ma / mb }),
                trunc_rem(a, b) == a - trunc_div(a, b) * b,
                a == ma,
                mb == (if b < 0 { -b } else { b }),
                ma == mb * (ma / mb) + ma % mb,
        ;
    }
}

/// The magnitude of `x`.
fn magnitude(x: i64) -> (r: u64)
    ensures
        r == (if x < 0 {
            -x
        } else {
            x as int
        }),
{
    if x == i64::MIN {
        0x8000_0000_0000_0000u64
    } else if x < 0 {
        (-x) as u64
    } else {
        x as u64
    }
}

/// `a / b` as an integer, when `b` divides `a` and the quotient fits an
/// `i64` (`i64::MIN / -1` does not).
pub fn int_div(a: i64, b: i64) -> (r: Option<i64>)
    requires
        b != 0,
    ensures
        r is Some <==> !(a == i64::MIN && b == -1) && trunc_rem(a as int, b as int) == 0,
        r matches Some(q) ==> q == trunc_div(a as int, b as int),
{
    if a == i64::MIN && b == -1 {
        return None;
    }
    let ma = magnitude(a);
    let mb = magnitude(b);
    proof {
        lemma_trunc_by_magnitudes(a as int, b as int, ma as int, mb as int);
    }
    if ma % mb != 0 {
        return None;
    }
    let q = ma / mb;
    proof {
        if mb == 1 {
            assert(q == ma);
        } else {
            assert(q <= ma / 2) by {
                vstd::arithmetic::div_mod::lemma_div_is_ordered_by_denominator(ma as int, 2, mb as int);
            }
        }
    }
    if (a < 0) != (b < 0) {
        if q == 0x8000_0000_0000_0000u64 {
            Some(i64::MIN)
        } else {
            Some(-(q as i64))
        }
    } else {
        Some(q as i64)
    }
}

/// The remainder of `a / b`, with the sign of `a`; `i64::MIN % -1`, whose
/// quotient does not fit an `i64`, has remainder 0.
pub fn int_rem(a: i64, b: i64) -> (r: i64)
    requires
        b != 0,
    ensures
        r == trunc_rem(a as int, b as int),
{
    let ma = magnitude(a);
    let mb = magnitude(b);
    let m = ma % mb;
    proof {
        lemma_trunc_by_magnitudes(a as int, b as int, ma as int, mb as int);
        vstd::arithmetic::div_mod::lemma_mod_bound(ma as int, mb as int);
    }
    if a < 0 {
        -(m as i64)
    } else {
        m as i64
    }
}

} // verus!
