//! Word-at-a-time (SWAR) scanning: eight bytes are read as one little-endian
//! word and the first quote, backslash or control byte among them is found
//! from a branch-free mask.

use vstd::prelude::*;
use vstd::std_specs::bits::u64_trailing_zeros;
use vstd::wrapping::u64_specs;

use crate::parser::is_string_special;

verus! {

broadcast use vstd::std_specs::bits::axiom_u64_trailing_zeros;

pub const ONES: u64 = 0x0101_0101_0101_0101;

pub const HIGHS: u64 = 0x8080_8080_8080_8080;

/// Byte `k` of `w`, counting from the least significant byte.
pub open spec fn word_byte(w: u64, k: u64) -> u8 {
    ((w >> (8 * k) as u64) & 0xff) as u8
}

/// No byte of `w` is a quote, a backslash or a control byte.
pub open spec fn no_special_in_word(w: u64) -> bool {
    forall|j: u64| j < 8 ==> !is_string_special(#[trigger] word_byte(w, j))
}

/// Byte `k` of `w` is the first one that is a quote, a backslash or a
/// control byte.
pub open spec fn first_special_in_word(w: u64, k: u64) -> bool {
    &&& k < 8
    &&& is_string_special(word_byte(w, k))
    &&& forall|j: u64| j < k ==> !is_string_special(#[trigger] word_byte(w, j))
}

/// The word-at-a-time mask: XOR turns a byte equal to `"` or `\` into zero,
/// clearing the low five bits turns a byte below 0x20 into zero, and
/// `(z - 0x01..) & !z & 0x80..` marks zero bytes.
pub open spec fn swar_mask(w: u64) -> u64 {
    let q = w ^ 0x2222_2222_2222_2222u64;
    let bs = w ^ 0x5C5C_5C5C_5C5C_5C5Cu64;
    let lo = w & 0xE0E0_E0E0_E0E0_E0E0u64;
    ((u64_specs::wrapping_sub(q, ONES) & !q) | (u64_specs::wrapping_sub(bs, ONES) & !bs) | (
    u64_specs::wrapping_sub(lo, ONES) & !lo)) & HIGHS
}

/// The index of the first special byte of `w`, or 8 when there is none.
spec fn first_in_word(w: u64) -> u64 {
    if is_string_special(word_byte(w, 0)) {
        0
    } else if is_string_special(word_byte(w, 1)) {
        1
    } else if is_string_special(word_byte(w, 2)) {
        2
    } else if is_string_special(word_byte(w, 3)) {
        3
    } else if is_string_special(word_byte(w, 4)) {
        4
    } else if is_string_special(word_byte(w, 5)) {
        5
    } else if is_string_special(word_byte(w, 6)) {
        6
    } else if is_string_special(word_byte(w, 7)) {
        7
    } else {
        8
    }
}

/// Below the first special byte the mask is clear, and at it the high bit is
/// set (a borrow can only mark bytes after the first zero byte).
proof fn lemma_swar_mask_bits(w: u64, j: u64)
    by (bit_vector)
    ensures
        first_in_word(w) <= 8,
        first_in_word(w) == 8 ==> swar_mask(w) == 0,
        first_in_word(w) < 8 ==> swar_mask(w) << (56 - 8 * first_in_word(w)) as u64
            == 0x8000_0000_0000_0000u64,
        first_in_word(w) < 8 ==> is_string_special(word_byte(w, first_in_word(w))),
        j < first_in_word(w) ==> !is_string_special(word_byte(w, j)),
{
}

/// Where the bits of `m` below byte `k` are clear and the top bit of byte `k`
/// is set, the lowest set bit of `m` is that top bit.
proof fn lemma_low_set_bit(m: u64, k: u64, t: u64)
    by (bit_vector)
    requires
        k < 8,
        m << (56 - 8 * k) as u64 == 0x8000_0000_0000_0000u64,
        t < 64,
        (m >> t) & 1 == 1,
    ensures
        t >= 8 * k + 7,
        (m >> (8 * k + 7) as u64) & 1 == 1,
{
}

proof fn lemma_nonzero(m: u64, k: u64)
    by (bit_vector)
    requires
        k < 8,
        m << (56 - 8 * k) as u64 == 0x8000_0000_0000_0000u64,
    ensures
        m != 0,
{
}

/// What the mask says about the bytes of `w`.
pub proof fn lemma_swar_mask(w: u64)
    ensures
        swar_mask(w) == 0 <==> no_special_in_word(w),
        swar_mask(w) != 0 ==> first_special_in_word(w, u64_trailing_zeros(swar_mask(w)) as u64 / 8),
{
    let m = swar_mask(w);
    let k = first_in_word(w);
    lemma_swar_mask_bits(w, 0);
    assert forall|j: u64| j < k implies !is_string_special(#[trigger] word_byte(w, j)) by {
        lemma_swar_mask_bits(w, j);
    }
    if k < 8 {
        lemma_nonzero(m, k);
        let t = u64_trailing_zeros(m) as u64;
        lemma_low_set_bit(m, k, t);
        let top = (8 * k + 7) as u64;
        assert((m >> top) & 1u64 == 1u64);
        assert(t == top);
        assert(t / 8 == k);
        assert(is_string_special(word_byte(w, k)));
    }
}

/// Marks, in the top bit of each byte, the bytes of `w` that are `"`, `\`
/// or below 0x20, exactly up to and including the first of them.
pub fn mask(w: u64) -> (m: u64)
    ensures
        m == swar_mask(w),
        m == 0 <==> no_special_in_word(w),
        m != 0 ==> first_special_in_word(w, (m.trailing_zeros() / 8) as u64),
{
    let q = w ^ 0x2222_2222_2222_2222u64;
    let bs = w ^ 0x5C5C_5C5C_5C5C_5C5Cu64;
    let lo = w & 0xE0E0_E0E0_E0E0_E0E0u64;
    let m_q = q.wrapping_sub(ONES) & !q;
    let m_bs = bs.wrapping_sub(ONES) & !bs;
    let m_lo = lo.wrapping_sub(ONES) & !lo;
    proof {
        lemma_swar_mask(w);
    }
    (m_q | m_bs | m_lo) & HIGHS
}

/// The eight bytes of `b` from `i`, as a little-endian word.
proof fn lemma_word_bytes(b0: u8, b1: u8, b2: u8, b3: u8, b4: u8, b5: u8, b6: u8, b7: u8, k: u64)
    by (bit_vector)
    ensures
        ({
            let w = (b0 as u64) | ((b1 as u64) << 8) | ((b2 as u64) << 16) | ((b3 as u64) << 24) | ((
            b4 as u64) << 32) | ((b5 as u64) << 40) | ((b6 as u64) << 48) | ((b7 as u64) << 56);
            &&& k == 0 ==> word_byte(w, k) == b0
            &&& k == 1 ==> word_byte(w, k) == b1
            &&& k == 2 ==> word_byte(w, k) == b2
            &&& k == 3 ==> word_byte(w, k) == b3
            &&& k == 4 ==> word_byte(w, k) == b4
            &&& k == 5 ==> word_byte(w, k) == b5
            &&& k == 6 ==> word_byte(w, k) == b6
            &&& k == 7 ==> word_byte(w, k) == b7
        }),
{
}

/// Reads the eight bytes of `b` from `i` as a little-endian word.
pub fn load_word(b: &[u8], i: usize) -> (w: u64)
    requires
        i + 8 <= b.len(),
    ensures
        forall|k: u64| k < 8 ==> #[trigger] word_byte(w, k) == b@[i + k],
{
    let w = (b[i] as u64) | ((b[i + 1] as u64) << 8) | ((b[i + 2] as u64) << 16) | ((b[i + 3] as u64)
        << 24) | ((b[i + 4] as u64) << 32) | ((b[i + 5] as u64) << 40) | ((b[i + 6] as u64) << 48)
        | ((b[i + 7] as u64) << 56);
    proof {
        assert forall|k: u64| k < 8 implies #[trigger] word_byte(w, k) == b@[i + k] by {
            lemma_word_bytes(b[i as int], b[i + 1], b[i + 2], b[i + 3], b[i + 4], b[i + 5], b[i + 6], b[i + 7], k);
        }
    }
    w
}

/// `i` is the index of the first quote, backslash or control byte of `s`.
pub open spec fn first_special(s: Seq<u8>, i: int) -> bool {
    &&& 0 <= i < s.len()
    &&& is_string_special(s[i])
    &&& forall|j: int| 0 <= j < i ==> !is_string_special(#[trigger] s[j])
}

/// No byte of `s` is a quote, a backslash or a control byte.
pub open spec fn no_special(s: Seq<u8>) -> bool {
    forall|j: int| 0 <= j < s.len() ==> !is_string_special(#[trigger] s[j])
}

/// The offset of the first byte of `bytes` that is `"`, `\` or below 0x20,
/// scanning eight bytes at a time and the tail byte by byte.
#[verifier::rlimit(30)]
#[verifier::spinoff_prover]
pub fn find_string_terminator(bytes: &[u8]) -> (r: Option<usize>)
    ensures
        match r {
            Some(i) => first_special(bytes@, i as int),
            None => no_special(bytes@),
        },
{
    let len = bytes.len();
    let mut i: usize = 0;
    while len - i >= 8
        invariant
            len == bytes.len(),
            i <= len,
            forall|j: int| 0 <= j < i ==> !is_string_special(#[trigger] bytes@[j]),
        decreases len - i,
    {
        let w = load_word(bytes, i);
        let m = mask(w);
        if m != 0 {
            let off = (m.trailing_zeros() / 8) as usize;
            proof {
                assert(word_byte(w, off as u64) == bytes@[i + off]);
                assert forall|j: int| 0 <= j < i + off implies !is_string_special(#[trigger] bytes@[j]) by {
                    if j >= i {
                        assert(word_byte(w, (j - i) as u64) == bytes@[j]);
                    }
                }
            }
            return Some(i + off);
        }
        proof {
            assert forall|j: int| 0 <= j < i + 8 implies !is_string_special(#[trigger] bytes@[j]) by {
                if j >= i {
                    assert(word_byte(w, (j - i) as u64) == bytes@[j]);
                }
            }
        }
        i += 8;
    }
    while i < len
        invariant
            len == bytes.len(),
            i <= len,
            forall|j: int| 0 <= j < i ==> !is_string_special(#[trigger] bytes@[j]),
        decreases len - i,
    {
        let b = bytes[i];
        if b == 0x22 || b == 0x5C || b < 0x20 {
            return Some(i);
        }
        i += 1;
    }
    None
}

} // verus!
