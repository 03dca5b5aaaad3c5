//! Facts about UTF-8 text that the parser and the emitter rely on: an ASCII
//! byte always stands alone, so the text around it can be cut there.

use vstd::prelude::*;
use vstd::string::StringSliceAdditionalSpecFns;
use vstd::utf8::*;

verus! {

broadcast use vstd::seq::group_seq_axioms;

/// In valid UTF-8, the position just after an ASCII byte starts a character.
pub proof fn lemma_boundary_after_ascii(b: Seq<u8>, i: int)
    requires
        valid_utf8(b),
        0 <= i < b.len(),
        b[i] < 0x80,
    ensures
        is_char_boundary(b, i + 1),
    decreases b.len(),
{
    let k = length_of_first_scalar(b);
    if i == 0 {
        assert(k == 1);
        assert(is_char_boundary(pop_first_scalar(b), 0));
    } else {
        assert(k <= i) by {
            if i < k {
                assert(is_continuation_byte(b[i]));
            }
        }
        let rest = pop_first_scalar(b);
        assert(rest[i - k] == b[i]);
        lemma_boundary_after_ascii(rest, i - k);
    }
}

/// In valid UTF-8, an ASCII byte starts a character.
pub proof fn lemma_boundary_at_ascii(b: Seq<u8>, i: int)
    requires
        valid_utf8(b),
        0 <= i < b.len(),
        b[i] < 0x80,
    ensures
        is_char_boundary(b, i),
{
    is_char_boundary_iff_not_is_continuation_byte(b, i);
}

/// The bytes strictly between two ASCII bytes of valid UTF-8 are valid UTF-8.
pub proof fn lemma_valid_between_ascii(b: Seq<u8>, i: int, j: int)
    requires
        valid_utf8(b),
        0 <= i < j < b.len(),
        b[i] < 0x80,
        b[j] < 0x80,
    ensures
        valid_utf8(b.subrange(i + 1, j)),
{
    lemma_boundary_after_ascii(b, i);
    valid_utf8_split(b, i + 1);
    let rest = b.subrange(i + 1, b.len() as int);
    assert(rest[j - i - 1] == b[j]);
    lemma_boundary_at_ascii(rest, j - i - 1);
    valid_utf8_split(rest, j - i - 1);
    assert(rest.subrange(0, j - i - 1) =~= b.subrange(i + 1, j));
}

/// A single ASCII byte is valid UTF-8.
pub proof fn lemma_ascii_byte_valid(x: u8)
    requires
        x < 0x80,
    ensures
        valid_utf8(seq![x]),
{
    let s = seq![x];
    assert(pop_first_scalar(s) =~= Seq::<u8>::empty());
    reveal_with_fuel(valid_utf8, 2);
}

/// The encoding of a Unicode scalar value is valid UTF-8.
pub proof fn lemma_encode_scalar_valid(x: u32)
    requires
        is_scalar(x),
    ensures
        valid_utf8(encode_scalar(x)),
{
    let c = x as char;
    assert(c as u32 == x);
    let cs = seq![c];
    encode_utf8_valid_utf8(cs);
    assert(cs.drop_first() =~= Seq::<char>::empty());
    reveal_with_fuel(encode_utf8, 2);
    assert(encode_utf8(cs) =~= encode_scalar(x));
}

/// Bytes that are all ASCII are valid UTF-8.
pub proof fn lemma_ascii_valid(t: Seq<u8>)
    requires
        forall|k: int| 0 <= k < t.len() ==> #[trigger] t[k] < 0x80,
    ensures
        valid_utf8(t),
    decreases t.len(),
{
    if t.len() > 0 {
        let rest = pop_first_scalar(t);
        assert(rest =~= t.subrange(1, t.len() as int));
        assert forall|k: int| 0 <= k < rest.len() implies #[trigger] rest[k] < 0x80 by {
            assert(rest[k] == t[k + 1]);
        }
        lemma_ascii_valid(rest);
    }
}

/// The valid UTF-8 before an ASCII byte, and after it.
pub proof fn lemma_split_at_ascii(b: Seq<u8>, i: int)
    requires
        valid_utf8(b),
        0 <= i < b.len(),
        b[i] < 0x80,
    ensures
        valid_utf8(b.subrange(0, i)),
        valid_utf8(b.subrange(i + 1, b.len() as int)),
{
    lemma_boundary_at_ascii(b, i);
    valid_utf8_split(b, i);
    lemma_boundary_after_ascii(b, i);
    valid_utf8_split(b, i + 1);
}

/// Whether two strings hold the same text, compared byte by byte.
pub(crate) fn str_eq(a: &str, b: &str) -> (r: bool)
    ensures
        r == (a.spec_bytes() == b.spec_bytes()),
{
    let x = a.as_bytes();
    let y = b.as_bytes();
    if x.len() != y.len() {
        return false;
    }
    let mut i: usize = 0;
    while i < x.len()
        invariant
            x@ == a.spec_bytes(),
            y@ == b.spec_bytes(),
            x.len() == y.len(),
            i <= x.len(),
            forall|j: int| 0 <= j < i ==> x@[j] == y@[j],
        decreases x.len() - i,
    {
        if x[i] != y[i] {
            return false;
        }
        i += 1;
    }
    assert(x@ =~= y@);
    true
}

} // verus!
