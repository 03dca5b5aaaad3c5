//! Finding the bytes of JSON string text that end a plain run: a quote, a
//! backslash or a control byte. The parser looks for them to end a string,
//! the emitter to find what needs escaping; the criteria are the same.

use vstd::prelude::*;

pub mod swar;

use self::swar::{first_special, no_special};

verus! {

/// The offset of the first byte in `bytes` that is `"`, `\\`, or a control
/// byte (below 0x20), or `None` when there is no such byte. Bytes of 0x80
/// and above, the bytes of multi-byte UTF-8 characters, are never flagged.
pub fn find_string_terminator(bytes: &[u8]) -> (r: Option<usize>)
    ensures
        match r {
            Some(i) => first_special(bytes@, i as int),
            None => no_special(bytes@),
        },
{
    swar::find_string_terminator(bytes)
}

} // verus!
