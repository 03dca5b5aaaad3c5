//! The calls into `bumpalo` that the arena-backed values need.

use vstd::prelude::*;

verus! {

#[verifier::external_type_specification]
#[verifier::external_body]
pub struct ExBump<const MIN_ALIGN: usize>(bumpalo::Bump<MIN_ALIGN>);

/// Calls `bumpalo::Bump::alloc_str`, which copies `s` into the arena and
/// returns the copy; the contract claims the copy holds the same text.
#[verifier::external_body]
pub(crate) fn alloc_str<'a>(arena: &'a bumpalo::Bump, s: &str) -> (r: &'a str)
    ensures
        r@ == s@,
{
    arena.alloc_str(s)
}

/// Calls `bumpalo::Bump::alloc_slice_copy`, which copies the items of `items`
/// into the arena; the contract claims the copy holds the same items in the
/// same order.
#[verifier::external_body]
pub(crate) fn alloc_slice_copy<'a, T: Copy>(arena: &'a bumpalo::Bump, items: &[T]) -> (r: &'a [T])
    ensures
        r@ == items@,
{
    arena.alloc_slice_copy(items)
}

/// Calls `bumpalo::Bump::new`, which makes an empty arena; nothing is
/// claimed of it.
#[verifier::external_body]
pub(crate) fn new_arena() -> (r: bumpalo::Bump) {
    bumpalo::Bump::new()
}

} // verus!
