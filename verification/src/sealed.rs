//! The index types that `get` and `[]` accept; no other crate can add one.

use vstd::prelude::*;

verus! {

pub trait Sealed {

}

impl Sealed for str {

}

impl Sealed for String {

}

impl Sealed for usize {

}

impl<T: Sealed + ?Sized> Sealed for &T {

}

} // verus!
