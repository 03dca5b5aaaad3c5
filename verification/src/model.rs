//! The mathematical model of a JSON value shared by every contract.

use vstd::prelude::*;

use crate::datetime::{DataDateTime, DataDuration};
use crate::number::NumberValue;

verus! {

/// A JSON value as a mathematical tree: strings are their UTF-8 bytes,
/// arrays and objects are sequences (objects keep insertion order); an
/// instant or a duration is carried as it is.
pub enum SVal {
    Null,
    Bool(bool),
    Number(NumberValue),
    Str(Seq<u8>),
    Arr(Seq<SVal>),
    Obj(Seq<(Seq<u8>, SVal)>),
    DateTime(DataDateTime),
    Duration(DataDuration),
}

} // verus!
