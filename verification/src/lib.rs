//! Arena-allocated JSON values with a verified byte-level parser and emitter.
//!
//! `DataValue<'a>` keeps every composite payload in a `bumpalo::Bump`;
//! `OwnedDataValue` is the heap-owned counterpart. Both are described by the
//! same mathematical model, [`model::SVal`], over which the parser, the
//! emitters and the accessors state their contracts.

pub mod arena;
pub mod compare;
pub mod datetime;
pub mod duration_text;
pub mod emit;
pub mod laws;
pub mod model;
pub mod number;
pub mod owned;
pub mod parser;
pub mod pretty_roundtrip;
pub mod roundtrip;
mod sealed;
pub mod simd;
pub mod text;
pub mod value;

pub use datetime::{DataDateTime, DataDuration};
pub use emit::Pretty;
pub use number::NumberValue;
pub use owned::{OwnedDataValue, OwnedValueIndex};
pub use parser::{ParseError, ParseErrorKind};
pub use value::{DataValue, ValueIndex};
