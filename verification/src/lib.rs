//! A JSON deserializer whose every step is proved to do what its contract
//! says.
//!
//! [`Deserializer`] reads JSON text from a source, either value by value or in
//! steps that let the caller build what it wants. [`from_slice`] and
//! [`from_str`] read a whole text into a [`Value`]; [`StreamDeserializer`]
//! reads a stream of arrays and objects.
//!
//! What a step makes of the text is said by the specification functions of
//! [`grammar`], [`number`] and [`string`]. Each gives, for a text and a place
//! in it, the value and the place behind it, or the reason and the place of
//! the error. What follows from them for the library as a whole is proved in
//! [`laws`].
pub mod ascii;
pub mod de;
pub mod error;
pub mod extension;
pub mod grammar;
pub mod laws;
pub mod locality;
pub mod number;
pub mod outcome;
pub mod parse;
pub mod progress;
pub mod range;
pub mod read;
pub mod stream;
pub mod string;
pub mod value;

pub use crate::de::Deserializer;
pub use crate::error::{Category, Error, ErrorCode, Result};
pub use crate::number::{Decimal, Number};
pub use crate::parse::{BytesOr, Head, MapAccess, SeqAccess, Variant};
pub use crate::read::{Position, Read, Reference, SliceRead, StrRead};
pub use crate::stream::{from_slice, from_str, StreamDeserializer};
pub use crate::value::Value;
