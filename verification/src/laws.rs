//! What holds of the library as a whole.
//!
//! Each law is a proof function whose name begins with `law_`. It speaks of
//! the functions by which the contracts of the library say what is read, and
//! says what those give in terms of the text: byte by byte, in the numbers of
//! the bytes, and by the forms that values are written in.

pub mod documents;
pub mod ends;
pub mod failures;
pub mod forms;
pub mod nesting;
pub mod notation;
pub mod numbers;
pub mod numerals;
pub mod only;
pub mod pieces;
pub mod places;
pub mod ranges;
pub mod reading;
pub mod refusals;
pub mod results;
pub mod sources;
pub mod steps;
pub mod streams;
pub mod strings;
