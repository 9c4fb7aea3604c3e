//! A byte-level parser-combinator core.
//!
//! Parsers are functions from an input byte slice to a three-way
//! [`IResult`](internal::IResult): success with the unconsumed remainder and
//! the parsed value, a positioned failure, or a signal that more input is
//! needed before a decision can be made.

pub mod bytes;
pub mod internal;
pub mod util;

pub use internal::{ParseError, GetInput, GetOutput, IResult, Needed};
pub use util::ErrorKind;
