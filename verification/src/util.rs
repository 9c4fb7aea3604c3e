//! The error taxonomy: which primitive failed, and how.

use vstd::prelude::*;

verus! {

/// Identifies the primitive (and condition) that produced a failure.
///
/// The `Custom` variant is the extension slot: callers may carry their own
/// error code `E` through the result algebra unchanged.
#[derive(Debug, PartialEq, Eq, Clone)]
pub enum ErrorKind<E = u32> {
    /// A literal match found a byte that differs from the literal.
    Tag,
    /// A mapped conversion of a parsed value failed (for example a text
    /// decode of the bytes a fixed-length take consumed).
    MapRes,
    /// A predicate scan stopped before consuming a single byte.
    Filter,
    /// An exclusion scan found an excluded byte at the very first position.
    IsNot,
    /// An inclusion scan found a byte outside the class at the very first
    /// position.
    IsA,
    /// A consuming delimiter search exhausted the buffer without a match.
    TakeUntilAndConsume,
    /// A non-consuming delimiter search exhausted the buffer without a match.
    TakeUntil,
    /// A consuming delimiter-set search exhausted the buffer without a match.
    TakeUntilEitherAndConsume,
    /// A non-consuming delimiter-set search exhausted the buffer without a
    /// match.
    TakeUntilEither,
    /// A caller-supplied error code.
    Custom(E),
}

} // verus!
