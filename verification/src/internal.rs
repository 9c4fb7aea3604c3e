//! The result algebra: the tri-state outcome of a parser and the recursive
//! error-cause structure it carries.

use crate::util::ErrorKind;
use vstd::prelude::*;

verus! {

/// A failure, possibly positioned and possibly wrapping a nested cause.
///
/// `Node` and `NodePosition` exclusively own their nested cause: errors form
/// a single-owner tree, built bottom-up and never mutated afterwards. The
/// position slices borrow from the original input buffer.
#[derive(Debug, PartialEq, Eq)]
pub enum ParseError<'a, E = u32> {
    /// A bare error code, with no position.
    Code(ErrorKind<E>),
    /// An error code wrapping the failure of an inner parser.
    Node(ErrorKind<E>, Box<ParseError<'a, E>>),
    /// An error code together with the remaining input at which the failure
    /// was detected.
    Position(ErrorKind<E>, &'a [u8]),
    /// A positioned error code wrapping the failure of an inner parser.
    NodePosition(ErrorKind<E>, &'a [u8], Box<ParseError<'a, E>>),
}

/// How much more input is required before a parser can decide: either an
/// unspecified amount, or a lower bound in bytes (the true requirement may be
/// larger; the estimate uses the best information locally available).
#[derive(Debug, PartialEq, Eq, Clone)]
pub enum Needed {
    Unknown,
    Size(usize),
}

/// Holds the result of a parser invocation.
///
/// * `Done(remaining, value)`: success; `remaining` is the unconsumed suffix
///   of the input and `value` the parsed artifact.
/// * `Error(_)`: definite failure; retrying with the same input cannot
///   succeed.
/// * `Incomplete(_)`: the supplied input is a strict prefix of what is
///   needed; the caller must buffer more bytes and re-invoke the parser from
///   the start of the input (parsers are stateless and re-entrant).
#[derive(Debug, PartialEq, Eq)]
pub enum IResult<'a, I, O, E = u32> {
    Done(I, O),
    Error(ParseError<'a, E>),
    Incomplete(Needed),
}

impl<'a, I, O, E> IResult<'a, I, O, E> {
    /// True exactly on a successful result.
    pub fn is_done(&self) -> (r: bool)
        ensures
            r <==> self is Done,
    {
        match self {
            IResult::Done(_, _) => true,
            _ => false,
        }
    }

    /// True exactly on a definite failure.
    pub fn is_err(&self) -> (r: bool)
        ensures
            r <==> self is Error,
    {
        match self {
            IResult::Error(_) => true,
            _ => false,
        }
    }

    /// True exactly when more input is required.
    pub fn is_incomplete(&self) -> (r: bool)
        ensures
            r <==> self is Incomplete,
    {
        match self {
            IResult::Incomplete(_) => true,
            _ => false,
        }
    }
}

/// Optional-style view of the remaining input of a successful result.
pub trait GetInput<I> {
    /// The unconsumed remainder if the result is `Done`, absent otherwise.
    fn remaining_input(&self) -> Option<I>;
}

/// Optional-style view of the parsed value of a successful result.
pub trait GetOutput<O> {
    /// The parsed value if the result is `Done`, absent otherwise.
    fn output(&self) -> Option<O>;
}

impl<'a, I, O, E> GetInput<&'a [I]> for IResult<'a, &'a [I], O, E> {
    fn remaining_input(&self) -> (r: Option<&'a [I]>)
        ensures
            self matches IResult::Done(d, _) ==> r == Some(*d),
            !(self is Done) ==> r is None,
    {
        match self {
            IResult::Done(i, _) => Some(*i),
            _ => None,
        }
    }
}

impl<'a, O, E> GetInput<()> for IResult<'a, (), O, E> {
    fn remaining_input(&self) -> (r: Option<()>)
        ensures
            r is Some <==> self is Done,
    {
        match self {
            IResult::Done((), _) => Some(()),
            _ => None,
        }
    }
}

impl<'a, I, O, E> GetOutput<&'a [O]> for IResult<'a, I, &'a [O], E> {
    fn output(&self) -> (r: Option<&'a [O]>)
        ensures
            self matches IResult::Done(_, d) ==> r == Some(*d),
            !(self is Done) ==> r is None,
    {
        match self {
            IResult::Done(_, o) => Some(*o),
            _ => None,
        }
    }
}

impl<'a, I, E> GetOutput<()> for IResult<'a, I, (), E> {
    fn output(&self) -> (r: Option<()>)
        ensures
            r is Some <==> self is Done,
    {
        match self {
            IResult::Done(_, ()) => Some(()),
            _ => None,
        }
    }
}

} // verus!
