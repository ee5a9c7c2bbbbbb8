//! Shared parsing traits and error vocabulary.
//!
//! Types of the command layer implement [`Parse`]: a fresh, complete scan of
//! a borrowed input text that either yields the type or a [`ParseError`].
//! Each implementation states what it returns through the trait's `post`
//! predicate, so a caller that only knows the trait still has an exact
//! contract.

use vstd::prelude::*;

verus! {

/// Errors shared by every parser of the command layer.
#[derive(Clone, Copy, Debug, PartialEq, Eq)]
pub enum ParseError<E> {
    /// More input was required: the window held no token where one was
    /// needed.
    NoInput,
    /// The input did not match any alternative of the grammar.
    Unrecognized,
    /// A failure specific to the type being parsed.
    Other(E),
}

/// Trait implemented by types which can be parsed from a borrowed text.
pub trait Parse<'a>: Sized {
    /// The type-specific error variant carried by [`ParseError::Other`].
    type Error;

    /// Exact statement of what [`Parse::parse_from`] returns on `input`.
    spec fn post(input: Seq<char>, r: Result<Self, ParseError<Self::Error>>) -> bool;

    /// Parses one value out of the front of `input`.
    fn parse_from(input: &'a str) -> (r: Result<Self, ParseError<Self::Error>>)
        ensures
            Self::post(input@, r),
    ;
}

/// Trait for texts out of which a [`Parse`] type can be read.
pub trait ParseInto<'a, T: Parse<'a>> {
    /// The character sequence the text stands for.
    spec fn text_view(&self) -> Seq<char>;

    /// Parses a `T` out of this text.
    fn parse_into(&'a self) -> (r: Result<T, ParseError<T::Error>>)
        ensures
            T::post(self.text_view(), r),
    ;
}

impl<'a, T: Parse<'a>> ParseInto<'a, T> for str {
    open spec fn text_view(&self) -> Seq<char> {
        self@
    }

    fn parse_into(&'a self) -> (r: Result<T, ParseError<T::Error>>) {
        T::parse_from(self)
    }
}

impl<'a, T: Parse<'a>> ParseInto<'a, T> for String {
    open spec fn text_view(&self) -> Seq<char> {
        self@
    }

    fn parse_into(&'a self) -> (r: Result<T, ParseError<T::Error>>) {
        T::parse_from(self.as_str())
    }
}

impl<E> From<E> for ParseError<E> {
    /// Wraps a type-specific failure in the shared vocabulary.
    fn from(err: E) -> (r: ParseError<E>) {
        ParseError::Other(err)
    }
}

impl<E> vstd::std_specs::convert::FromSpecImpl<E> for ParseError<E> {
    open spec fn obeys_from_spec() -> bool {
        true
    }

    open spec fn from_spec(err: E) -> ParseError<E> {
        ParseError::Other(err)
    }
}

} // verus!
