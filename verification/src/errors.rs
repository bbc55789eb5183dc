//! The closed set of ways in which assembling a request can fail.

use std::num::ParseIntError;
use std::string::FromUtf8Error;
use vstd::prelude::*;

verus! {

/// `std::string::FromUtf8Error`, carried through as an opaque value.
#[verifier::external_type_specification]
#[verifier::external_body]
pub struct ExFromUtf8Error(FromUtf8Error);

/// `std::num::ParseIntError`, carried through as an opaque value.
#[verifier::external_type_specification]
#[verifier::external_body]
pub struct ExParseIntError(ParseIntError);

/// `Clone` for `std::string::FromUtf8Error`; nothing is claimed of the copy.
pub assume_specification[ <FromUtf8Error as Clone>::clone ](e: &FromUtf8Error) -> FromUtf8Error
;

/// `Clone` for `std::num::ParseIntError`; nothing is claimed of the copy.
pub assume_specification[ <ParseIntError as Clone>::clone ](e: &ParseIntError) -> ParseIntError
;

/// A parse failure. Every fallible operation of the library returns one of
/// these as a value; none aborts.
#[derive(Debug, Clone, PartialEq)]
pub enum Errors<'a> {
    /// A header index at or beyond the number of headers.
    HeaderIndexOutOfBounds,
    /// A SPACE or TAB between the field name and the colon.
    HeaderKeyWhitespace,
    /// A byte above 127 in a header line, with its offset in the line.
    HeaderNonAsciiByteAt(usize),
    /// A header line with an empty field name, or without any colon.
    HeaderIsEmpty,
    /// Header bytes that are not UTF-8.
    HeaderFromUtf8(FromUtf8Error),
    /// The header block was asked for before its end was found.
    CannotFillHeaders,
    /// A framing rule was broken; the text says which.
    Header(&'a str),
    /// A request line that is not UTF-8.
    Parse(FromUtf8Error),
    /// A Content-Length value that is not a decimal number.
    ContentLength(ParseIntError),
}

/// What an [`Errors`] value says, without the conversion errors that std
/// attaches to three of the variants.
pub enum Failure {
    HeaderIndexOutOfBounds,
    HeaderKeyWhitespace,
    HeaderNonAsciiByteAt(usize),
    HeaderIsEmpty,
    HeaderFromUtf8,
    CannotFillHeaders,
    Header(Seq<char>),
    Parse,
    ContentLength,
}

impl<'a> View for Errors<'a> {
    type V = Failure;

    open spec fn view(&self) -> Failure {
        match *self {
            Errors::HeaderIndexOutOfBounds => Failure::HeaderIndexOutOfBounds,
            Errors::HeaderKeyWhitespace => Failure::HeaderKeyWhitespace,
            Errors::HeaderNonAsciiByteAt(at) => Failure::HeaderNonAsciiByteAt(at),
            Errors::HeaderIsEmpty => Failure::HeaderIsEmpty,
            Errors::HeaderFromUtf8(_) => Failure::HeaderFromUtf8,
            Errors::CannotFillHeaders => Failure::CannotFillHeaders,
            Errors::Header(text) => Failure::Header(text@),
            Errors::Parse(_) => Failure::Parse,
            Errors::ContentLength(_) => Failure::ContentLength,
        }
    }
}

} // verus!
