//! The closed set of decode failures.

use vstd::prelude::*;

verus! {

/// Every way a decode can fail. No error is retried internally; each one
/// aborts the whole decode and is surfaced to the caller unchanged.
#[derive(Clone, Debug, PartialEq, Eq)]
pub enum Error {
    /// A custom, protocol-level error carrying its own text.
    Message(String),
    /// A top-level decode succeeded but did not consume the entire input.
    TrailingBytes,
    /// The input (or the part of it a header was read from) was empty.
    EmptyBuffer,
    /// A list header declared more payload bytes than the input holds.
    ListPrefixTooSmall,
    /// A string header declared more payload bytes than the input holds.
    StringPrefixTooSmall,
    /// List data was required but the input holds a string.
    ExpectedList,
    /// String data was required but the input holds a list.
    ExpectedString,
    /// A string payload was not valid text.
    InvalidString,
    /// A defensive guard against a malformed prefix byte; unreachable in
    /// practice given the range dispatch of the header decoder.
    WrongPrefix,
}

impl Error {
    /// The display text of this error.
    pub fn as_str(&self) -> (r: &str)
        ensures
            r@ == self.spec_text(),
    {
        match *self {
            Error::Message(ref msg) => msg.as_str(),
            Error::TrailingBytes => "Trailing bytes found at the end of input",
            Error::EmptyBuffer => "Empty buffer detected",
            Error::ListPrefixTooSmall => "List prefix is bigger than the data",
            Error::StringPrefixTooSmall => "String prefix is bigger than the data",
            Error::ExpectedList => "Expected list data",
            Error::ExpectedString => "Expected string",
            Error::InvalidString => "Unable to decode valid string",
            Error::WrongPrefix => "Wrong prefix",
        }
    }

    /// The text `as_str` returns for each variant.
    pub open spec fn spec_text(self) -> Seq<char> {
        match self {
            Error::Message(msg) => msg@,
            Error::TrailingBytes => "Trailing bytes found at the end of input"@,
            Error::EmptyBuffer => "Empty buffer detected"@,
            Error::ListPrefixTooSmall => "List prefix is bigger than the data"@,
            Error::StringPrefixTooSmall => "String prefix is bigger than the data"@,
            Error::ExpectedList => "Expected list data"@,
            Error::ExpectedString => "Expected string"@,
            Error::InvalidString => "Unable to decode valid string"@,
            Error::WrongPrefix => "Wrong prefix"@,
        }
    }
}

} // verus!
