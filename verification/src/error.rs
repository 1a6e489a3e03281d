//! What can go wrong while a template is parsed.

use vstd::prelude::*;
use vstd::string::StringSliceAdditionalSpecFns;

verus! {

/// A parse failure.
#[derive(Debug, PartialEq, Eq)]
pub enum Error {
    /// A tag was opened and not closed with the braces it asked for, or a
    /// name it needs is missing.
    UnclosedTag,
    /// A section was still open at the end of the source, or was closed
    /// under another name. Holds the name of the section.
    UnclosedSection(String),
    /// A closing tag came while no section was open. Holds the name in the
    /// closing tag.
    UnopenedSection(String),
    /// Sections were nested deeper than the stack allows.
    NestingOverflow,
    /// A partial could not be resolved. Holds the partial's name.
    PartialNotFound(String),
}

/// An error as the contracts see it: names as bytes.
pub enum ErrorView {
    UnclosedTag,
    UnclosedSection(Seq<u8>),
    UnopenedSection(Seq<u8>),
    NestingOverflow,
    PartialNotFound(Seq<u8>),
}

/// The bytes of an owned string.
pub open spec fn string_bytes(s: String) -> Seq<u8> {
    vstd::utf8::encode_utf8(s@)
}

impl View for Error {
    type V = ErrorView;

    open spec fn view(&self) -> ErrorView {
        match *self {
            Error::UnclosedTag => ErrorView::UnclosedTag,
            Error::UnclosedSection(name) => ErrorView::UnclosedSection(string_bytes(name)),
            Error::UnopenedSection(name) => ErrorView::UnopenedSection(string_bytes(name)),
            Error::NestingOverflow => ErrorView::NestingOverflow,
            Error::PartialNotFound(name) => ErrorView::PartialNotFound(string_bytes(name)),
        }
    }
}

impl Error {
    /// The error for a section that was left open or closed under another
    /// name.
    pub fn unclosed_section(name: &str) -> (e: Error)
        ensures
            e@ == ErrorView::UnclosedSection(name.spec_bytes()),
    {
        Error::UnclosedSection(name.to_owned())
    }

    /// The error for a closing tag that closes nothing.
    pub fn unopened_section(name: &str) -> (e: Error)
        ensures
            e@ == ErrorView::UnopenedSection(name.spec_bytes()),
    {
        Error::UnopenedSection(name.to_owned())
    }

    /// The error for a partial that is not there.
    pub fn partial_not_found(name: &str) -> (e: Error)
        ensures
            e@ == ErrorView::PartialNotFound(name.spec_bytes()),
    {
        Error::PartialNotFound(name.to_owned())
    }
}

} // verus!
