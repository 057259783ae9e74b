//! What can be wrong with a text.

use vstd::prelude::*;

verus! {

/// Why a text could not be read.
#[derive(PartialEq, Eq, Debug)]
pub enum ParseError {
    /// The text does not start with a version line.
    MissingVersionLine,
    /// The version line names another version.
    UnsupportedVersion(String),
    /// A word that means nothing here.
    UnknownDirective(String),
    /// The text ends too early.
    UnexpectedEof,
    /// Something else was expected.
    UnexpectedToken { line: u32, col: u32, got: String },
    /// A field is missing.
    MissingField(String),
    /// A number that is none or too large.
    InvalidInt(String),
    /// A primitive type that does not exist.
    UnknownPrimType(String),
    /// A type that is not in the table.
    TypeIdOutOfRange(u32),
    /// A variable that the block does not have.
    VarOutOfRange(u32),
    /// A section that was there before.
    DuplicateSection(&'static str),
    /// An entry without regions.
    EmptyRegionSet,
}

/// What a [`ParseError`] denotes.
#[verifier::ext_equal]
pub enum ErrorView {
    MissingVersionLine,
    UnsupportedVersion(Seq<char>),
    UnknownDirective(Seq<char>),
    UnexpectedEof,
    UnexpectedToken { line: u32, col: u32, got: Seq<char> },
    MissingField(Seq<char>),
    InvalidInt(Seq<char>),
    UnknownPrimType(Seq<char>),
    TypeIdOutOfRange(u32),
    VarOutOfRange(u32),
    DuplicateSection(Seq<char>),
    EmptyRegionSet,
}

impl View for ParseError {
    type V = ErrorView;

    open spec fn view(&self) -> ErrorView {
        match *self {
            ParseError::MissingVersionLine => ErrorView::MissingVersionLine,
            ParseError::UnsupportedVersion(s) => ErrorView::UnsupportedVersion(s@),
            ParseError::UnknownDirective(s) => ErrorView::UnknownDirective(s@),
            ParseError::UnexpectedEof => ErrorView::UnexpectedEof,
            ParseError::UnexpectedToken { line, col, got } => ErrorView::UnexpectedToken {
                line,
                col,
                got: got@,
            },
            ParseError::MissingField(s) => ErrorView::MissingField(s@),
            ParseError::InvalidInt(s) => ErrorView::InvalidInt(s@),
            ParseError::UnknownPrimType(s) => ErrorView::UnknownPrimType(s@),
            ParseError::TypeIdOutOfRange(n) => ErrorView::TypeIdOutOfRange(n),
            ParseError::VarOutOfRange(n) => ErrorView::VarOutOfRange(n),
            ParseError::DuplicateSection(s) => ErrorView::DuplicateSection(s@),
            ParseError::EmptyRegionSet => ErrorView::EmptyRegionSet,
        }
    }
}

} // verus!
