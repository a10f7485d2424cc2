//! The ways in which loading a document can fail.

use vstd::prelude::*;

verus! {

/// Why a document, or a part of one, could not be loaded.
#[derive(Clone, Debug, PartialEq, Eq)]
pub enum Error {
    /// The text does not follow the grammar.
    Parse,
    /// The text follows the grammar only up to some point, and the loader
    /// was told to be strict.
    Deserialization { message: String },
    /// Another document could not be brought in: it could not be read or
    /// parsed, its address is of a kind that is not allowed, or documents
    /// nest too deeply.
    Include { path: String },
    /// The source reader failed.
    Io { message: String },
    /// A substitution names a path that has no value.
    KeyNotFound { key: String },
    /// A value cannot stand where it was written.
    InvalidValue,
}

/// An `Error` as a mathematical value.
pub enum ErrorView {
    Parse,
    Deserialization { message: Seq<char> },
    Include { path: Seq<char> },
    Io { message: Seq<char> },
    KeyNotFound { key: Seq<char> },
    InvalidValue,
}

impl View for Error {
    type V = ErrorView;

    open spec fn view(&self) -> ErrorView {
        match self {
            Error::Parse => ErrorView::Parse,
            Error::Deserialization { message } => ErrorView::Deserialization { message: message@ },
            Error::Include { path } => ErrorView::Include { path: path@ },
            Error::Io { message } => ErrorView::Io { message: message@ },
            Error::KeyNotFound { key } => ErrorView::KeyNotFound { key: key@ },
            Error::InvalidValue => ErrorView::InvalidValue,
        }
    }
}

impl Error {
    /// A copy of the error.
    pub fn duplicate(&self) -> (r: Error)
        ensures
            r@ == self@,
    {
        match self {
            Error::Parse => Error::Parse,
            Error::Deserialization { message } => Error::Deserialization {
                message: message.clone(),
            },
            Error::Include { path } => Error::Include { path: path.clone() },
            Error::Io { message } => Error::Io { message: message.clone() },
            Error::KeyNotFound { key } => Error::KeyNotFound { key: key.clone() },
            Error::InvalidValue => Error::InvalidValue,
        }
    }
}

} // verus!
