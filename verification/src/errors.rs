//! Errors of the locale API.

use vstd::prelude::*;

use crate::parser::errors::ParserError;

verus! {

/// An error returned by the operations on a locale.
#[derive(Debug, PartialEq, Eq, Structural, Clone, Copy)]
pub enum LocaleError {
    /// An error that is not a parser error.
    Unknown,
    /// A parser error.
    ParserError(ParserError),
    /// The extension type cannot be set.
    UnsupportedExtension,
}

} // verus!
