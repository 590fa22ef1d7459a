//! Errors raised while parsing a locale or its extensions.

use vstd::prelude::*;

verus! {

/// What went wrong while parsing.
#[derive(Debug, PartialEq, Eq, Structural, Clone, Copy)]
pub enum ParserError {
    /// The language subtag is not well formed.
    InvalidLanguage,
    /// A subtag is not well formed, or stands where no section is open.
    InvalidSubtag,
    /// A singleton does not name an extension, or a section rejected a key or a value.
    InvalidExtension,
    /// A well-formed singleton names an extension type that is not supported.
    UnsupportedExtension,
}

} // verus!
