//! The Unicode extension: keywords behind `u`.

use vstd::prelude::*;
use vstd::slice::slice_to_vec;
use vstd::string::StringSliceAdditionalSpecFns;

use crate::extensions::keywords::KeywordList;
use crate::parser::errors::ParserError;
use crate::subtags::{
    is_canonical_subtag, is_subtag, lemma_lower_canonical, lower, normalize_subtag,
};

verus! {

/// The singleton that opens the Unicode section, `u`.
pub const UNICODE_SINGLETON: u8 = 0x75;

/// The keywords of the Unicode extension.
pub type UnicodeExtensionList = KeywordList<UNICODE_SINGLETON>;

/// A key of the Unicode extension: a canonical subtag.
#[derive(Debug, PartialEq, Eq, Hash, PartialOrd, Ord)]
pub struct UnicodeExtensionKey {
    bytes: Vec<u8>,
}

impl View for UnicodeExtensionKey {
    type V = Seq<u8>;

    closed spec fn view(&self) -> Seq<u8> {
        self.bytes@
    }
}

impl Clone for UnicodeExtensionKey {
    fn clone(&self) -> (r: Self)
        ensures
            r@ == self@,
    {
        proof {
            use_type_invariant(self);
        }
        UnicodeExtensionKey { bytes: slice_to_vec(self.bytes.as_slice()) }
    }
}

impl UnicodeExtensionKey {
    #[verifier::type_invariant]
    spec fn inv(self) -> bool {
        is_canonical_subtag(self@)
    }

    /// The key that `source` names: `source` in lowercase, if it is a
    /// well-formed subtag.
    pub fn from_bytes(source: &[u8]) -> (r: Result<Self, ParserError>)
        ensures
            match r {
                Ok(k) => is_subtag(source@) && k@ == lower(source@),
                Err(e) => !is_subtag(source@) && e == ParserError::InvalidExtension,
            },
    {
        match normalize_subtag(source) {
            Some(bytes) => {
                proof {
                    lemma_lower_canonical(source@);
                }
                Ok(UnicodeExtensionKey { bytes })
            },
            None => Err(ParserError::InvalidExtension),
        }
    }

    /// The key that `source` names: `source` in lowercase, if it is a
    /// well-formed subtag.
    pub fn from_str(source: &str) -> (r: Result<Self, ParserError>)
        ensures
            match r {
                Ok(k) => is_subtag(source.spec_bytes()) && k@ == lower(source.spec_bytes()),
                Err(e) => !is_subtag(source.spec_bytes()) && e == ParserError::InvalidExtension,
            },
    {
        Self::from_bytes(source.as_bytes())
    }

    /// The bytes of the key.
    pub fn as_bytes(&self) -> (r: &[u8])
        ensures
            r@ == self@,
            is_canonical_subtag(r@),
    {
        proof {
            use_type_invariant(self);
        }
        self.bytes.as_slice()
    }
}

} // verus!
