//! Extensions extend a language identifier with additional bits of information.
//!
//! There are four types of extensions:
//!
//!  * Unicode extensions, marked as `u`.
//!  * Transform extensions, marked as `t`.
//!  * Private use extensions, marked as `x`.
//!  * Other extensions, marked as any other ASCII letter or digit.

pub mod canonical;
pub mod form;
pub mod keywords;
pub mod order;
pub mod private;
pub mod transform;
pub mod unicode;

pub use private::PrivateExtensionList;
pub use transform::TransformExtensionList;
pub use unicode::{UnicodeExtensionKey, UnicodeExtensionList};

use std::collections::BTreeMap;

use tinystr::TinyStr8;
use vstd::prelude::*;
use vstd::string::StringSliceAdditionalSpecFns;
use vstd::utf8::encode_utf8;

use crate::errors::LocaleError;
use crate::extensions::canonical::lemma_text_lowercase;
use crate::extensions::keywords::{
    keyword_of, keyword_tokens, keywords_tokens, parse_keywords, with_keyword, KeywordView,
};
use crate::extensions::private::{parse_tags, PRIVATE_SINGLETON};
use crate::extensions::transform::TRANSFORM_SINGLETON;
use crate::extensions::unicode::UNICODE_SINGLETON;
use crate::parser::errors::ParserError;
use crate::subtags::{
    after_section, ascii_chars, ascii_lower, ascii_string, is_alphanumeric, is_ascii_bytes,
    is_lower_alphanumeric, is_lowercase, is_singleton, lemma_ascii_bytes, lemma_section_len_bound,
    option_bytes, option_str, section_text, split, to_ascii_lower, SubtagIterator,
};

verus! {

/// Defines the type of extension.
#[derive(PartialEq, Eq, Structural, Debug, Clone, Copy, Hash, Ord)]
pub enum ExtensionType {
    /// Transform extension type, marked as `t`.
    Transform,
    /// Unicode extension type, marked as `u`.
    Unicode,
    /// Other extension type, marked as a letter or digit except `t`, `u` and `x`.
    Other(char),
    /// Private extension type, marked as `x`.
    Private,
}

/// The extension type that a singleton byte stands for, if any: the byte
/// is put in lowercase and must then be an ASCII letter or digit.
pub open spec fn extension_type_of(key: u8) -> Option<ExtensionType> {
    let k = ascii_lower(key);
    if k == UNICODE_SINGLETON {
        Some(ExtensionType::Unicode)
    } else if k == TRANSFORM_SINGLETON {
        Some(ExtensionType::Transform)
    } else if k == PRIVATE_SINGLETON {
        Some(ExtensionType::Private)
    } else if is_lower_alphanumeric(k) {
        Some(ExtensionType::Other(k as char))
    } else {
        None
    }
}

impl ExtensionType {
    /// The character that marks this extension type.
    pub open spec fn letter(self) -> char {
        match self {
            ExtensionType::Unicode => 'u',
            ExtensionType::Transform => 't',
            ExtensionType::Private => 'x',
            ExtensionType::Other(c) => c,
        }
    }

    /// Is the type one that a singleton can name? The character of an
    /// other type is an ASCII lowercase letter or digit, and none of `t`, `u`
    /// and `x`.
    pub open spec fn is_valid(self) -> bool {
        match self {
            ExtensionType::Other(c) => {
                &&& (0x61 <= c as int <= 0x7a) || (0x30 <= c as int <= 0x39)
                &&& c != 't' && c != 'u' && c != 'x'
            },
            _ => true,
        }
    }

    /// The place of the type in the order of extension types. Transform,
    /// Unicode and private use stand at 0, 1 and the last place; the other
    /// types stand between Unicode and private use, by their characters.
    pub open spec fn rank(self) -> int {
        match self {
            ExtensionType::Transform => 0,
            ExtensionType::Unicode => 1,
            ExtensionType::Other(c) => 2 + c as int,
            ExtensionType::Private => 0x110002,
        }
    }

    /// Two types have the same rank only if they are the same.
    pub proof fn lemma_rank(self)
        ensures
            0 <= self.rank() <= 0x110002,
            forall|other: ExtensionType| #[trigger] other.rank() == self.rank() ==> other == self,
    {
        assert forall|other: ExtensionType| #[trigger] other.rank() == self.rank() implies other
            == self by {
            match (self, other) {
                (ExtensionType::Other(a), ExtensionType::Other(b)) => {
                    assert(a as int == b as int);
                },
                _ => {},
            }
        }
    }

    /// The rank as a number.
    pub fn rank_number(&self) -> (r: u32)
        ensures
            r == self.rank(),
    {
        match self {
            ExtensionType::Transform => 0,
            ExtensionType::Unicode => 1,
            ExtensionType::Other(c) => 2 + (*c as u32),
            ExtensionType::Private => 0x110002,
        }
    }

    /// The text of the extension type: the character that marks it.
    pub fn to_string(&self) -> (r: String)
        ensures
            r@ == seq![self.letter()],
    {
        let ch = match self {
            ExtensionType::Unicode => 'u',
            ExtensionType::Transform => 't',
            ExtensionType::Other(n) => *n,
            ExtensionType::Private => 'x',
        };
        let mut r = String::new();
        r.push(ch);
        assert(r@ =~= seq![self.letter()]);
        r
    }

    /// Classifies a singleton byte, ignoring ASCII case. A byte that is no
    /// ASCII letter or digit is refused.
    pub fn from_byte(key: u8) -> (r: Result<Self, ParserError>)
        ensures
            match extension_type_of(key) {
                Some(t) => r == Ok::<Self, ParserError>(t),
                None => r == Err::<Self, ParserError>(ParserError::InvalidExtension),
            },
            !is_alphanumeric(key) ==> r == Err::<Self, ParserError>(ParserError::InvalidExtension),
            r matches Ok(t) ==> t.is_valid() && t.letter() == ascii_lower(key) as char,
    {
        let key: u8 = to_ascii_lower(key);
        if key == UNICODE_SINGLETON {
            Ok(ExtensionType::Unicode)
        } else if key == TRANSFORM_SINGLETON {
            Ok(ExtensionType::Transform)
        } else if key == PRIVATE_SINGLETON {
            Ok(ExtensionType::Private)
        } else if (0x61 <= key && key <= 0x7a) || (0x30 <= key && key <= 0x39) {
            Ok(ExtensionType::Other(key as char))
        } else {
            Err(ParserError::InvalidExtension)
        }
    }
}

/// `tinystr::TinyStr8`: a string of one to eight ASCII characters, as the
/// `other` extensions hold their tags.
#[verifier::external_type_specification]
#[verifier::external_body]
pub struct ExTinyStr8(TinyStr8);

/// What a map of extensions holds, as the specifications see it.
pub struct ExtensionsMapView {
    pub unicode: Seq<KeywordView>,
    pub transform: Seq<KeywordView>,
    pub other: Map<char, Vec<TinyStr8>>,
    pub private: Seq<Seq<u8>>,
}

impl ExtensionsMapView {
    /// The map without extensions.
    pub open spec fn empty() -> Self {
        ExtensionsMapView {
            unicode: Seq::empty(),
            transform: Seq::empty(),
            other: Map::empty(),
            private: Seq::empty(),
        }
    }

    /// The map after a key and a value as they were written were handed to
    /// the extension of type `extension`.
    ///
    /// The Unicode and the transform extension set the key to the value; the
    /// private use extension appends both to its tags. A subtag that is not
    /// well formed is refused, and so is an extension type that keeps nothing.
    pub open spec fn with_value(
        self,
        extension: ExtensionType,
        key: Seq<u8>,
        value: Option<Seq<u8>>,
    ) -> Result<ExtensionsMapView, ParserError> {
        match extension {
            ExtensionType::Other(_) => Err(ParserError::UnsupportedExtension),
            _ => match keyword_of(key, value) {
                None => Err(ParserError::InvalidExtension),
                Some(k) => Ok(
                    match extension {
                        ExtensionType::Unicode => ExtensionsMapView {
                            unicode: with_keyword(self.unicode, k.key, k.value),
                            ..self
                        },
                        ExtensionType::Transform => ExtensionsMapView {
                            transform: with_keyword(self.transform, k.key, k.value),
                            ..self
                        },
                        _ => ExtensionsMapView {
                            private: self.private + keyword_tokens(k),
                            ..self
                        },
                    },
                ),
            },
        }
    }

    /// The text of the map: the transform section, then the Unicode section,
    /// then the private use section. A section without subtags is left out,
    /// and so are the `other` extensions.
    pub open spec fn text(self) -> Seq<u8> {
        section_text(TRANSFORM_SINGLETON, keywords_tokens(self.transform)) + section_text(
            UNICODE_SINGLETON,
            keywords_tokens(self.unicode),
        ) + section_text(PRIVATE_SINGLETON, self.private)
    }
}

/// The map that the sections in `tokens` make of `acc`.
///
/// An empty subtag between sections is passed over. Any other subtag there
/// must be a singleton that names a supported extension type; the subtags up to
/// the next singleton are its section, which takes the place of what `acc` held
/// for that type.
pub open spec fn parse_sections(tokens: Seq<Seq<u8>>, acc: ExtensionsMapView) -> Result<
    ExtensionsMapView,
    ParserError,
>
    decreases tokens.len(),
{
    if tokens.len() == 0 {
        Ok(acc)
    } else {
        let rest = tokens.drop_first();
        proof {
            lemma_section_len_bound(rest);
        }
        if tokens[0].len() == 0 {
            parse_sections(rest, acc)
        } else if !is_singleton(tokens[0]) {
            Err(ParserError::InvalidSubtag)
        } else {
            match extension_type_of(tokens[0][0]) {
                None => Err(ParserError::InvalidExtension),
                Some(ExtensionType::Unicode) => match parse_keywords(rest, Seq::empty()) {
                    Some(e) => parse_sections(
                        after_section(rest),
                        ExtensionsMapView { unicode: e, ..acc },
                    ),
                    None => Err(ParserError::InvalidExtension),
                },
                Some(ExtensionType::Transform) => match parse_keywords(rest, Seq::empty()) {
                    Some(e) => parse_sections(
                        after_section(rest),
                        ExtensionsMapView { transform: e, ..acc },
                    ),
                    None => Err(ParserError::InvalidExtension),
                },
                Some(ExtensionType::Private) => match parse_tags(rest, Seq::empty()) {
                    Some(tags) => parse_sections(
                        after_section(rest),
                        ExtensionsMapView { private: tags, ..acc },
                    ),
                    None => Err(ParserError::InvalidExtension),
                },
                Some(ExtensionType::Other(_)) => Err(ParserError::UnsupportedExtension),
            }
        }
    }
}

/// The map that the text of extensions stands for.
pub open spec fn parse_extensions(bytes: Seq<u8>) -> Result<ExtensionsMapView, ParserError> {
    parse_sections(split(bytes), ExtensionsMapView::empty())
}

/// A map of extensions associated with a given locale.
#[derive(Debug, PartialEq, Eq, Hash, PartialOrd, Ord)]
pub struct ExtensionsMap {
    pub unicode: UnicodeExtensionList,
    pub transform: TransformExtensionList,
    pub other: BTreeMap<char, Vec<TinyStr8>>,
    pub private: PrivateExtensionList,
}

impl View for ExtensionsMap {
    type V = ExtensionsMapView;

    open spec fn view(&self) -> ExtensionsMapView {
        ExtensionsMapView {
            unicode: self.unicode@,
            transform: self.transform@,
            other: self.other@,
            private: self.private@,
        }
    }
}

impl Clone for ExtensionsMap {
    fn clone(&self) -> (r: Self)
        ensures
            r@ == self@,
    {
        ExtensionsMap {
            unicode: self.unicode.clone(),
            transform: self.transform.clone(),
            other: self.other.clone(),
            private: self.private.clone(),
        }
    }
}

impl Default for ExtensionsMap {
    fn default() -> (r: Self)
        ensures
            r@ == ExtensionsMapView::empty(),
    {
        ExtensionsMap {
            unicode: UnicodeExtensionList::new(),
            transform: TransformExtensionList::new(),
            other: BTreeMap::new(),
            private: PrivateExtensionList::new(),
        }
    }
}

impl ExtensionsMap {
    /// Parses the text of extensions, such as `-u-ca-gregory-x-private`.
    pub fn from_bytes(bytes: &[u8]) -> (r: Result<Self, ParserError>)
        ensures
            match r {
                Ok(m) => parse_extensions(bytes@) == Ok::<ExtensionsMapView, ParserError>(m@),
                Err(e) => parse_extensions(bytes@) == Err::<ExtensionsMapView, ParserError>(e),
            },
    {
        let mut iterator = SubtagIterator::new(bytes);
        Self::try_from_iter(&mut iterator)
    }

    /// Parses the text of extensions, such as `-u-ca-gregory-x-private`.
    pub fn from_str(source: &str) -> (r: Result<Self, ParserError>)
        ensures
            match r {
                Ok(m) => parse_extensions(source.spec_bytes()) == Ok::<
                    ExtensionsMapView,
                    ParserError,
                >(m@),
                Err(e) => parse_extensions(source.spec_bytes()) == Err::<
                    ExtensionsMapView,
                    ParserError,
                >(e),
            },
    {
        Self::from_bytes(source.as_bytes())
    }

    /// Reads extension sections from `iter` until its subtags are used up.
    pub fn try_from_iter(iter: &mut SubtagIterator<'_>) -> (r: Result<Self, ParserError>)
        ensures
            match r {
                Ok(m) => parse_sections(old(iter).remaining(), ExtensionsMapView::empty()) == Ok::<
                    ExtensionsMapView,
                    ParserError,
                >(m@) && final(iter).remaining().len() == 0,
                Err(e) => parse_sections(old(iter).remaining(), ExtensionsMapView::empty())
                    == Err::<ExtensionsMapView, ParserError>(e),
            },
    {
        let mut result = ExtensionsMap::default();
        loop
            invariant
                parse_sections(old(iter).remaining(), ExtensionsMapView::empty()) == parse_sections(
                    iter.remaining(),
                    result@,
                ),
            ensures
                iter.remaining().len() == 0,
            decreases iter.remaining().len(),
        {
            let ghost tokens = iter.remaining();
            proof {
                if tokens.len() > 0 {
                    lemma_section_len_bound(tokens.drop_first());
                }
            }
            let subtag = match iter.next() {
                Some(t) => t,
                None => {
                    break ;
                },
            };
            if subtag.len() == 0 {
                continue ;
            }
            if subtag.len() != 1 {
                return Err(ParserError::InvalidSubtag);
            }
            match ExtensionType::from_byte(subtag[0]) {
                Err(e) => {
                    return Err(e);
                },
                Ok(ExtensionType::Unicode) => match UnicodeExtensionList::try_from_iter(iter) {
                    Ok(list) => {
                        result.unicode = list;
                    },
                    Err(e) => {
                        return Err(e);
                    },
                },
                Ok(ExtensionType::Transform) => match TransformExtensionList::try_from_iter(iter) {
                    Ok(list) => {
                        result.transform = list;
                    },
                    Err(e) => {
                        return Err(e);
                    },
                },
                Ok(ExtensionType::Private) => match PrivateExtensionList::try_from_iter(iter) {
                    Ok(list) => {
                        result.private = list;
                    },
                    Err(e) => {
                        return Err(e);
                    },
                },
                Ok(ExtensionType::Other(_)) => {
                    return Err(ParserError::UnsupportedExtension);
                },
            }
        }
        Ok(result)
    }

    /// Hands a key and its value, if it has one, to the extension of type
    /// `extension`. On an error the map stays as it was.
    pub fn set_value(
        &mut self,
        extension: ExtensionType,
        key: &[u8],
        value: Option<&[u8]>,
    ) -> (r: Result<(), ParserError>)
        ensures
            match old(self)@.with_value(extension, key@, option_bytes(value)) {
                Ok(m) => r is Ok && final(self)@ == m,
                Err(e) => r == Err::<(), ParserError>(e) && final(self)@ == old(self)@,
            },
    {
        match extension {
            ExtensionType::Unicode => self.unicode.set(key, value),
            ExtensionType::Transform => self.transform.set(key, value),
            ExtensionType::Private => self.private.set(key, value),
            ExtensionType::Other(_) => Err(ParserError::UnsupportedExtension),
        }
    }

    /// Sets a key of the Unicode extension to `value`, or to no value.
    pub fn set_unicode_value(&mut self, key: UnicodeExtensionKey, value: Option<&str>) -> (r:
        Result<(), LocaleError>)
        ensures
            match old(self)@.with_value(ExtensionType::Unicode, key@, option_str(value)) {
                Ok(m) => r is Ok && final(self)@ == m,
                Err(e) => r == Err::<(), LocaleError>(LocaleError::ParserError(e)) && final(self)@
                    == old(self)@,
            },
    {
        let value = match value {
            Some(v) => Some(v.as_bytes()),
            None => None,
        };
        match self.set_value(ExtensionType::Unicode, key.as_bytes(), value) {
            Ok(()) => Ok(()),
            Err(e) => Err(LocaleError::ParserError(e)),
        }
    }

    /// Sets a key of the transform extension to `value`, or to no value.
    pub fn set_transform_value(&mut self, key: &str, value: Option<&str>) -> (r: Result<
        (),
        LocaleError,
    >)
        ensures
            match old(self)@.with_value(
                ExtensionType::Transform,
                key.spec_bytes(),
                option_str(value),
            ) {
                Ok(m) => r is Ok && final(self)@ == m,
                Err(e) => r == Err::<(), LocaleError>(LocaleError::ParserError(e)) && final(self)@
                    == old(self)@,
            },
    {
        let value = match value {
            Some(v) => Some(v.as_bytes()),
            None => None,
        };
        match self.set_value(ExtensionType::Transform, key.as_bytes(), value) {
            Ok(()) => Ok(()),
            Err(e) => Err(LocaleError::ParserError(e)),
        }
    }

    /// Appends `key` and then `value`, if there is one, to the tags of the
    /// private use extension.
    pub fn set_private_value(&mut self, key: &str, value: Option<&str>) -> (r: Result<
        (),
        LocaleError,
    >)
        ensures
            match old(self)@.with_value(
                ExtensionType::Private,
                key.spec_bytes(),
                option_str(value),
            ) {
                Ok(m) => r is Ok && final(self)@ == m,
                Err(e) => r == Err::<(), LocaleError>(LocaleError::ParserError(e)) && final(self)@
                    == old(self)@,
            },
    {
        let value = match value {
            Some(v) => Some(v.as_bytes()),
            None => None,
        };
        match self.set_value(ExtensionType::Private, key.as_bytes(), value) {
            Ok(()) => Ok(()),
            Err(e) => Err(LocaleError::ParserError(e)),
        }
    }

    /// Does the map hold no Unicode, transform or private use extension?
    /// The `other` extensions are not looked at.
    pub fn is_empty(&self) -> (r: bool)
        ensures
            r == (self@.unicode.len() == 0 && self@.transform.len() == 0 && self@.private.len()
                == 0),
    {
        self.unicode.is_empty() && self.transform.is_empty() && self.private.is_empty()
    }

    /// The text of the map as bytes: ASCII, and in lowercase.
    pub fn to_bytes(&self) -> (r: Vec<u8>)
        ensures
            r@ == self@.text(),
            is_ascii_bytes(r@),
            is_lowercase(r@),
    {
        self.transform.well_formedness();
        self.unicode.well_formedness();
        self.private.well_formedness();
        proof {
            lemma_text_lowercase(self@);
        }
        let mut out: Vec<u8> = Vec::new();
        self.transform.write_section(&mut out);
        self.unicode.write_section(&mut out);
        self.private.write_section(&mut out);
        assert(out@ =~= self@.text());
        out
    }

    /// The text of the map: its sections in the order transform, Unicode,
    /// private use, in lowercase. The text is ASCII, so that the bytes of the
    /// string are the text.
    pub fn to_string(&self) -> (r: String)
        ensures
            r@ == ascii_chars(self@.text()),
            encode_utf8(r@) == self@.text(),
            is_lowercase(self@.text()),
    {
        let bytes = self.to_bytes();
        proof {
            lemma_ascii_bytes(bytes@);
        }
        ascii_string(bytes.as_slice())
    }

    /// The Unicode extension.
    pub fn get_unicode(&self) -> (r: &UnicodeExtensionList)
        ensures
            r == &self.unicode,
    {
        &self.unicode
    }

    /// The transform extension.
    pub fn get_transform(&self) -> (r: &TransformExtensionList)
        ensures
            r == &self.transform,
    {
        &self.transform
    }

    /// The private use extension.
    pub fn get_private(&self) -> (r: &PrivateExtensionList)
        ensures
            r == &self.private,
    {
        &self.private
    }
}

/// Subtags that are no singletons cannot come first: subtags whose first
/// one that is not empty is longer than a singleton are refused as invalid.
pub proof fn lemma_sections_need_singleton(tokens: Seq<Seq<u8>>, acc: ExtensionsMapView, k: int)
    requires
        0 <= k < tokens.len(),
        forall|i: int| 0 <= i < k ==> (#[trigger] tokens[i]).len() == 0,
        tokens[k].len() > 1,
    ensures
        parse_sections(tokens, acc) == Err::<ExtensionsMapView, ParserError>(
            ParserError::InvalidSubtag,
        ),
    decreases k,
{
    if k > 0 {
        let rest = tokens.drop_first();
        assert(tokens[0].len() == 0);
        assert forall|i: int| 0 <= i < k - 1 implies (#[trigger] rest[i]).len() == 0 by {
            assert(rest[i] == tokens[i + 1]);
        }
        lemma_sections_need_singleton(rest, acc, k - 1);
    }
}

/// A singleton that is no ASCII letter or digit names no extension:
/// subtags whose first one that is not empty is such a singleton are refused
/// with an invalid extension.
pub proof fn lemma_sections_unknown_singleton(
    tokens: Seq<Seq<u8>>,
    acc: ExtensionsMapView,
    k: int,
)
    requires
        0 <= k < tokens.len(),
        forall|i: int| 0 <= i < k ==> (#[trigger] tokens[i]).len() == 0,
        is_singleton(tokens[k]),
        !is_alphanumeric(tokens[k][0]),
    ensures
        parse_sections(tokens, acc) == Err::<ExtensionsMapView, ParserError>(
            ParserError::InvalidExtension,
        ),
    decreases k,
{
    if k > 0 {
        let rest = tokens.drop_first();
        assert(tokens[0].len() == 0);
        assert forall|i: int| 0 <= i < k - 1 implies (#[trigger] rest[i]).len() == 0 by {
            assert(rest[i] == tokens[i + 1]);
        }
        lemma_sections_unknown_singleton(rest, acc, k - 1);
    }
}

} // verus!
