//! Locale identifiers: a language identifier followed by extension sections.
//!
//! The extension part of a locale (`-u-…`, `-t-…`, `-x-…`) is tokenized,
//! classified and stored in an [`ExtensionsMap`], which renders back to text
//! in a fixed section order. The language identifier itself is parsed and
//! kept by the `unic_langid_impl` crate.

pub mod errors;
pub mod extensions;
pub mod langid;
pub mod parser;
pub mod subtags;

use vstd::prelude::*;
use vstd::string::{StrSliceExecFns, StringExecFns, StringSliceAdditionalSpecFns};

pub use errors::LocaleError;
pub use extensions::{ExtensionType, ExtensionsMap, UnicodeExtensionKey};
use extensions::ExtensionsMapView;
use langid::{
    all_safe_variants, chars_of, langid_clone, langid_default, langid_from_parts,
    langid_get_language, langid_get_region, langid_get_script, langid_get_variants,
    langid_into_raw_parts, langid_matches, langid_set_language, langid_set_region,
    langid_set_script, langid_set_variants, langid_to_string, langid_view,
    language_identifier_from_parts, option_chars, option_integers, raw_parts_of, safe_variants,
    texts_of, LanguageIdentifierView,
};
use parser::errors::ParserError;
use parser::{parse_locale, parse_locale_text};
use subtags::{ascii_chars, lemma_lower_canonical, option_str};
pub use unic_langid_impl::LanguageIdentifier;

verus! {

/// What a locale holds, as the specifications see it.
pub struct LocaleView {
    pub langid: LanguageIdentifierView,
    pub extensions: ExtensionsMapView,
}

impl LocaleView {
    /// The text of the locale: the text of the language identifier and, if
    /// the text of the extensions is not empty, a hyphen and that text.
    pub open spec fn text(self) -> Seq<char> {
        if self.extensions.text().len() == 0 {
            self.langid.text()
        } else {
            self.langid.text() + seq!['-'] + ascii_chars(self.extensions.text())
        }
    }
}

/// The view of optional extensions.
pub open spec fn option_extensions(e: Option<ExtensionsMap>) -> Option<ExtensionsMapView> {
    match e {
        Some(e) => Some(e@),
        None => None,
    }
}

/// The locale that is made of the given subtags and extensions.
///
/// `LanguageIdentifier::from_parts` checks the language, the script and the
/// region before the variants, and panics on some variants. With such a
/// variant the error is the one that it has for the other subtags alone, if
/// it has one, and else an invalid subtag, which is the one error that it has
/// for variants. Without extensions the locale has none.
pub open spec fn locale_from_parts(
    language: Option<Seq<u8>>,
    script: Option<Seq<u8>>,
    region: Option<Seq<u8>>,
    variants: Seq<Seq<u8>>,
    extensions: Option<ExtensionsMapView>,
) -> Result<LocaleView, LocaleError> {
    if !all_safe_variants(variants) {
        match language_identifier_from_parts(language, script, region, Seq::empty()) {
            Err(e) => Err(e),
            Ok(_) => Err(LocaleError::ParserError(ParserError::InvalidSubtag)),
        }
    } else {
        match language_identifier_from_parts(language, script, region, variants) {
            Ok(langid) => Ok(
                LocaleView {
                    langid,
                    extensions: match extensions {
                        Some(e) => e,
                        None => ExtensionsMapView::empty(),
                    },
                },
            ),
            Err(e) => Err(e),
        }
    }
}

/// An error of the language, the script or the region comes first: where
/// the language identifier refuses one of them, a locale of these subtags is
/// refused with the same error, whatever its variants and extensions are.
pub proof fn lemma_subtag_errors_come_first(
    language: Option<Seq<u8>>,
    script: Option<Seq<u8>>,
    region: Option<Seq<u8>>,
    variants: Seq<Seq<u8>>,
    extensions: Option<ExtensionsMapView>,
)
    requires
        language_identifier_from_parts(language, script, region, Seq::empty()) is Err,
    ensures
        locale_from_parts(language, script, region, variants, extensions) matches Err(e)
            && language_identifier_from_parts(language, script, region, Seq::empty()) == Err::<
            LanguageIdentifierView,
            LocaleError,
        >(e),
{
}

/// Without a variant on which the language identifier would panic, a locale
/// is made exactly where the language identifier is, and refused with its
/// error.
pub proof fn lemma_from_parts_passes_on(
    language: Option<Seq<u8>>,
    script: Option<Seq<u8>>,
    region: Option<Seq<u8>>,
    variants: Seq<Seq<u8>>,
    extensions: Option<ExtensionsMapView>,
)
    requires
        all_safe_variants(variants),
    ensures
        match language_identifier_from_parts(language, script, region, variants) {
            Ok(langid) => locale_from_parts(language, script, region, variants, extensions)
                matches Ok(l) && l.langid == langid,
            Err(e) => locale_from_parts(language, script, region, variants, extensions) == Err::<
                LocaleView,
                LocaleError,
            >(e),
        },
{
}

/// A language identifier with the extensions that follow it.
#[derive(Debug, PartialEq)]
pub struct Locale {
    pub langid: LanguageIdentifier,
    pub extensions: ExtensionsMap,
}

impl View for Locale {
    type V = LocaleView;

    open spec fn view(&self) -> LocaleView {
        LocaleView { langid: langid_view(self.langid), extensions: self.extensions@ }
    }
}

impl Default for Locale {
    fn default() -> (r: Self)
        ensures
            r@.langid == LanguageIdentifierView::undetermined(),
            r@.extensions == ExtensionsMapView::empty(),
    {
        Locale { langid: langid_default(), extensions: ExtensionsMap::default() }
    }
}

impl Clone for Locale {
    fn clone(&self) -> (r: Self)
        ensures
            r@ == self@,
    {
        Locale { langid: langid_clone(&self.langid), extensions: self.extensions.clone() }
    }
}

impl Locale {
    /// The locale of a language identifier as `from_parts` of the language
    /// identifier returned it, with the given extensions or, without any, with
    /// none.
    pub fn with_extensions(
        langid: Result<LanguageIdentifier, LocaleError>,
        extensions: Option<ExtensionsMap>,
    ) -> (r: Result<Self, LocaleError>)
        ensures
            match langid {
                Ok(id) => r matches Ok(l) && l.langid == id && l@.extensions == match extensions {
                    Some(e) => e@,
                    None => ExtensionsMapView::empty(),
                },
                Err(e) => r matches Err(x) && x == e,
            },
    {
        let langid = match langid {
            Ok(id) => id,
            Err(e) => {
                return Err(e);
            },
        };
        let extensions = match extensions {
            Some(e) => e,
            None => ExtensionsMap::default(),
        };
        Ok(Locale { langid, extensions })
    }

    /// The error with which subtags are refused among whose variants is one
    /// on which the language identifier would panic, given what it made of
    /// the other subtags alone.
    pub fn refused(langid: Result<LanguageIdentifier, LocaleError>) -> (e: LocaleError)
        ensures
            e == match langid {
                Err(x) => x,
                Ok(_) => LocaleError::ParserError(ParserError::InvalidSubtag),
            },
    {
        match langid {
            Err(x) => x,
            Ok(_) => LocaleError::ParserError(ParserError::InvalidSubtag),
        }
    }

    /// A locale made of the given subtags and extensions. The subtags are
    /// checked by the language identifier, and the error is the one that it
    /// raises; without `extensions` the locale has none.
    ///
    /// The language identifier panics on a variant of four bytes that holds a
    /// NUL or a byte beyond ASCII. Such variants are not handed to it: the
    /// error is then the one that it raises for the language, the script and
    /// the region alone, and an invalid subtag if it raises none.
    pub fn from_parts(
        language: Option<&str>,
        script: Option<&str>,
        region: Option<&str>,
        variants: &[&str],
        extensions: Option<ExtensionsMap>,
    ) -> (r: Result<Self, LocaleError>)
        ensures
            match r {
                Ok(l) => locale_from_parts(
                    option_str(language),
                    option_str(script),
                    option_str(region),
                    texts_of(variants@),
                    option_extensions(extensions),
                ) == Ok::<LocaleView, LocaleError>(l@),
                Err(e) => locale_from_parts(
                    option_str(language),
                    option_str(script),
                    option_str(region),
                    texts_of(variants@),
                    option_extensions(extensions),
                ) == Err::<LocaleView, LocaleError>(e),
            },
            language is None && script is None && region is None && variants@.len() == 0 ==> r is Ok
                && r.unwrap()@.langid == LanguageIdentifierView::undetermined(),
    {
        if !safe_variants(variants) {
            let none: Vec<&str> = Vec::new();
            assert(texts_of(none@) =~= Seq::<Seq<u8>>::empty());
            let others = langid_from_parts(language, script, region, none.as_slice());
            return Err(Self::refused(others));
        }
        Self::with_extensions(langid_from_parts(language, script, region, variants), extensions)
    }

    /// Takes the locale apart: the subtags of the language identifier packed
    /// into integers, and the text of the extensions.
    pub fn to_raw_parts(self) -> (r: (
        Option<u64>,
        Option<u32>,
        Option<u32>,
        Option<Box<[u64]>>,
        String,
    ))
        ensures
            r.0 == raw_parts_of(self@.langid).0,
            r.1 == raw_parts_of(self@.langid).1,
            r.2 == raw_parts_of(self@.langid).2,
            option_integers(r.3) == raw_parts_of(self@.langid).3,
            r.0 is Some <==> self@.langid.language is Some,
            r.1 is Some <==> self@.langid.script is Some,
            r.2 is Some <==> self@.langid.region is Some,
            r.3 is Some <==> self@.langid.variants is Some,
            r.4@ == ascii_chars(self@.extensions.text()),
    {
        let extensions = self.extensions.to_string();
        let (language, script, region, variants) = langid_into_raw_parts(self.langid);
        (language, script, region, variants, extensions)
    }

    /// Does the locale match `other`? Never if one of the two has a private
    /// use extension; else if their language identifiers match, where a side
    /// that is read as a range matches anything with a subtag it lacks.
    pub fn matches(&self, other: &Locale, self_as_range: bool, other_as_range: bool) -> (r: bool)
        ensures
            self@.extensions.private.len() > 0 || other@.extensions.private.len() > 0 ==> !r,
            r == (self@.extensions.private.len() == 0 && other@.extensions.private.len() == 0
                && self@.langid.matches(other@.langid, self_as_range, other_as_range)),
    {
        if !self.extensions.get_private().is_empty() || !other.extensions.get_private().is_empty() {
            return false;
        }
        langid_matches(&self.langid, &other.langid, self_as_range, other_as_range)
    }

    /// The language, or `und` if there is none.
    pub fn get_language(&self) -> (r: &str)
        ensures
            r@ == self@.langid.shown_language(),
    {
        langid_get_language(&self.langid)
    }

    /// Sets the language to what `language` is parsed into, or removes it.
    /// On an error the locale stays as it was.
    pub fn set_language(&mut self, language: Option<&str>) -> (r: Result<(), LocaleError>)
        ensures
            final(self)@.extensions == old(self)@.extensions,
            match old(self)@.langid.with_language(option_str(language)) {
                Ok(v) => r is Ok && final(self)@.langid == v,
                Err(e) => r == Err::<(), LocaleError>(e) && final(self)@ == old(self)@,
            },
    {
        langid_set_language(&mut self.langid, language)
    }

    /// The script, if there is one.
    pub fn get_script(&self) -> (r: Option<&str>)
        ensures
            option_chars(r) == self@.langid.script,
    {
        langid_get_script(&self.langid)
    }

    /// Sets the script to what `script` is parsed into, or removes it. On an
    /// error the locale stays as it was.
    pub fn set_script(&mut self, script: Option<&str>) -> (r: Result<(), LocaleError>)
        ensures
            final(self)@.extensions == old(self)@.extensions,
            match old(self)@.langid.with_script(option_str(script)) {
                Ok(v) => r is Ok && final(self)@.langid == v,
                Err(e) => r == Err::<(), LocaleError>(e) && final(self)@ == old(self)@,
            },
    {
        langid_set_script(&mut self.langid, script)
    }

    /// The region, if there is one.
    pub fn get_region(&self) -> (r: Option<&str>)
        ensures
            option_chars(r) == self@.langid.region,
    {
        langid_get_region(&self.langid)
    }

    /// Sets the region to what `region` is parsed into, or removes it. On an
    /// error the locale stays as it was.
    pub fn set_region(&mut self, region: Option<&str>) -> (r: Result<(), LocaleError>)
        ensures
            final(self)@.extensions == old(self)@.extensions,
            match old(self)@.langid.with_region(option_str(region)) {
                Ok(v) => r is Ok && final(self)@.langid == v,
                Err(e) => r == Err::<(), LocaleError>(e) && final(self)@ == old(self)@,
            },
    {
        langid_set_region(&mut self.langid, region)
    }

    /// The variants, in their order.
    pub fn get_variants(&self) -> (r: Vec<&str>)
        ensures
            chars_of(r@) == self@.langid.listed_variants(),
    {
        langid_get_variants(&self.langid)
    }

    /// Sets the variants to what `variants` are parsed into, or removes them
    /// if there are none. On an error the locale stays as it was.
    ///
    /// A variant of four bytes that holds a NUL or a byte beyond ASCII is
    /// refused here, as an invalid subtag.
    pub fn set_variants(&mut self, variants: &[&str]) -> (r: Result<(), LocaleError>)
        ensures
            final(self)@.extensions == old(self)@.extensions,
            match old(self)@.langid.with_variants(texts_of(variants@)) {
                Ok(v) => r is Ok && final(self)@.langid == v,
                Err(e) => r == Err::<(), LocaleError>(e) && final(self)@ == old(self)@,
            },
    {
        if !safe_variants(variants) {
            return Err(LocaleError::ParserError(ParserError::InvalidSubtag));
        }
        langid_set_variants(&mut self.langid, variants)
    }

    /// Sets a key of an extension to `value`, or to no value. Only the
    /// Unicode extension can be set; any other type is refused as unsupported.
    /// On an error the locale stays as it was.
    pub fn set_extension(&mut self, extension: ExtensionType, key: &str, value: Option<&str>) -> (r:
        Result<(), LocaleError>)
        ensures
            final(self)@.langid == old(self)@.langid,
            match extension {
                ExtensionType::Unicode => match old(self)@.extensions.with_value(
                    ExtensionType::Unicode,
                    key.spec_bytes(),
                    option_str(value),
                ) {
                    Ok(m) => r is Ok && final(self)@.extensions == m,
                    Err(e) => r == Err::<(), LocaleError>(LocaleError::ParserError(e))
                        && final(self)@ == old(self)@,
                },
                _ => r == Err::<(), LocaleError>(LocaleError::UnsupportedExtension)
                    && final(self)@ == old(self)@,
            },
    {
        match extension {
            ExtensionType::Unicode => {
                let k = match UnicodeExtensionKey::from_str(key) {
                    Ok(k) => k,
                    Err(e) => {
                        return Err(LocaleError::ParserError(e));
                    },
                };
                proof {
                    lemma_lower_canonical(key.spec_bytes());
                    lemma_lower_canonical(k@);
                }
                self.extensions.set_unicode_value(k, value)
            },
            _ => Err(LocaleError::UnsupportedExtension),
        }
    }

    /// The locale of a language identifier, without extensions.
    pub fn from(langid: LanguageIdentifier) -> (r: Self)
        ensures
            r.langid == langid,
            r@.extensions == ExtensionsMapView::empty(),
    {
        Locale { langid, extensions: ExtensionsMap::default() }
    }

    /// The language identifier of the locale, without its extensions.
    pub fn into(self) -> (r: LanguageIdentifier)
        ensures
            r == self.langid,
    {
        self.langid
    }

    /// The language identifier of the locale.
    pub fn as_ref(&self) -> (r: &LanguageIdentifier)
        ensures
            r == &self.langid,
    {
        &self.langid
    }

    /// The extensions of the locale.
    pub fn get_extensions(&self) -> (r: &ExtensionsMap)
        ensures
            r == &self.extensions,
    {
        &self.extensions
    }

    /// Parses a locale, such as `en-US-u-ca-gregory`.
    pub fn from_str(source: &str) -> (r: Result<Self, LocaleError>)
        ensures
            match r {
                Ok(l) => parse_locale_text(source.spec_bytes()) == Ok::<LocaleView, ParserError>(
                    l@,
                ),
                Err(e) => e matches LocaleError::ParserError(p) && parse_locale_text(
                    source.spec_bytes(),
                ) == Err::<LocaleView, ParserError>(p),
            },
    {
        match parse_locale(source) {
            Ok(l) => Ok(l),
            Err(e) => Err(LocaleError::ParserError(e)),
        }
    }

    /// The text of the locale: the language identifier and, if there are
    /// extensions, a hyphen and their text.
    pub fn to_string(&self) -> (r: String)
        ensures
            r@ == self@.text(),
    {
        let mut out = langid_to_string(&self.langid);
        let ext = self.extensions.to_string();
        if ext.as_str().unicode_len() > 0 {
            proof {
                reveal_strlit("-");
                assert("-"@ =~= seq!['-']);
            }
            out.append("-");
            out.append(ext.as_str());
        }
        out
    }
}

impl vstd::std_specs::convert::FromSpecImpl<LanguageIdentifier> for Locale {
    /// No value of the specifications stands for the empty extensions that
    /// the conversion makes, so the conversion is described by the `ensures`
    /// of `from` and not by `from_spec`.
    open spec fn obeys_from_spec() -> bool {
        false
    }

    open spec fn from_spec(langid: LanguageIdentifier) -> Locale {
        arbitrary()
    }
}

impl From<LanguageIdentifier> for Locale {
    /// The locale of a language identifier, without extensions.
    fn from(langid: LanguageIdentifier) -> (r: Locale)
        ensures
            r.langid == langid,
            r@.extensions == ExtensionsMapView::empty(),
    {
        Locale { langid, extensions: ExtensionsMap::default() }
    }
}

impl AsRef<LanguageIdentifier> for Locale {
    fn as_ref(&self) -> (r: &LanguageIdentifier)
        ensures
            r == &self.langid,
    {
        &self.langid
    }
}

impl vstd::std_specs::convert::IntoSpecImpl<LanguageIdentifier> for Locale {
    open spec fn obeys_into_spec() -> bool {
        true
    }

    /// The language identifier of the locale, without its extensions.
    open spec fn into_spec(self) -> LanguageIdentifier {
        self.langid
    }
}

impl Into<LanguageIdentifier> for Locale {
    fn into(self) -> (r: LanguageIdentifier)
        ensures
            r == self.langid,
    {
        self.langid
    }
}

/// Parses a locale and writes it back in its canonical form.
pub fn canonicalize(input: &str) -> (r: Result<String, LocaleError>)
    ensures
        match r {
            Ok(s) => parse_locale_text(input.spec_bytes()) matches Ok(l) && s@ == l.text(),
            Err(e) => e matches LocaleError::ParserError(p) && parse_locale_text(
                input.spec_bytes(),
            ) == Err::<LocaleView, ParserError>(p),
        },
{
    match Locale::from_str(input) {
        Ok(locale) => Ok(locale.to_string()),
        Err(e) => Err(e),
    }
}

} // verus!
