//! Language identifiers, which the `unic_langid_impl` crate parses and keeps.
//!
//! A language identifier is opaque to this crate. What it holds is named by
//! [`langid_view`], and each call into `unic_langid_impl` is a function of
//! this module whose contract is taken on trust. These functions hand back
//! the errors of `unic_langid_impl` as the errors of this crate, variant by
//! variant.
//!
//! What a language, a script and a region are parsed into is stated here in
//! full. What variants and whole texts are parsed into, and how subtags are
//! packed into integers, is only named.

use unic_langid_impl::errors::LanguageIdentifierError;
use unic_langid_impl::parser::errors::ParserError as LanguageParserError;
use unic_langid_impl::LanguageIdentifier;
use vstd::prelude::*;
use vstd::string::StringSliceAdditionalSpecFns;

use crate::errors::LocaleError;
use crate::parser::errors::ParserError;
use crate::subtags::{
    ascii_chars, ascii_lower, lower, option_str, separator_free, split, SubtagIterator,
};

verus! {

/// `unic_langid_impl::LanguageIdentifier`: a language with an optional
/// script, region and list of variants. Its fields are private to its crate.
#[verifier::external_type_specification]
#[verifier::external_body]
pub struct ExLanguageIdentifier(LanguageIdentifier);

/// The subtags of a language identifier, as the specifications see them.
pub struct LanguageIdentifierView {
    /// The language, unless it is undetermined.
    pub language: Option<Seq<char>>,
    pub script: Option<Seq<char>>,
    pub region: Option<Seq<char>>,
    pub variants: Option<Seq<Seq<char>>>,
}

impl LanguageIdentifierView {
    /// The identifier without any subtag, `und`.
    pub open spec fn undetermined() -> Self {
        LanguageIdentifierView { language: None, script: None, region: None, variants: None }
    }

    /// The language as it is shown: `und` stands for none.
    pub open spec fn shown_language(self) -> Seq<char> {
        match self.language {
            Some(l) => l,
            None => seq!['u', 'n', 'd'],
        }
    }

    /// The variants as a list: none is the empty list.
    pub open spec fn listed_variants(self) -> Seq<Seq<char>> {
        match self.variants {
            Some(v) => v,
            None => Seq::empty(),
        }
    }

    /// The text of the identifier: its subtags with a hyphen between them,
    /// the language first, then the script, the region and the variants.
    pub open spec fn text(self) -> Seq<char> {
        self.shown_language() + (match self.script {
            Some(s) => seq!['-'] + s,
            None => Seq::empty(),
        }) + (match self.region {
            Some(r) => seq!['-'] + r,
            None => Seq::empty(),
        }) + hyphenated_chars(self.listed_variants())
    }

    /// The identifier after its language was set to what `language` is
    /// parsed into, or removed if there is no text.
    pub open spec fn with_language(self, language: Option<Seq<u8>>) -> Result<Self, LocaleError> {
        match language {
            None => Ok(LanguageIdentifierView { language: None, ..self }),
            Some(text) => match parsed_language(text) {
                Ok(l) => Ok(LanguageIdentifierView { language: l, ..self }),
                Err(e) => Err(e),
            },
        }
    }

    /// The identifier after its script was set to what `script` is parsed
    /// into, or removed if there is no text.
    pub open spec fn with_script(self, script: Option<Seq<u8>>) -> Result<Self, LocaleError> {
        match script {
            None => Ok(LanguageIdentifierView { script: None, ..self }),
            Some(text) => match parsed_script(text) {
                Ok(s) => Ok(LanguageIdentifierView { script: Some(s), ..self }),
                Err(e) => Err(e),
            },
        }
    }

    /// The identifier after its region was set to what `region` is parsed
    /// into, or removed if there is no text.
    pub open spec fn with_region(self, region: Option<Seq<u8>>) -> Result<Self, LocaleError> {
        match region {
            None => Ok(LanguageIdentifierView { region: None, ..self }),
            Some(text) => match parsed_region(text) {
                Ok(r) => Ok(LanguageIdentifierView { region: Some(r), ..self }),
                Err(e) => Err(e),
            },
        }
    }

    /// The identifier after its variants were set to what `variants` are
    /// parsed into, or removed if there are none.
    pub open spec fn with_parsed_variants(self, variants: Seq<Seq<u8>>) -> Result<
        Self,
        LocaleError,
    > {
        if variants.len() == 0 {
            Ok(LanguageIdentifierView { variants: None, ..self })
        } else {
            match parsed_variants(variants) {
                Ok(v) => Ok(LanguageIdentifierView { variants: Some(v), ..self }),
                Err(e) => Err(e),
            }
        }
    }

    /// The identifier after its variants were set to what `variants` are
    /// parsed into, or removed if there are none. A variant on which the
    /// language identifier would panic is refused as an invalid subtag, which
    /// is the one error that it has for variants.
    pub open spec fn with_variants(self, variants: Seq<Seq<u8>>) -> Result<Self, LocaleError> {
        if !all_safe_variants(variants) {
            Err(LocaleError::ParserError(ParserError::InvalidSubtag))
        } else {
            self.with_parsed_variants(variants)
        }
    }

    /// Does the identifier match `other`? A subtag matches when the two are
    /// equal, or when it is missing on a side that is read as a range.
    pub open spec fn matches(self, other: Self, self_as_range: bool, other_as_range: bool) -> bool {
        &&& subtag_matches(self.language, other.language, self_as_range, other_as_range)
        &&& subtag_matches(self.script, other.script, self_as_range, other_as_range)
        &&& subtag_matches(self.region, other.region, self_as_range, other_as_range)
        &&& ((self_as_range && self.listed_variants().len() == 0) || (other_as_range
            && other.listed_variants().len() == 0) || self.variants == other.variants)
    }
}

/// Each of `subtags` behind a hyphen.
pub open spec fn hyphenated_chars(subtags: Seq<Seq<char>>) -> Seq<char>
    decreases subtags.len(),
{
    if subtags.len() == 0 {
        Seq::empty()
    } else {
        hyphenated_chars(subtags.drop_last()) + seq!['-'] + subtags.last()
    }
}

/// Do two subtags match, where a side that is read as a range matches
/// anything with a missing subtag?
pub open spec fn subtag_matches(
    a: Option<Seq<char>>,
    b: Option<Seq<char>>,
    a_as_range: bool,
    b_as_range: bool,
) -> bool {
    (a_as_range && a is None) || (b_as_range && b is None) || a == b
}

/// The view of an optional string.
pub open spec fn option_chars(s: Option<&str>) -> Option<Seq<char>> {
    match s {
        Some(s) => Some(s@),
        None => None,
    }
}

/// The integers of an optional boxed slice.
pub open spec fn option_integers(b: Option<Box<[u64]>>) -> Option<Seq<u64>> {
    match b {
        Some(b) => Some(b@),
        None => None,
    }
}

/// The views of strings.
pub open spec fn chars_of(v: Seq<&str>) -> Seq<Seq<char>> {
    Seq::new(v.len(), |i: int| v[i]@)
}

/// The bytes of strings.
pub open spec fn texts_of(v: Seq<&str>) -> Seq<Seq<u8>> {
    Seq::new(v.len(), |i: int| v[i].spec_bytes())
}

/// The subtags that a language identifier holds.
pub uninterp spec fn langid_view(id: LanguageIdentifier) -> LanguageIdentifierView;

/// What `unic_langid_impl::parser::parse_language_identifier` makes of a text.
pub uninterp spec fn parsed_language_identifier(text: Seq<u8>) -> Result<
    LanguageIdentifierView,
    ParserError,
>;

/// What `LanguageIdentifier::from_parts` makes of subtags: it starts
/// without subtags and sets the language, the script, the region and the
/// variants in this order, each as the setter of that subtag does, and
/// returns the first error.
pub open spec fn language_identifier_from_parts(
    language: Option<Seq<u8>>,
    script: Option<Seq<u8>>,
    region: Option<Seq<u8>>,
    variants: Seq<Seq<u8>>,
) -> Result<LanguageIdentifierView, LocaleError> {
    match LanguageIdentifierView::undetermined().with_language(language) {
        Err(e) => Err(e),
        Ok(with_language) => match with_language.with_script(script) {
            Err(e) => Err(e),
            Ok(with_script) => match with_script.with_region(region) {
                Err(e) => Err(e),
                Ok(with_region) => with_region.with_parsed_variants(variants),
            },
        },
    }
}

/// Is the byte an ASCII letter: `A`–`Z`, from 0x41 to 0x5a, or `a`–`z`,
/// from 0x61 to 0x7a?
pub open spec fn is_alphabetic(b: u8) -> bool {
    (0x41 <= b <= 0x5a) || (0x61 <= b <= 0x7a)
}

/// Is the byte an ASCII digit, from 0x30 to 0x39?
pub open spec fn is_digit(b: u8) -> bool {
    0x30 <= b <= 0x39
}

/// Is every byte of `t` an ASCII letter?
pub open spec fn all_alphabetic(t: Seq<u8>) -> bool {
    forall|i: int| 0 <= i < t.len() ==> is_alphabetic(#[trigger] t[i])
}

/// Is every byte of `t` an ASCII digit?
pub open spec fn all_digits(t: Seq<u8>) -> bool {
    forall|i: int| 0 <= i < t.len() ==> is_digit(#[trigger] t[i])
}

/// The ASCII uppercase form of a byte: `a`–`z` move to `A`–`Z`, and all
/// else stays.
pub open spec fn ascii_upper(b: u8) -> u8 {
    if 0x61 <= b <= 0x7a {
        (b - 0x20) as u8
    } else {
        b
    }
}

/// `t` with each byte in ASCII uppercase.
pub open spec fn upper(t: Seq<u8>) -> Seq<u8> {
    Seq::new(t.len(), |i: int| ascii_upper(t[i]))
}

/// `t` in title case: the first byte in ASCII uppercase, the others in
/// lowercase.
pub open spec fn title(t: Seq<u8>) -> Seq<u8> {
    Seq::new(
        t.len(),
        |i: int|
            if i == 0 {
                ascii_upper(t[i])
            } else {
                ascii_lower(t[i])
            },
    )
}

/// The text `und`, which stands for no language.
pub open spec fn undetermined_language() -> Seq<u8> {
    seq![0x75u8, 0x6eu8, 0x64u8]
}

/// The error of a language that is not well formed.
pub open spec fn invalid_language() -> LocaleError {
    LocaleError::ParserError(ParserError::InvalidLanguage)
}

/// The error of any other subtag that is not well formed.
pub open spec fn invalid_subtag() -> LocaleError {
    LocaleError::ParserError(ParserError::InvalidSubtag)
}

/// The language subtag that `LanguageIdentifier::set_language` and
/// `from_parts` make of a text, through `subtags::parse_language_subtag`: a
/// language is two, three or five to eight ASCII letters and is kept in
/// lowercase, where `und` stands for no language.
pub open spec fn parsed_language(text: Seq<u8>) -> Result<Option<Seq<char>>, LocaleError> {
    if 2 <= text.len() <= 8 && text.len() != 4 && all_alphabetic(text) {
        if lower(text) == undetermined_language() {
            Ok(None)
        } else {
            Ok(Some(ascii_chars(lower(text))))
        }
    } else {
        Err(invalid_language())
    }
}

/// The script subtag that `LanguageIdentifier::set_script` and `from_parts`
/// make of a text, through `subtags::parse_script_subtag`: a script is four
/// ASCII letters and is kept in title case.
pub open spec fn parsed_script(text: Seq<u8>) -> Result<Seq<char>, LocaleError> {
    if text.len() == 4 && all_alphabetic(text) {
        Ok(ascii_chars(title(text)))
    } else {
        Err(invalid_subtag())
    }
}

/// The region subtag that `LanguageIdentifier::set_region` and `from_parts`
/// make of a text, through `subtags::parse_region_subtag`: a region is two
/// ASCII letters, which are kept in uppercase, or three ASCII digits.
pub open spec fn parsed_region(text: Seq<u8>) -> Result<Seq<char>, LocaleError> {
    if text.len() == 2 && all_alphabetic(text) {
        Ok(ascii_chars(upper(text)))
    } else if text.len() == 3 && all_digits(text) {
        Ok(ascii_chars(text))
    } else {
        Err(invalid_subtag())
    }
}

/// The variant subtags that `LanguageIdentifier::set_variants` and
/// `from_parts` make of one or more texts: each parsed by
/// `subtags::parse_variant_subtag`, then sorted and freed of duplicates.
pub uninterp spec fn parsed_variants(texts: Seq<Seq<u8>>) -> Result<Seq<Seq<char>>, LocaleError>;

/// The integers that `LanguageIdentifier::into_raw_parts` packs subtags into.
pub uninterp spec fn raw_parts_of(v: LanguageIdentifierView) -> (
    Option<u64>,
    Option<u32>,
    Option<u32>,
    Option<Seq<u64>>,
);

/// Is the byte an ASCII character other than NUL?
pub open spec fn is_plain_byte(b: u8) -> bool {
    0 < b < 0x80
}

/// Can `unic_langid_impl` take `subtag` as a variant? Its parser of variants
/// panics on a subtag of four bytes that holds a NUL or a byte beyond ASCII;
/// every other subtag it accepts or refuses.
pub open spec fn is_safe_variant(subtag: Seq<u8>) -> bool {
    subtag.len() == 4 ==> forall|i: int| 0 <= i < 4 ==> is_plain_byte(#[trigger] subtag[i])
}

/// Are all of `subtags` safe as variants?
pub open spec fn all_safe_variants(subtags: Seq<Seq<u8>>) -> bool {
    forall|i: int| 0 <= i < subtags.len() ==> is_safe_variant(#[trigger] subtags[i])
}

/// Can `unic_langid_impl` parse `text`? It can when every subtag after the
/// first, which is the language, is safe as a variant.
pub open spec fn is_safe_text(text: Seq<u8>) -> bool {
    all_safe_variants(split(text).drop_first())
}

/// Can the language identifier take `subtag` as a variant?
pub fn safe_variant(subtag: &[u8]) -> (r: bool)
    ensures
        r == is_safe_variant(subtag@),
{
    if subtag.len() != 4 {
        return true;
    }
    let mut i: usize = 0;
    while i < 4
        invariant
            i <= 4,
            subtag@.len() == 4,
            forall|j: int| 0 <= j < i ==> is_plain_byte(#[trigger] subtag@[j]),
        decreases 4 - i,
    {
        if subtag[i] == 0 || subtag[i] >= 0x80 {
            return false;
        }
        i = i + 1;
    }
    true
}

/// Can the language identifier take all of `variants`?
pub fn safe_variants(variants: &[&str]) -> (r: bool)
    ensures
        r == all_safe_variants(texts_of(variants@)),
{
    let n = variants.len();
    let mut i: usize = 0;
    while i < n
        invariant
            i <= n,
            n == variants@.len(),
            forall|j: int| 0 <= j < i ==> is_safe_variant(#[trigger] texts_of(variants@)[j]),
        decreases n - i,
    {
        if !safe_variant(variants[i].as_bytes()) {
            assert(!is_safe_variant(texts_of(variants@)[i as int]));
            return false;
        }
        i = i + 1;
    }
    true
}

/// Can the language identifier parse `bytes`?
pub fn safe_text(bytes: &[u8]) -> (r: bool)
    ensures
        r == is_safe_text(bytes@),
{
    let mut iter = SubtagIterator::new(bytes);
    iter.next();
    let ghost tail = split(bytes@).drop_first();
    let ghost mut seen: int = 0;
    loop
        invariant
            0 <= seen <= tail.len(),
            tail == split(bytes@).drop_first(),
            iter.remaining() == tail.skip(seen),
            forall|j: int| 0 <= j < seen ==> is_safe_variant(#[trigger] tail[j]),
        ensures
            all_safe_variants(tail),
        decreases iter.remaining().len(),
    {
        let subtag = match iter.next() {
            Some(s) => s,
            None => {
                break ;
            },
        };
        proof {
            assert(tail.skip(seen)[0] == tail[seen]);
            assert(tail.skip(seen).drop_first() =~= tail.skip(seen + 1));
        }
        if !safe_variant(subtag) {
            return false;
        }
        proof {
            seen = seen + 1;
        }
    }
    true
}

/// `LanguageIdentifier::default()`: the identifier without any subtag.
#[verifier::external_body]
pub(crate) fn langid_default() -> (r: LanguageIdentifier)
    ensures
        langid_view(r) == LanguageIdentifierView::undetermined(),
{
    LanguageIdentifier::default()
}

/// `LanguageIdentifier::clone()`: a copy that holds the same subtags.
#[verifier::external_body]
pub(crate) fn langid_clone(id: &LanguageIdentifier) -> (r: LanguageIdentifier)
    ensures
        langid_view(r) == langid_view(*id),
{
    id.clone()
}

/// `unic_langid_impl::parser::parse_language_identifier`: the identifier
/// that a text stands for, or the parser's error as this crate names it.
/// The result depends on the bytes of the text alone. A text without a
/// separator is one subtag, which the parser reads as the language, with
/// `subtags::parse_language_subtag`.
#[verifier::external_body]
pub(crate) fn parse_language_identifier(t: &str) -> (r: Result<LanguageIdentifier, ParserError>)
    requires
        is_safe_text(t.spec_bytes()),
    ensures
        match r {
            Ok(id) => parsed_language_identifier(t.spec_bytes()) == Ok::<
                LanguageIdentifierView,
                ParserError,
            >(langid_view(id)),
            Err(e) => parsed_language_identifier(t.spec_bytes()) == Err::<
                LanguageIdentifierView,
                ParserError,
            >(e),
        },
        separator_free(t.spec_bytes()) ==> match parsed_language(t.spec_bytes()) {
            Ok(language) => r matches Ok(id) && langid_view(id) == (LanguageIdentifierView {
                language,
                ..LanguageIdentifierView::undetermined()
            }),
            Err(_) => r == Err::<LanguageIdentifier, ParserError>(ParserError::InvalidLanguage),
        },
{
    match unic_langid_impl::parser::parse_language_identifier(t) {
        Ok(id) => Ok(id),
        Err(LanguageParserError::InvalidLanguage) => Err(ParserError::InvalidLanguage),
        Err(LanguageParserError::InvalidSubtag) => Err(ParserError::InvalidSubtag),
    }
}

/// `LanguageIdentifier::from_parts`: the identifier made of the given
/// subtags, or the error as this crate names it. It parses the language, the
/// script, the region and the variants in this order, with the functions
/// that the four setters call, and stops at the first error.
#[verifier::external_body]
pub(crate) fn langid_from_parts(
    language: Option<&str>,
    script: Option<&str>,
    region: Option<&str>,
    variants: &[&str],
) -> (r: Result<LanguageIdentifier, LocaleError>)
    requires
        all_safe_variants(texts_of(variants@)),
    ensures
        match r {
            Ok(id) => language_identifier_from_parts(
                option_str(language),
                option_str(script),
                option_str(region),
                texts_of(variants@),
            ) == Ok::<LanguageIdentifierView, LocaleError>(langid_view(id)),
            Err(e) => language_identifier_from_parts(
                option_str(language),
                option_str(script),
                option_str(region),
                texts_of(variants@),
            ) == Err::<LanguageIdentifierView, LocaleError>(e),
        },
{
    match LanguageIdentifier::from_parts(language, script, region, variants) {
        Ok(id) => Ok(id),
        Err(LanguageIdentifierError::Unknown) => Err(LocaleError::Unknown),
        Err(LanguageIdentifierError::ParserError(e)) => Err(
            LocaleError::ParserError(
                match e {
                    LanguageParserError::InvalidLanguage => ParserError::InvalidLanguage,
                    LanguageParserError::InvalidSubtag => ParserError::InvalidSubtag,
                },
            ),
        ),
    }
}

/// `LanguageIdentifier::into_raw_parts`: the subtags packed into integers.
/// The integers depend on the subtags alone, and there is one for each
/// subtag that the identifier holds.
#[verifier::external_body]
pub(crate) fn langid_into_raw_parts(id: LanguageIdentifier) -> (r: (
    Option<u64>,
    Option<u32>,
    Option<u32>,
    Option<Box<[u64]>>,
))
    ensures
        r.0 == raw_parts_of(langid_view(id)).0,
        r.1 == raw_parts_of(langid_view(id)).1,
        r.2 == raw_parts_of(langid_view(id)).2,
        option_integers(r.3) == raw_parts_of(langid_view(id)).3,
        r.0 is Some <==> langid_view(id).language is Some,
        r.1 is Some <==> langid_view(id).script is Some,
        r.2 is Some <==> langid_view(id).region is Some,
        match r.3 {
            Some(v) => langid_view(id).variants is Some && v@.len() == langid_view(
                id,
            ).listed_variants().len(),
            None => langid_view(id).variants is None,
        },
{
    id.into_raw_parts()
}

/// `LanguageIdentifier::matches`: each pair of subtags is equal, or one of
/// the two is missing on a side that is read as a range.
#[verifier::external_body]
pub(crate) fn langid_matches(
    id: &LanguageIdentifier,
    other: &LanguageIdentifier,
    self_as_range: bool,
    other_as_range: bool,
) -> (r: bool)
    ensures
        r == langid_view(*id).matches(langid_view(*other), self_as_range, other_as_range),
{
    id.matches(other, self_as_range, other_as_range)
}

/// `LanguageIdentifier::get_language`: the language, or `und` if there is none.
#[verifier::external_body]
pub(crate) fn langid_get_language<'a>(id: &'a LanguageIdentifier) -> (r: &'a str)
    ensures
        r@ == langid_view(*id).shown_language(),
{
    id.get_language()
}

/// `LanguageIdentifier::get_script`: the script, if there is one.
#[verifier::external_body]
pub(crate) fn langid_get_script<'a>(id: &'a LanguageIdentifier) -> (r: Option<&'a str>)
    ensures
        option_chars(r) == langid_view(*id).script,
{
    id.get_script()
}

/// `LanguageIdentifier::get_region`: the region, if there is one.
#[verifier::external_body]
pub(crate) fn langid_get_region<'a>(id: &'a LanguageIdentifier) -> (r: Option<&'a str>)
    ensures
        option_chars(r) == langid_view(*id).region,
{
    id.get_region()
}

/// `LanguageIdentifier::get_variants`: the variants in their order, none
/// being the empty list.
#[verifier::external_body]
pub(crate) fn langid_get_variants<'a>(id: &'a LanguageIdentifier) -> (r: Vec<&'a str>)
    ensures
        chars_of(r@) == langid_view(*id).listed_variants(),
{
    id.get_variants()
}

/// `LanguageIdentifier::set_language`: without a text the language is
/// removed; with one it becomes what `subtags::parse_language_subtag` makes
/// of the text, and on an error the identifier keeps its subtags. The other
/// subtags stay.
#[verifier::external_body]
pub(crate) fn langid_set_language(id: &mut LanguageIdentifier, language: Option<&str>) -> (r:
    Result<(), LocaleError>)
    ensures
        match language {
            None => r is Ok && langid_view(*final(id)) == (LanguageIdentifierView {
                language: None,
                ..langid_view(*old(id))
            }),
            Some(s) => match parsed_language(s.spec_bytes()) {
                Ok(l) => r is Ok && langid_view(*final(id)) == (LanguageIdentifierView {
                    language: l,
                    ..langid_view(*old(id))
                }),
                Err(e) => r == Err::<(), LocaleError>(e) && langid_view(*final(id)) == langid_view(
                    *old(id),
                ),
            },
        },
{
    match id.set_language(language) {
        Ok(()) => Ok(()),
        Err(LanguageIdentifierError::Unknown) => Err(LocaleError::Unknown),
        Err(LanguageIdentifierError::ParserError(e)) => Err(
            LocaleError::ParserError(
                match e {
                    LanguageParserError::InvalidLanguage => ParserError::InvalidLanguage,
                    LanguageParserError::InvalidSubtag => ParserError::InvalidSubtag,
                },
            ),
        ),
    }
}

/// `LanguageIdentifier::set_script`: without a text the script is removed;
/// with one it becomes what `subtags::parse_script_subtag` makes of the text,
/// and on an error the identifier keeps its subtags. The other subtags stay.
#[verifier::external_body]
pub(crate) fn langid_set_script(id: &mut LanguageIdentifier, script: Option<&str>) -> (r: Result<
    (),
    LocaleError,
>)
    ensures
        match script {
            None => r is Ok && langid_view(*final(id)) == (LanguageIdentifierView {
                script: None,
                ..langid_view(*old(id))
            }),
            Some(s) => match parsed_script(s.spec_bytes()) {
                Ok(l) => r is Ok && langid_view(*final(id)) == (LanguageIdentifierView {
                    script: Some(l),
                    ..langid_view(*old(id))
                }),
                Err(e) => r == Err::<(), LocaleError>(e) && langid_view(*final(id)) == langid_view(
                    *old(id),
                ),
            },
        },
{
    match id.set_script(script) {
        Ok(()) => Ok(()),
        Err(LanguageIdentifierError::Unknown) => Err(LocaleError::Unknown),
        Err(LanguageIdentifierError::ParserError(e)) => Err(
            LocaleError::ParserError(
                match e {
                    LanguageParserError::InvalidLanguage => ParserError::InvalidLanguage,
                    LanguageParserError::InvalidSubtag => ParserError::InvalidSubtag,
                },
            ),
        ),
    }
}

/// `LanguageIdentifier::set_region`: without a text the region is removed;
/// with one it becomes what `subtags::parse_region_subtag` makes of the text,
/// and on an error the identifier keeps its subtags. The other subtags stay.
#[verifier::external_body]
pub(crate) fn langid_set_region(id: &mut LanguageIdentifier, region: Option<&str>) -> (r: Result<
    (),
    LocaleError,
>)
    ensures
        match region {
            None => r is Ok && langid_view(*final(id)) == (LanguageIdentifierView {
                region: None,
                ..langid_view(*old(id))
            }),
            Some(s) => match parsed_region(s.spec_bytes()) {
                Ok(l) => r is Ok && langid_view(*final(id)) == (LanguageIdentifierView {
                    region: Some(l),
                    ..langid_view(*old(id))
                }),
                Err(e) => r == Err::<(), LocaleError>(e) && langid_view(*final(id)) == langid_view(
                    *old(id),
                ),
            },
        },
{
    match id.set_region(region) {
        Ok(()) => Ok(()),
        Err(LanguageIdentifierError::Unknown) => Err(LocaleError::Unknown),
        Err(LanguageIdentifierError::ParserError(e)) => Err(
            LocaleError::ParserError(
                match e {
                    LanguageParserError::InvalidLanguage => ParserError::InvalidLanguage,
                    LanguageParserError::InvalidSubtag => ParserError::InvalidSubtag,
                },
            ),
        ),
    }
}

/// `LanguageIdentifier::set_variants`: without texts the variants are
/// removed; with some they become what the texts are parsed into, and on an
/// error the identifier keeps its subtags. The other subtags stay.
#[verifier::external_body]
pub(crate) fn langid_set_variants(id: &mut LanguageIdentifier, variants: &[&str]) -> (r: Result<
    (),
    LocaleError,
>)
    requires
        all_safe_variants(texts_of(variants@)),
    ensures
        if variants@.len() == 0 {
            r is Ok && langid_view(*final(id)) == (LanguageIdentifierView {
                variants: None,
                ..langid_view(*old(id))
            })
        } else {
            match parsed_variants(texts_of(variants@)) {
                Ok(v) => r is Ok && langid_view(*final(id)) == (LanguageIdentifierView {
                    variants: Some(v),
                    ..langid_view(*old(id))
                }),
                Err(e) => r == Err::<(), LocaleError>(e) && langid_view(*final(id)) == langid_view(
                    *old(id),
                ),
            }
        },
{
    match id.set_variants(variants) {
        Ok(()) => Ok(()),
        Err(LanguageIdentifierError::Unknown) => Err(LocaleError::Unknown),
        Err(LanguageIdentifierError::ParserError(e)) => Err(
            LocaleError::ParserError(
                match e {
                    LanguageParserError::InvalidLanguage => ParserError::InvalidLanguage,
                    LanguageParserError::InvalidSubtag => ParserError::InvalidSubtag,
                },
            ),
        ),
    }
}

/// `LanguageIdentifier::to_string`, which goes by its `Display`: the subtags
/// with a hyphen between them, `und` standing for no language.
#[verifier::external_body]
pub(crate) fn langid_to_string(id: &LanguageIdentifier) -> (r: String)
    ensures
        r@ == langid_view(*id).text(),
{
    id.to_string()
}

} // verus!
