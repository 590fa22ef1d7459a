//! Parsing of locale strings and of their extension part.

pub mod agreement;
pub mod errors;

use unic_langid_impl::LanguageIdentifier;
use vstd::prelude::*;
use vstd::slice::slice_subrange;
use vstd::string::StringSliceAdditionalSpecFns;
use vstd::utf8::{
    encode_utf8_valid_utf8, is_char_boundary_iff_is_leading_byte,
    is_char_boundary_start_end_of_seq,
};

pub use self::errors::ParserError;

use crate::extensions::{extension_type_of, ExtensionType, ExtensionsMap, ExtensionsMapView};
use crate::langid::{
    is_safe_text, parse_language_identifier, parsed_language, parsed_language_identifier,
    safe_text,
};
use crate::subtags::{
    ascii_lower, first_len, is_alphanumeric, is_separator, is_singleton,
    lemma_first_len_bounds, lemma_split_one, lower, option_bytes, separator_free, split,
    subtag_end, to_ascii_lower, SubtagIterator,
};
use crate::{Locale, LocaleView};

verus! {

/// Where the parser of extension subtags stands between two subtags.
pub struct ParserState {
    /// The extensions read so far.
    pub map: ExtensionsMapView,
    /// The type of the section that is open, if one is.
    pub current_type: Option<ExtensionType>,
    /// A key that waits for its value, if one does.
    pub current_key: Option<Seq<u8>>,
}

impl ParserState {
    /// The state before the first subtag.
    pub open spec fn initial() -> Self {
        ParserState { map: ExtensionsMapView::empty(), current_type: None, current_key: None }
    }

    /// The map once the key that waits, if one does, went to the open section
    /// without a value. With no section open, `error` is returned.
    pub open spec fn flushed(self, error: ParserError) -> Result<ExtensionsMapView, ParserError> {
        match self.current_key {
            Some(key) => match self.current_type {
                Some(t) => self.map.with_value(t, key, None),
                None => Err(error),
            },
            None => Ok(self.map),
        }
    }

    /// The state after one more subtag.
    ///
    /// A singleton sends a key that waits to the open section, without a value,
    /// and opens the section that the singleton names. Any other subtag needs an
    /// open section: it is kept as a key if none waits, and else goes to the
    /// section as the value of the key that waits.
    pub open spec fn step(self, token: Seq<u8>) -> Result<ParserState, ParserError> {
        if is_singleton(token) {
            match self.flushed(ParserError::InvalidExtension) {
                Err(e) => Err(e),
                Ok(map) => match extension_type_of(token[0]) {
                    None => Err(ParserError::InvalidExtension),
                    Some(ExtensionType::Other(_)) => Err(ParserError::UnsupportedExtension),
                    Some(t) => Ok(ParserState { map, current_type: Some(t), current_key: None }),
                },
            }
        } else {
            match self.current_type {
                None => Err(ParserError::InvalidSubtag),
                Some(t) => match self.current_key {
                    Some(key) => match self.map.with_value(t, key, Some(token)) {
                        Ok(map) => Ok(
                            ParserState { map, current_type: Some(t), current_key: None },
                        ),
                        Err(e) => Err(e),
                    },
                    None => Ok(ParserState { current_key: Some(token), ..self }),
                },
            }
        }
    }

    /// Can the parser be in this state? A key waits only while a section is
    /// open, and no section of an unsupported type is ever open.
    pub open spec fn is_reachable(self) -> bool {
        &&& self.current_key is Some ==> self.current_type is Some
        &&& !(self.current_type matches Some(ExtensionType::Other(_)))
    }

    /// The state after the subtags `tokens`, taken in order.
    pub open spec fn run(self, tokens: Seq<Seq<u8>>) -> Result<ParserState, ParserError>
        decreases tokens.len(),
    {
        if tokens.len() == 0 {
            Ok(self)
        } else {
            match self.step(tokens[0]) {
                Ok(next) => next.run(tokens.drop_first()),
                Err(e) => Err(e),
            }
        }
    }
}

/// The extensions that the subtags of `bytes` stand for, read as the tail of
/// a locale: a singleton, the keys and values of its section, the next
/// singleton, and so on. The empty text stands for no extensions.
pub open spec fn parse_subtags(bytes: Seq<u8>) -> Result<ExtensionsMapView, ParserError> {
    if bytes.len() == 0 {
        Ok(ExtensionsMapView::empty())
    } else {
        match ParserState::initial().run(split(bytes)) {
            Ok(state) => state.flushed(ParserError::InvalidSubtag),
            Err(e) => Err(e),
        }
    }
}

/// The number of bytes of `bytes` that belong to the language identifier:
/// those before the separator that the first singleton follows, not counting
/// the first subtag, which is the language whatever its length.
pub open spec fn language_len(bytes: Seq<u8>) -> nat
    decreases bytes.len(),
{
    let n = first_len(bytes);
    if n >= bytes.len() {
        bytes.len()
    } else {
        let rest = bytes.subrange(n as int + 1, bytes.len() as int);
        if first_len(rest) == 1 {
            n
        } else {
            n + 1 + language_len(rest)
        }
    }
}

/// The error with which a text is refused that holds a subtag on which the
/// parser of `unic_langid_impl` would panic. That parser reads the subtags in
/// their order, and nothing of the first one, the language, makes it panic:
/// so the error is an invalid language if the first subtag is no language,
/// and else an invalid subtag.
pub open spec fn unsafe_text_error(text: Seq<u8>) -> ParserError {
    match parsed_language(text.subrange(0, first_len(text) as int)) {
        Err(_) => ParserError::InvalidLanguage,
        Ok(_) => ParserError::InvalidSubtag,
    }
}

/// The locale that a text stands for.
///
/// The language identifier ends where the first singleton begins, and is
/// parsed by `unic_langid_impl`. A text with a subtag on which that parser
/// would panic is refused: as an invalid language if its first subtag is no
/// language, and else as an invalid subtag. What follows the singleton's
/// separator is put in lowercase and read as extension subtags.
pub open spec fn parse_locale_text(bytes: Seq<u8>) -> Result<LocaleView, ParserError> {
    let n = language_len(bytes) as int;
    let head = bytes.subrange(0, n);
    if !is_safe_text(head) {
        Err(unsafe_text_error(head))
    } else {
        match parsed_language_identifier(head) {
            Err(e) => Err(e),
            Ok(langid) => if n < bytes.len() {
                match parse_subtags(lower(bytes.subrange(n + 1, bytes.len() as int))) {
                    Ok(extensions) => Ok(LocaleView { langid, extensions }),
                    Err(e) => Err(e),
                }
            } else {
                Ok(LocaleView { langid, extensions: ExtensionsMapView::empty() })
            },
        }
    }
}

/// Parses the extension subtags that follow the language identifier of a
/// locale, such as `u-ca-gregory-x-private`.
pub fn parse_extension_subtags(t: &str) -> (r: Result<ExtensionsMap, ParserError>)
    ensures
        match r {
            Ok(m) => parse_subtags(t.spec_bytes()) == Ok::<ExtensionsMapView, ParserError>(m@),
            Err(e) => parse_subtags(t.spec_bytes()) == Err::<ExtensionsMapView, ParserError>(e),
        },
{
    parse_extension_bytes(t.as_bytes())
}

/// Parses the extension subtags that follow the language identifier of a
/// locale, given as bytes.
pub fn parse_extension_bytes(bytes: &[u8]) -> (r: Result<ExtensionsMap, ParserError>)
    ensures
        match r {
            Ok(m) => parse_subtags(bytes@) == Ok::<ExtensionsMapView, ParserError>(m@),
            Err(e) => parse_subtags(bytes@) == Err::<ExtensionsMapView, ParserError>(e),
        },
{
    let mut result = ExtensionsMap::default();
    if bytes.len() == 0 {
        return Ok(result);
    }
    let mut current_type: Option<ExtensionType> = None;
    let mut current_key: Option<&[u8]> = None;
    let mut iter = SubtagIterator::new(bytes);
    loop
        invariant
            bytes@.len() > 0,
            ParserState::initial().run(split(bytes@)) == (ParserState {
                map: result@,
                current_type,
                current_key: option_bytes(current_key),
            }).run(iter.remaining()),
        ensures
            ParserState::initial().run(split(bytes@)) == Ok::<ParserState, ParserError>(
                ParserState { map: result@, current_type, current_key: option_bytes(current_key) },
            ),
        decreases iter.remaining().len(),
    {
        let subtag = match iter.next() {
            Some(s) => s,
            None => {
                break ;
            },
        };
        if subtag.len() == 1 {
            if let Some(key) = current_key {
                match current_type {
                    Some(t) => match result.set_value(t, key, None) {
                        Ok(()) => {},
                        Err(e) => {
                            return Err(e);
                        },
                    },
                    None => {
                        return Err(ParserError::InvalidExtension);
                    },
                }
            }
            current_key = None;
            match ExtensionType::from_byte(subtag[0]) {
                Ok(ExtensionType::Other(_)) => {
                    return Err(ParserError::UnsupportedExtension);
                },
                Ok(t) => {
                    current_type = Some(t);
                },
                Err(e) => {
                    return Err(e);
                },
            }
            continue ;
        }
        match current_type {
            Some(t) => {
                if let Some(key) = current_key {
                    match result.set_value(t, key, Some(subtag)) {
                        Ok(()) => {},
                        Err(e) => {
                            return Err(e);
                        },
                    }
                    current_key = None;
                } else {
                    current_key = Some(subtag);
                }
            },
            None => {
                return Err(ParserError::InvalidSubtag);
            },
        }
    }
    if let Some(key) = current_key {
        match current_type {
            Some(t) => match result.set_value(t, key, None) {
                Ok(()) => {},
                Err(e) => {
                    return Err(e);
                },
            },
            None => {
                return Err(ParserError::InvalidSubtag);
            },
        }
    }
    Ok(result)
}

/// Where the language identifier ends in `bytes`.
fn language_end(bytes: &[u8]) -> (end: usize)
    ensures
        end == language_len(bytes@),
        end <= bytes@.len(),
        end < bytes@.len() ==> is_separator(bytes@[end as int]),
{
    let len = bytes.len();
    let mut start: usize = 0;
    assert(bytes@.subrange(0, len as int) =~= bytes@);
    loop
        invariant
            start <= len,
            len == bytes@.len(),
            language_len(bytes@) == start + language_len(bytes@.subrange(start as int, len as int)),
        decreases len - start,
    {
        let ghost here = bytes@.subrange(start as int, len as int);
        let end = subtag_end(bytes, start);
        if end >= len {
            return len;
        }
        let next = subtag_end(bytes, end + 1);
        proof {
            lemma_first_len_bounds(here);
            assert(here[end - start] == bytes@[end as int]);
            assert(here.subrange(end - start + 1, here.len() as int) =~= bytes@.subrange(
                end + 1,
                len as int,
            ));
        }
        if next - (end + 1) == 1 {
            return end;
        }
        start = end + 1;
    }
}

/// The bytes of `bytes` in ASCII lowercase.
fn to_lowercase(bytes: &[u8]) -> (r: Vec<u8>)
    ensures
        r@ == lower(bytes@),
{
    let n = bytes.len();
    let mut out: Vec<u8> = Vec::new();
    let mut i: usize = 0;
    while i < n
        invariant
            i <= n,
            n == bytes@.len(),
            out@ == lower(bytes@.take(i as int)),
        decreases n - i,
    {
        out.push(to_ascii_lower(bytes[i]));
        assert(lower(bytes@.take(i + 1)) =~= lower(bytes@.take(i as int)).push(
            ascii_lower(bytes@[i as int]),
        ));
        i = i + 1;
    }
    assert(bytes@.take(n as int) =~= bytes@);
    out
}

/// Splits the text of a locale where its first singleton begins: into the
/// text of the language identifier and, if a singleton follows, what stands
/// behind the separator in front of it.
pub fn split_locale(t: &str) -> (r: (&str, Option<&[u8]>))
    ensures
        r.0.spec_bytes() == t.spec_bytes().subrange(0, language_len(t.spec_bytes()) as int),
        option_bytes(r.1) == if language_len(t.spec_bytes()) < t.spec_bytes().len() {
            Some(
                t.spec_bytes().subrange(
                    language_len(t.spec_bytes()) as int + 1,
                    t.spec_bytes().len() as int,
                ),
            )
        } else {
            None
        },
{
    let bytes = t.as_bytes();
    let len = bytes.len();
    let end = language_end(bytes);
    proof {
        encode_utf8_valid_utf8(t@);
        if end < len {
            is_char_boundary_iff_is_leading_byte(t.spec_bytes(), end as int);
        } else {
            is_char_boundary_start_end_of_seq(t.spec_bytes());
        }
    }
    let (head, _) = t.split_at(end);
    let tail = if end < len {
        Some(slice_subrange(bytes, end + 1, len))
    } else {
        None
    };
    (head, tail)
}

/// The locale of a language identifier as its parser returned it, with the
/// extensions that `tail` stands for once it is put in lowercase. An error
/// of the language identifier comes first.
pub fn locale_with_tail(langid: Result<LanguageIdentifier, ParserError>, tail: Option<&[u8]>) -> (r:
    Result<Locale, ParserError>)
    ensures
        match langid {
            Err(e) => r matches Err(x) && x == e,
            Ok(id) => match tail {
                None => r matches Ok(l) && l.langid == id && l@.extensions
                    == ExtensionsMapView::empty(),
                Some(b) => match parse_subtags(lower(b@)) {
                    Ok(m) => r matches Ok(l) && l.langid == id && l@.extensions == m,
                    Err(e) => r matches Err(x) && x == e,
                },
            },
        },
{
    let langid = match langid {
        Ok(id) => id,
        Err(e) => {
            return Err(e);
        },
    };
    let extensions = match tail {
        Some(b) => {
            let lowered = to_lowercase(b);
            match parse_extension_bytes(lowered.as_slice()) {
                Ok(m) => m,
                Err(e) => {
                    return Err(e);
                },
            }
        },
        None => ExtensionsMap::default(),
    };
    Ok(Locale { langid, extensions })
}

/// The first subtag of a text: what stands before its first separator.
pub fn first_subtag(t: &str) -> (r: &str)
    ensures
        r.spec_bytes() == t.spec_bytes().subrange(0, first_len(t.spec_bytes()) as int),
        separator_free(r.spec_bytes()),
        is_safe_text(r.spec_bytes()),
{
    let bytes = t.as_bytes();
    let end = subtag_end(bytes, 0);
    proof {
        assert(bytes@.subrange(0, bytes@.len() as int) =~= bytes@);
        lemma_first_len_bounds(bytes@);
        encode_utf8_valid_utf8(t@);
        if end < bytes@.len() {
            is_char_boundary_iff_is_leading_byte(t.spec_bytes(), end as int);
        } else {
            is_char_boundary_start_end_of_seq(t.spec_bytes());
        }
    }
    let (first, _) = t.split_at(end);
    proof {
        // the subtag holds no separator, so it is the only subtag of its text
        assert forall|i: int| 0 <= i < first.spec_bytes().len() implies !is_separator(
            #[trigger] first.spec_bytes()[i],
        ) by {
            assert(first.spec_bytes()[i] == bytes@[i]);
        }
        lemma_split_one(first.spec_bytes());
        assert(split(first.spec_bytes()).drop_first() =~= Seq::<Seq<u8>>::empty());
    }
    first
}

/// The error with which a text is refused on one of whose subtags the parser
/// of the language identifier would panic, given what that parser returned
/// for the first subtag alone.
pub fn refused(language: Result<LanguageIdentifier, ParserError>) -> (e: ParserError)
    ensures
        e == match language {
            Err(x) => x,
            Ok(_) => ParserError::InvalidSubtag,
        },
{
    match language {
        Err(x) => x,
        Ok(_) => ParserError::InvalidSubtag,
    }
}

/// Parses a locale, such as `en-US-u-ca-gregory`: a language identifier and
/// the extensions that follow it.
///
/// The parser of the language identifier panics on a subtag of four bytes
/// that holds a NUL or a byte beyond ASCII, unless it is the first. A text
/// with such a subtag before its extensions is not handed to it: the error is
/// the one that it returns for the first subtag alone, which is an invalid
/// language, and an invalid subtag if it returns none.
pub fn parse_locale(t: &str) -> (r: Result<Locale, ParserError>)
    ensures
        match r {
            Ok(l) => parse_locale_text(t.spec_bytes()) == Ok::<LocaleView, ParserError>(l@),
            Err(e) => parse_locale_text(t.spec_bytes()) == Err::<LocaleView, ParserError>(e),
        },
{
    let (head, tail) = split_locale(t);
    if !safe_text(head.as_bytes()) {
        return Err(refused(parse_language_identifier(first_subtag(head))));
    }
    locale_with_tail(parse_language_identifier(head), tail)
}

/// Each step of the parser leads from a state it can be in to another.
pub proof fn lemma_run_reachable(state: ParserState, tokens: Seq<Seq<u8>>)
    requires
        state.is_reachable(),
    ensures
        state.run(tokens) matches Ok(next) ==> next.is_reachable(),
    decreases tokens.len(),
{
    if tokens.len() > 0 {
        if let Ok(next) = state.step(tokens[0]) {
            lemma_run_reachable(next, tokens.drop_first());
        }
    }
}

/// The subtags `a` followed by `b` are read by reading `a` and then `b`.
pub proof fn lemma_run_add(state: ParserState, a: Seq<Seq<u8>>, b: Seq<Seq<u8>>)
    ensures
        state.run(a + b) == match state.run(a) {
            Ok(next) => next.run(b),
            Err(e) => Err(e),
        },
    decreases a.len(),
{
    if a.len() == 0 {
        assert(a + b =~= b);
    } else {
        assert((a + b)[0] == a[0]);
        assert((a + b).drop_first() =~= a.drop_first() + b);
        if let Ok(next) = state.step(a[0]) {
            lemma_run_add(next, a.drop_first(), b);
        }
    }
}

/// A subtag that is no singleton cannot come first: a text that is not
/// empty and does not begin with a singleton is refused as an invalid subtag.
pub proof fn lemma_subtags_need_singleton(bytes: Seq<u8>)
    requires
        bytes.len() > 0,
        !is_singleton(split(bytes)[0]),
    ensures
        parse_subtags(bytes) == Err::<ExtensionsMapView, ParserError>(ParserError::InvalidSubtag),
{
    assert(split(bytes).len() > 0);
}

/// A singleton that is no ASCII letter or digit names no extension:
/// wherever it stands, if the subtags before it were read without an error,
/// the text is refused with an invalid extension.
pub proof fn lemma_subtags_unknown_singleton(bytes: Seq<u8>, k: int)
    requires
        0 <= k < split(bytes).len(),
        is_singleton(split(bytes)[k]),
        !is_alphanumeric(split(bytes)[k][0]),
        ParserState::initial().run(split(bytes).take(k)) is Ok,
    ensures
        parse_subtags(bytes) == Err::<ExtensionsMapView, ParserError>(
            ParserError::InvalidExtension,
        ),
{
    let tokens = split(bytes);
    let before = tokens.take(k);
    let after = tokens.skip(k);
    assert(tokens =~= before + after);
    assert(bytes.len() > 0) by {
        if bytes.len() == 0 {
            assert(tokens =~= seq![bytes]);
        }
    }
    lemma_run_add(ParserState::initial(), before, after);
    lemma_run_reachable(ParserState::initial(), before);
    assert(after[0] == tokens[k]);
}

} // verus!
