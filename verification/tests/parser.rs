use unic_locale_impl::extensions::ExtensionsMap;
use unic_locale_impl::parser::errors::ParserError;
use unic_locale_impl::parser::{
    first_subtag, locale_with_tail, parse_extension_bytes, parse_extension_subtags,
    parse_locale, refused, split_locale,
};
use unic_locale_impl::LanguageIdentifier;

#[test]
fn empty_text_has_no_extensions() {
    let map = parse_extension_subtags("").unwrap();
    assert!(map.is_empty());
    assert_eq!(map, ExtensionsMap::default());
}

#[test]
fn keys_and_values_go_to_their_sections() {
    let map = parse_extension_subtags("u-ca-gregory-nu-latn-t-h0-hybrid-x-foo-bar").unwrap();
    assert_eq!(map.unicode.get("ca"), Some("gregory".to_string()));
    assert_eq!(map.unicode.get("nu"), Some("latn".to_string()));
    assert_eq!(map.transform.get("h0"), Some("hybrid".to_string()));
    assert_eq!(map.private.get(0), Some("foo".to_string()));
    assert_eq!(map.private.get(1), Some("bar".to_string()));
    assert_eq!(map.to_string(), "-t-h0-hybrid-u-ca-gregory-nu-latn-x-foo-bar");
}

#[test]
fn a_key_without_value_is_flushed_at_the_end() {
    let map = parse_extension_subtags("u-foo").unwrap();
    assert!(map.unicode.contains_key("foo"));
    assert_eq!(map.unicode.get("foo"), None);
    assert_eq!(map.to_string(), "-u-foo");
}

#[test]
fn a_key_without_value_is_flushed_at_a_singleton() {
    let map = parse_extension_subtags("u-ca-gregory-foo-t-xxxx").unwrap();
    assert!(map.unicode.contains_key("foo"));
    assert_eq!(map.unicode.get("foo"), None);
    assert!(map.transform.contains_key("xxxx"));
    assert_eq!(map.to_string(), "-t-xxxx-u-ca-gregory-foo");
}

#[test]
fn only_one_value_goes_with_a_key() {
    let map = parse_extension_subtags("u-ca-gregory-islamic").unwrap();
    assert_eq!(map.unicode.get("ca"), Some("gregory".to_string()));
    assert!(map.unicode.contains_key("islamic"));
    assert_eq!(map.unicode.get("islamic"), None);
}

#[test]
fn mixed_case_is_accepted() {
    let map = parse_extension_subtags("U-CA-Gregory").unwrap();
    assert_eq!(map.to_string(), "-u-ca-gregory");
    let map = parse_extension_bytes(b"X_Ab_cD").unwrap();
    assert_eq!(map.to_string(), "-x-ab-cd");
}

#[test]
fn a_repeated_section_adds_to_the_first() {
    let map = parse_extension_subtags("u-ca-gregory-t-h0-hybrid-u-nu-latn").unwrap();
    assert_eq!(map.to_string(), "-t-h0-hybrid-u-ca-gregory-nu-latn");
}

#[test]
fn a_subtag_before_any_singleton_is_an_invalid_subtag() {
    assert_eq!(parse_extension_subtags("ca-gregory").err(), Some(ParserError::InvalidSubtag));
    assert_eq!(parse_extension_subtags("gregory").err(), Some(ParserError::InvalidSubtag));
    assert_eq!(parse_extension_subtags("-u-foo").err(), Some(ParserError::InvalidSubtag));
    assert_eq!(parse_extension_subtags("-").err(), Some(ParserError::InvalidSubtag));
}

#[test]
fn an_unknown_singleton_is_an_invalid_extension() {
    assert_eq!(parse_extension_subtags("!").err(), Some(ParserError::InvalidExtension));
    assert_eq!(parse_extension_subtags("!-ca").err(), Some(ParserError::InvalidExtension));
    assert_eq!(
        parse_extension_subtags("u-ca-gregory-@").err(),
        Some(ParserError::InvalidExtension)
    );
    assert_eq!(parse_extension_subtags("u-ca-%-ab").err(), Some(ParserError::InvalidExtension));
}

#[test]
fn other_singletons_are_unsupported() {
    assert_eq!(parse_extension_subtags("a-foo").err(), Some(ParserError::UnsupportedExtension));
    assert_eq!(
        parse_extension_subtags("u-ca-gregory-b").err(),
        Some(ParserError::UnsupportedExtension)
    );
    assert_eq!(parse_extension_subtags("9").err(), Some(ParserError::UnsupportedExtension));
}

#[test]
fn a_refused_key_or_value_is_an_invalid_extension() {
    assert_eq!(parse_extension_subtags("u-ca-").err(), Some(ParserError::InvalidExtension));
    assert_eq!(parse_extension_subtags("u--ca").err(), Some(ParserError::InvalidExtension));
    assert_eq!(parse_extension_subtags("u-toolongkey").err(), Some(ParserError::InvalidExtension));
    assert_eq!(
        parse_extension_subtags("u-toolongkey-x-ab").err(),
        Some(ParserError::InvalidExtension)
    );
    assert_eq!(parse_extension_subtags("t-h0-hy!brid").err(), Some(ParserError::InvalidExtension));
    assert_eq!(
        parse_extension_subtags("x-\u{e9}\u{e9}").err(),
        Some(ParserError::InvalidExtension)
    );
}

#[test]
fn both_parsers_agree_on_well_formed_text() {
    for text in [
        "u-ca-gregory",
        "u-foo",
        "t-xxxx-u-ca-gregory",
        "x-private-u-ca-gregory-nu",
        "u-ca-gregory-ca-buddhist",
        "U-CA_gregory-X-Ab",
        "u",
        "u-x-ab",
    ] {
        let tail = parse_extension_subtags(text).unwrap();
        let list = ExtensionsMap::from_str(text).unwrap();
        assert_eq!(tail, list);
    }
    for text in ["a-foo", "u-c", "u-c!", "!", "ca-gregory", "u-ca-", "u-ca-@"] {
        assert_eq!(parse_extension_subtags(text).err(), ExtensionsMap::from_str(text).err());
    }
}

#[test]
fn parse_locale_finds_the_first_singleton() {
    let locale = parse_locale("en-US-u-ca-gregory").unwrap();
    assert_eq!(locale.langid.to_string(), "en-US");
    assert_eq!(locale.extensions.to_string(), "-u-ca-gregory");
    let locale = parse_locale("de").unwrap();
    assert_eq!(locale.langid.to_string(), "de");
    assert!(locale.extensions.is_empty());
    let locale = parse_locale("sr_Cyrl_x_private").unwrap();
    assert_eq!(locale.langid.to_string(), "sr-Cyrl");
    assert_eq!(locale.extensions.to_string(), "-x-private");
}

#[test]
fn parse_locale_lowercases_the_extensions() {
    let locale = parse_locale("EN-u-CA-GREGORY").unwrap();
    assert_eq!(locale.langid.to_string(), "en");
    assert_eq!(locale.extensions.to_string(), "-u-ca-gregory");
}

#[test]
fn parse_locale_reports_language_errors() {
    assert_eq!(parse_locale("").err(), Some(ParserError::InvalidLanguage));
    assert_eq!(parse_locale("e").err(), Some(ParserError::InvalidLanguage));
    assert_eq!(parse_locale("u-ca-gregory").err(), Some(ParserError::InvalidLanguage));
    assert_eq!(parse_locale("en-").err(), Some(ParserError::InvalidSubtag));
    assert_eq!(parse_locale("en-US-toolongvariant").err(), Some(ParserError::InvalidSubtag));
}

#[test]
fn parse_locale_reports_extension_errors() {
    assert_eq!(parse_locale("en-u-c!").err(), Some(ParserError::InvalidExtension));
    assert_eq!(parse_locale("en-a-foo").err(), Some(ParserError::UnsupportedExtension));
    assert_eq!(parse_locale("en-!-foo").err(), Some(ParserError::InvalidExtension));
    assert_eq!(parse_locale("en-u-ca-").err(), Some(ParserError::InvalidExtension));
}

#[test]
fn parse_locale_refuses_subtags_that_would_stop_the_program() {
    assert_eq!(parse_locale("en-1\u{e9}a").err(), Some(ParserError::InvalidSubtag));
    assert_eq!(parse_locale("en-\u{e9}ab").err(), Some(ParserError::InvalidSubtag));
    assert_eq!(parse_locale("en-1\0ab").err(), Some(ParserError::InvalidSubtag));
    assert_eq!(parse_locale("en-US-1\u{e9}a-u-ca").err(), Some(ParserError::InvalidSubtag));
    assert_eq!(parse_locale("1\u{e9}a").err(), Some(ParserError::InvalidLanguage));
}

#[test]
fn split_locale_cuts_before_the_first_singleton() {
    let (head, tail) = split_locale("en-US-u-ca-gregory");
    assert_eq!(head, "en-US");
    assert_eq!(tail, Some(&b"u-ca-gregory"[..]));
    let (head, tail) = split_locale("en-US");
    assert_eq!(head, "en-US");
    assert_eq!(tail, None);
    let (head, tail) = split_locale("u-ca");
    assert_eq!(head, "u-ca");
    assert_eq!(tail, None);
    let (head, tail) = split_locale("en_x");
    assert_eq!(head, "en");
    assert_eq!(tail, Some(&b"x"[..]));
    let (head, tail) = split_locale("");
    assert_eq!(head, "");
    assert_eq!(tail, None);
    let (head, tail) = split_locale("en--u-ca");
    assert_eq!(head, "en-");
    assert_eq!(tail, Some(&b"u-ca"[..]));
}

#[test]
fn locale_with_tail_reads_the_extensions_in_lowercase() {
    let langid: LanguageIdentifier = "en-US".parse().unwrap();
    let locale = locale_with_tail(Ok(langid.clone()), Some(b"U-CA-Gregory")).unwrap();
    assert_eq!(locale.langid, langid);
    assert_eq!(locale.extensions.to_string(), "-u-ca-gregory");
    let locale = locale_with_tail(Ok(langid.clone()), None).unwrap();
    assert!(locale.extensions.is_empty());
    assert_eq!(
        locale_with_tail(Ok(langid.clone()), Some(b"u-c!")).err(),
        Some(ParserError::InvalidExtension)
    );
    assert_eq!(
        locale_with_tail(Err(ParserError::InvalidLanguage), Some(b"u-c!")).err(),
        Some(ParserError::InvalidLanguage)
    );
}

#[test]
fn parse_locale_raises_the_language_error_before_an_unsafe_subtag() {
    assert_eq!(parse_locale("e-1\u{e9}a").err(), Some(ParserError::InvalidLanguage));
    assert_eq!(parse_locale("e-1\0ab").err(), Some(ParserError::InvalidLanguage));
    assert_eq!(parse_locale("-1\u{e9}a").err(), Some(ParserError::InvalidLanguage));
    assert_eq!(parse_locale("engl-\u{e9}ab-u-ca").err(), Some(ParserError::InvalidLanguage));
    assert_eq!(parse_locale("en-1\u{e9}a").err(), Some(ParserError::InvalidSubtag));
    assert_eq!(parse_locale("en-x!-1\u{e9}a").err(), Some(ParserError::InvalidSubtag));
}

#[test]
fn first_subtag_ends_at_the_first_separator() {
    assert_eq!(first_subtag("en-US"), "en");
    assert_eq!(first_subtag("en_US"), "en");
    assert_eq!(first_subtag("en"), "en");
    assert_eq!(first_subtag(""), "");
    assert_eq!(first_subtag("-en"), "");
    assert_eq!(first_subtag("\u{e9}t\u{e9}-1\u{e9}a"), "\u{e9}t\u{e9}");
}

#[test]
fn refused_passes_on_an_error_of_the_language() {
    assert_eq!(refused(Err(ParserError::InvalidLanguage)), ParserError::InvalidLanguage);
    let langid: LanguageIdentifier = "en".parse().unwrap();
    assert_eq!(refused(Ok(langid)), ParserError::InvalidSubtag);
}
