use tinystr::TinyStr8;
use unic_locale_impl::errors::LocaleError;
use unic_locale_impl::extensions::{ExtensionType, ExtensionsMap, UnicodeExtensionKey};
use unic_locale_impl::parser::errors::ParserError;
use unic_locale_impl::subtags::SubtagIterator;

#[test]
fn empty_input_gives_an_empty_map() {
    let map = ExtensionsMap::from_bytes(b"").unwrap();
    assert!(map.is_empty());
    assert_eq!(map.to_string(), "");
    assert_eq!(map, ExtensionsMap::default());
}

#[test]
fn sections_come_out_in_canonical_order() {
    let a = ExtensionsMap::from_bytes(b"-t-xxxx-u-ca-gregory").unwrap();
    let b = ExtensionsMap::from_bytes(b"-u-ca-gregory-t-xxxx").unwrap();
    assert_eq!(a.to_string(), "-t-xxxx-u-ca-gregory");
    assert_eq!(b.to_string(), "-t-xxxx-u-ca-gregory");
    assert_eq!(a, b);
}

#[test]
fn private_section_comes_out_last() {
    let map = ExtensionsMap::from_str("-x-private-u-ca-gregory-t-h0-hybrid").unwrap();
    assert_eq!(map.to_string(), "-t-h0-hybrid-u-ca-gregory-x-private");
}

#[test]
fn key_without_value_is_recorded_without_value() {
    let map = ExtensionsMap::from_bytes(b"-u-foo").unwrap();
    assert!(!map.is_empty());
    assert!(map.unicode.contains_key("foo"));
    assert_eq!(map.unicode.get("foo"), None);
    assert_eq!(map.unicode.len(), 1);
    assert_eq!(map.to_string(), "-u-foo");
}

#[test]
fn key_without_value_before_another_singleton() {
    let map = ExtensionsMap::from_bytes(b"-u-foo-x-ab").unwrap();
    assert!(map.unicode.contains_key("foo"));
    assert_eq!(map.unicode.get("foo"), None);
    assert_eq!(map.get_private().get(0), Some("ab".to_string()));
    assert_eq!(map.to_string(), "-u-foo-x-ab");
}

#[test]
fn canonical_text_round_trips() {
    for text in [
        "",
        "-u-ca-gregory",
        "-u-foo",
        "-t-xxxx",
        "-x-private",
        "-t-h0-hybrid-u-ca-gregory-nu-latn-x-ab-cd",
        "-u-ca-gregory-hc-h12-foo",
        "-t-m0-names-x-a1-b2-c3",
    ] {
        let map = ExtensionsMap::from_str(text).unwrap();
        assert_eq!(map.to_string(), text);
        assert_eq!(String::from_utf8(map.to_bytes()).unwrap(), text);
    }
}

#[test]
fn canonicalization_is_idempotent() {
    for text in [
        "-U-CA-Gregory",
        "u-ca-gregory",
        "-x-Private-u-nu-LATN-t-H0-hybrid",
        "_u_ca_gregory",
        "--u-ca-gregory",
        "-u-ca-gregory-ca-buddhist",
        "-u-ca-gregory-nu-latn-ca",
        "-u-ca-gregory-u-nu-latn",
        "-u",
        "-u-x-ab",
    ] {
        let first = ExtensionsMap::from_str(text).unwrap();
        let second = ExtensionsMap::from_str(&first.to_string()).unwrap();
        assert_eq!(first, second);
        assert_eq!(first.to_string(), second.to_string());
    }
}

#[test]
fn input_is_put_in_lowercase() {
    let map = ExtensionsMap::from_str("-U-CA-Gregory-X-Private").unwrap();
    assert_eq!(map.to_string(), "-u-ca-gregory-x-private");
}

#[test]
fn underscores_separate_like_hyphens() {
    let map = ExtensionsMap::from_str("_u_ca_gregory").unwrap();
    assert_eq!(map.to_string(), "-u-ca-gregory");
}

#[test]
fn empty_subtags_between_sections_are_passed_over() {
    let map = ExtensionsMap::from_str("--u-ca-gregory").unwrap();
    assert_eq!(map.to_string(), "-u-ca-gregory");
    assert_eq!(ExtensionsMap::from_str("-").unwrap(), ExtensionsMap::default());
}

#[test]
fn a_later_section_replaces_an_earlier_one() {
    let map = ExtensionsMap::from_str("-u-ca-gregory-t-h0-hybrid-u-nu-latn").unwrap();
    assert_eq!(map.to_string(), "-t-h0-hybrid-u-nu-latn");
}

#[test]
fn a_repeated_key_keeps_its_last_value() {
    let map = ExtensionsMap::from_str("-u-ca-gregory-nu-latn-ca-buddhist").unwrap();
    assert_eq!(map.to_string(), "-u-nu-latn-ca-buddhist");
    let map = ExtensionsMap::from_str("-u-ca-gregory-nu-latn-ca").unwrap();
    assert_eq!(map.to_string(), "-u-nu-latn-ca");
}

#[test]
fn a_section_without_subtags_leaves_nothing() {
    let map = ExtensionsMap::from_str("-u").unwrap();
    assert!(map.is_empty());
    assert_eq!(map.to_string(), "");
    let map = ExtensionsMap::from_str("-u-x-ab").unwrap();
    assert_eq!(map.to_string(), "-x-ab");
}

#[test]
fn subtags_before_a_singleton_are_invalid_subtags() {
    assert_eq!(ExtensionsMap::from_bytes(b"ca-gregory").err(), Some(ParserError::InvalidSubtag));
    assert_eq!(ExtensionsMap::from_bytes(b"-ca-gregory").err(), Some(ParserError::InvalidSubtag));
    assert_eq!(ExtensionsMap::from_bytes(b"--ca").err(), Some(ParserError::InvalidSubtag));
    assert_eq!(ExtensionsMap::from_str("gregory").err(), Some(ParserError::InvalidSubtag));
}

#[test]
fn unknown_singleton_bytes_are_invalid_extensions() {
    assert_eq!(ExtensionsMap::from_bytes(b"-!-ca").err(), Some(ParserError::InvalidExtension));
    assert_eq!(ExtensionsMap::from_bytes(b"-@").err(), Some(ParserError::InvalidExtension));
    assert_eq!(
        ExtensionsMap::from_bytes(b"-u-ca-gregory-#").err(),
        Some(ParserError::InvalidExtension)
    );
    assert_eq!(ExtensionsMap::from_bytes(&[b'-', 0xe9]).err(), Some(ParserError::InvalidExtension));
}

#[test]
fn other_extension_types_are_unsupported() {
    assert_eq!(ExtensionsMap::from_bytes(b"-a-foo").err(), Some(ParserError::UnsupportedExtension));
    assert_eq!(
        ExtensionsMap::from_bytes(b"-u-ca-gregory-z-foo").err(),
        Some(ParserError::UnsupportedExtension)
    );
    assert_eq!(ExtensionsMap::from_bytes(b"-7").err(), Some(ParserError::UnsupportedExtension));
}

#[test]
fn malformed_subtags_in_a_section_are_invalid_extensions() {
    assert_eq!(ExtensionsMap::from_bytes(b"-u-ca-").err(), Some(ParserError::InvalidExtension));
    assert_eq!(ExtensionsMap::from_bytes(b"-u--ca").err(), Some(ParserError::InvalidExtension));
    assert_eq!(
        ExtensionsMap::from_bytes(b"-u-calendars1").err(),
        Some(ParserError::InvalidExtension)
    );
    assert_eq!(ExtensionsMap::from_bytes(b"-u-c!").err(), Some(ParserError::InvalidExtension));
    assert_eq!(ExtensionsMap::from_bytes(b"-x-ab-c$").err(), Some(ParserError::InvalidExtension));
    assert_eq!(
        ExtensionsMap::from_bytes("-t-\u{e9}\u{e9}".as_bytes()).err(),
        Some(ParserError::InvalidExtension)
    );
}

#[test]
fn try_from_iter_uses_up_the_subtags() {
    let mut iter = SubtagIterator::new(b"en-US-u-ca-gregory");
    assert_eq!(iter.next(), Some(&b"en"[..]));
    assert_eq!(iter.next(), Some(&b"US"[..]));
    let map = ExtensionsMap::try_from_iter(&mut iter).unwrap();
    assert_eq!(map.to_string(), "-u-ca-gregory");
    assert_eq!(iter.next(), None);
}

#[test]
fn is_empty_does_not_look_at_other_extensions() {
    let mut map = ExtensionsMap::default();
    let tag: TinyStr8 = "foo".parse().unwrap();
    map.other.insert('a', vec![tag]);
    assert!(map.is_empty());
    assert_eq!(map.to_string(), "");
    assert_ne!(map, ExtensionsMap::default());
    let copy = map.clone();
    assert_eq!(copy, map);
}

#[test]
fn set_unicode_value_sets_a_keyword() {
    let mut map = ExtensionsMap::default();
    let key = UnicodeExtensionKey::from_str("ca").unwrap();
    assert_eq!(map.set_unicode_value(key, Some("Gregory")), Ok(()));
    assert_eq!(map.to_string(), "-u-ca-gregory");
    let key = UnicodeExtensionKey::from_str("ca").unwrap();
    assert_eq!(map.set_unicode_value(key, None), Ok(()));
    assert_eq!(map.to_string(), "-u-ca");
    let key = UnicodeExtensionKey::from_str("nu").unwrap();
    assert_eq!(
        map.set_unicode_value(key, Some("not a value")),
        Err(LocaleError::ParserError(ParserError::InvalidExtension))
    );
    assert_eq!(map.to_string(), "-u-ca");
}

#[test]
fn set_transform_and_private_values() {
    let mut map = ExtensionsMap::default();
    assert_eq!(map.set_transform_value("H0", Some("Hybrid")), Ok(()));
    assert_eq!(map.set_private_value("Foo", Some("Bar")), Ok(()));
    assert_eq!(map.set_private_value("baz", None), Ok(()));
    assert_eq!(map.to_string(), "-t-h0-hybrid-x-foo-bar-baz");
    assert_eq!(
        map.set_transform_value("h", None),
        Err(LocaleError::ParserError(ParserError::InvalidExtension))
    );
    assert_eq!(
        map.set_private_value("ok", Some("")),
        Err(LocaleError::ParserError(ParserError::InvalidExtension))
    );
    assert_eq!(map.to_string(), "-t-h0-hybrid-x-foo-bar-baz");
    assert_eq!(map.get_transform().get("h0"), Some("hybrid".to_string()));
    assert!(map.get_unicode().is_empty());
    assert_eq!(map.get_private().len(), 3);
}

#[test]
fn set_value_goes_by_the_extension_type() {
    let mut map = ExtensionsMap::default();
    assert_eq!(map.set_value(ExtensionType::Unicode, b"ca", Some(b"gregory")), Ok(()));
    assert_eq!(map.set_value(ExtensionType::Transform, b"h0", None), Ok(()));
    assert_eq!(map.set_value(ExtensionType::Private, b"ab", Some(b"cd")), Ok(()));
    assert_eq!(
        map.set_value(ExtensionType::Other('a'), b"ab", None),
        Err(ParserError::UnsupportedExtension)
    );
    assert_eq!(
        map.set_value(ExtensionType::Unicode, b"a", None),
        Err(ParserError::InvalidExtension)
    );
    assert_eq!(map.to_string(), "-t-h0-u-ca-gregory-x-ab-cd");
}

#[test]
fn text_outside_canonical_form_is_rewritten() {
    for (text, canonical) in [
        ("u-ca-gregory", "-u-ca-gregory"),
        ("-u_ca_gregory", "-u-ca-gregory"),
        ("--u-ca-gregory", "-u-ca-gregory"),
        ("-U-CA-GREGORY", "-u-ca-gregory"),
        ("-u", ""),
        ("-u-ca-gregory-t-h0-hybrid", "-t-h0-hybrid-u-ca-gregory"),
        ("-u-ca-gregory-ca-buddhist", "-u-ca-buddhist"),
        ("-x-ab-u-ca", "-u-ca-x-ab"),
    ] {
        let map = ExtensionsMap::from_str(text).unwrap();
        assert_eq!(map.to_string(), canonical);
        let again = ExtensionsMap::from_str(canonical).unwrap();
        assert_eq!(again.to_string(), canonical);
        assert_eq!(again, map);
    }
}

#[test]
fn a_map_with_a_missing_value_in_the_middle_is_not_read_back() {
    let mut map = ExtensionsMap::default();
    map.set_transform_value("h0", None).unwrap();
    map.set_transform_value("m0", Some("names")).unwrap();
    assert_eq!(map.to_string(), "-t-h0-m0-names");
    let read = ExtensionsMap::from_str(&map.to_string()).unwrap();
    assert_ne!(read, map);
    assert_eq!(read.get_transform().get("h0"), Some("m0".to_string()));
    assert!(read.get_transform().contains_key("names"));
}
