use unic_locale_impl::errors::LocaleError;
use unic_locale_impl::extensions::{ExtensionType, ExtensionsMap};
use unic_locale_impl::langid::{safe_text, safe_variant, safe_variants};
use unic_locale_impl::parser::errors::ParserError;
use unic_locale_impl::{canonicalize, LanguageIdentifier, Locale};

#[test]
fn default_locale_is_undetermined() {
    let locale = Locale::default();
    assert_eq!(locale.get_language(), "und");
    assert_eq!(locale.get_script(), None);
    assert_eq!(locale.get_region(), None);
    assert!(locale.get_variants().is_empty());
    assert!(locale.get_extensions().is_empty());
    assert_eq!(locale.to_string(), "und");
}

#[test]
fn from_parts_checks_and_normalizes_subtags() {
    let locale =
        Locale::from_parts(Some("EN"), Some("latn"), Some("us"), &["VALENCIA"], None).unwrap();
    assert_eq!(locale.get_language(), "en");
    assert_eq!(locale.get_script(), Some("Latn"));
    assert_eq!(locale.get_region(), Some("US"));
    assert_eq!(locale.get_variants(), vec!["valencia"]);
    assert!(locale.get_extensions().is_empty());
    assert_eq!(locale.to_string(), "en-Latn-US-valencia");
}

#[test]
fn from_parts_takes_extensions() {
    let extensions = ExtensionsMap::from_str("-u-ca-gregory").unwrap();
    let locale = Locale::from_parts(Some("fr"), None, Some("CA"), &[], Some(extensions)).unwrap();
    assert_eq!(locale.get_extensions().to_string(), "-u-ca-gregory");
    assert_eq!(locale.langid.to_string(), "fr-CA");
}

#[test]
fn from_parts_passes_on_the_errors() {
    assert_eq!(
        Locale::from_parts(Some("e"), None, None, &[], None).err(),
        Some(LocaleError::ParserError(ParserError::InvalidLanguage))
    );
    assert_eq!(
        Locale::from_parts(Some("en"), Some("x"), None, &[], None).err(),
        Some(LocaleError::ParserError(ParserError::InvalidSubtag))
    );
    assert_eq!(
        Locale::from_parts(Some("en"), None, Some("USA"), &[], None).err(),
        Some(LocaleError::ParserError(ParserError::InvalidSubtag))
    );
    assert_eq!(
        Locale::from_parts(Some("en"), None, None, &["x"], None).err(),
        Some(LocaleError::ParserError(ParserError::InvalidSubtag))
    );
    assert_eq!(
        Locale::from_parts(Some("en"), None, None, &["1\u{e9}a"], None).err(),
        Some(LocaleError::ParserError(ParserError::InvalidSubtag))
    );
}

#[test]
fn from_parts_without_subtags_is_undetermined() {
    let locale = Locale::from_parts(None, None, None, &[], None).unwrap();
    assert_eq!(locale, Locale::default());
}

#[test]
fn from_str_parses_identifier_and_extensions() {
    let locale = Locale::from_str("eN-latn-Us-Valencia-u-CA-Gregory").unwrap();
    assert_eq!(locale.get_language(), "en");
    assert_eq!(locale.get_script(), Some("Latn"));
    assert_eq!(locale.get_region(), Some("US"));
    assert_eq!(locale.get_variants(), vec!["valencia"]);
    assert_eq!(locale.get_extensions().to_string(), "-u-ca-gregory");
    assert_eq!(
        Locale::from_str("en-u-c!").err(),
        Some(LocaleError::ParserError(ParserError::InvalidExtension))
    );
    assert_eq!(
        Locale::from_str("x").err(),
        Some(LocaleError::ParserError(ParserError::InvalidLanguage))
    );
}

#[test]
fn locale_text_joins_identifier_and_extensions_with_a_hyphen() {
    let locale = Locale::from_str("en-US-u-ca-gregory").unwrap();
    assert_eq!(locale.to_string(), "en-US--u-ca-gregory");
    let plain = Locale::from_str("en-US").unwrap();
    assert_eq!(plain.to_string(), "en-US");
    let empty_section = Locale::from_str("en-US-u").unwrap();
    assert_eq!(empty_section.to_string(), "en-US");
}

#[test]
fn canonicalize_normalizes_case_and_separators() {
    assert_eq!(canonicalize("pL_latn_pl"), Ok("pl-Latn-PL".to_string()));
    assert_eq!(canonicalize("EN"), Ok("en".to_string()));
    assert_eq!(canonicalize("und"), Ok("und".to_string()));
    assert_eq!(canonicalize("en-x-Foo-t-H0-hybrid"), Ok("en--t-h0-hybrid-x-foo".to_string()));
}

#[test]
fn canonicalize_passes_on_the_errors() {
    assert_eq!(canonicalize("e"), Err(LocaleError::ParserError(ParserError::InvalidLanguage)));
    assert_eq!(
        canonicalize("en-u-c!"),
        Err(LocaleError::ParserError(ParserError::InvalidExtension))
    );
    assert_eq!(
        canonicalize("en-q-foo"),
        Err(LocaleError::ParserError(ParserError::UnsupportedExtension))
    );
    assert_eq!(canonicalize("en-"), Err(LocaleError::ParserError(ParserError::InvalidSubtag)));
}

#[test]
fn setters_change_one_subtag() {
    let mut locale = Locale::from_str("de-Latn-AT-u-ca-gregory").unwrap();
    assert_eq!(locale.set_language(Some("FR")), Ok(()));
    assert_eq!(locale.get_language(), "fr");
    assert_eq!(locale.set_script(Some("cyrl")), Ok(()));
    assert_eq!(locale.get_script(), Some("Cyrl"));
    assert_eq!(locale.set_region(Some("ca")), Ok(()));
    assert_eq!(locale.get_region(), Some("CA"));
    assert_eq!(locale.set_variants(&["valencia", "macos"]), Ok(()));
    assert_eq!(locale.get_variants(), vec!["macos", "valencia"]);
    assert_eq!(locale.langid.to_string(), "fr-Cyrl-CA-macos-valencia");
    assert_eq!(locale.get_extensions().to_string(), "-u-ca-gregory");
}

#[test]
fn setters_remove_subtags() {
    let mut locale = Locale::from_str("de-Latn-AT-valencia").unwrap();
    assert_eq!(locale.set_language(None), Ok(()));
    assert_eq!(locale.get_language(), "und");
    assert_eq!(locale.set_script(None), Ok(()));
    assert_eq!(locale.get_script(), None);
    assert_eq!(locale.set_region(None), Ok(()));
    assert_eq!(locale.get_region(), None);
    assert_eq!(locale.set_variants(&[]), Ok(()));
    assert!(locale.get_variants().is_empty());
    assert_eq!(locale, Locale::default());
}

#[test]
fn setters_keep_the_locale_on_an_error() {
    let mut locale = Locale::from_str("de-Latn-AT-valencia").unwrap();
    let before = locale.clone();
    assert_eq!(
        locale.set_language(Some("d")),
        Err(LocaleError::ParserError(ParserError::InvalidLanguage))
    );
    assert_eq!(
        locale.set_script(Some("Lat")),
        Err(LocaleError::ParserError(ParserError::InvalidSubtag))
    );
    assert_eq!(
        locale.set_region(Some("A")),
        Err(LocaleError::ParserError(ParserError::InvalidSubtag))
    );
    assert_eq!(
        locale.set_variants(&["valencia", "v"]),
        Err(LocaleError::ParserError(ParserError::InvalidSubtag))
    );
    assert_eq!(
        locale.set_variants(&["\u{e9}ab"]),
        Err(LocaleError::ParserError(ParserError::InvalidSubtag))
    );
    assert_eq!(locale, before);
}

#[test]
fn set_extension_sets_unicode_keywords() {
    let mut locale = Locale::from_parts(Some("en"), None, Some("US"), &[], None).unwrap();
    assert_eq!(locale.set_extension(ExtensionType::Unicode, "CA", Some("Buddhist")), Ok(()));
    assert_eq!(locale.set_extension(ExtensionType::Unicode, "nu", None), Ok(()));
    assert_eq!(locale.get_extensions().to_string(), "-u-ca-buddhist-nu");
    assert_eq!(locale.langid.to_string(), "en-US");
}

#[test]
fn set_extension_refuses_bad_keys_and_values() {
    let mut locale = Locale::default();
    assert_eq!(
        locale.set_extension(ExtensionType::Unicode, "c", Some("buddhist")),
        Err(LocaleError::ParserError(ParserError::InvalidExtension))
    );
    assert_eq!(
        locale.set_extension(ExtensionType::Unicode, "ca", Some("b")),
        Err(LocaleError::ParserError(ParserError::InvalidExtension))
    );
    assert!(locale.get_extensions().is_empty());
}

#[test]
fn set_extension_only_takes_the_unicode_type() {
    let mut locale = Locale::default();
    for extension in [ExtensionType::Transform, ExtensionType::Private, ExtensionType::Other('a')] {
        assert_eq!(
            locale.set_extension(extension, "h0", Some("hybrid")),
            Err(LocaleError::UnsupportedExtension)
        );
    }
    assert!(locale.get_extensions().is_empty());
}

#[test]
fn matches_goes_by_the_language_identifier() {
    let en = Locale::from_str("en").unwrap();
    let en_us = Locale::from_str("en-US").unwrap();
    assert!(!en.matches(&en_us, false, false));
    assert!(en.matches(&en_us, true, false));
    assert!(!en.matches(&en_us, false, true));
    assert!(en.matches(&en_us, true, true));
    assert!(en_us.matches(&en_us, false, false));
    let with_unicode = Locale::from_str("en-US-u-ca-gregory").unwrap();
    assert!(en_us.matches(&with_unicode, false, false));
}

#[test]
fn matches_is_false_with_a_private_extension() {
    let plain = Locale::from_str("en-US").unwrap();
    let private = Locale::from_str("en-US-x-secret").unwrap();
    for self_as_range in [false, true] {
        for other_as_range in [false, true] {
            assert!(!plain.matches(&private, self_as_range, other_as_range));
            assert!(!private.matches(&plain, self_as_range, other_as_range));
            assert!(!private.matches(&private, self_as_range, other_as_range));
        }
    }
}

#[test]
fn to_raw_parts_packs_the_subtags() {
    let locale = Locale::from_str("en-US-u-ca-gregory").unwrap();
    let (language, script, region, variants, extensions) = locale.to_raw_parts();
    let en = u64::from_le_bytes([b'e', b'n', 0, 0, 0, 0, 0, 0]);
    let us = u32::from_le_bytes([b'U', b'S', 0, 0]);
    assert_eq!(language, Some(en));
    assert_eq!(script, None);
    assert_eq!(region, Some(us));
    assert_eq!(variants, None);
    assert_eq!(extensions, "-u-ca-gregory");
}

#[test]
fn conversions_keep_the_language_identifier() {
    let langid: LanguageIdentifier = "en-US".parse().unwrap();
    let locale = Locale::from(langid.clone());
    assert!(locale.get_extensions().is_empty());
    assert_eq!(locale.as_ref(), &langid);
    let back: LanguageIdentifier = locale.into();
    assert_eq!(back, langid);
}

#[test]
fn clone_gives_an_equal_locale() {
    let locale = Locale::from_str("sr-Cyrl-RS-u-nu-latn-x-ab").unwrap();
    let copy = locale.clone();
    assert_eq!(copy, locale);
    assert_eq!(copy.to_string(), locale.to_string());
}

#[test]
fn with_extensions_builds_on_the_language_identifier() {
    let langid: LanguageIdentifier = "de-AT".parse().unwrap();
    let extensions = ExtensionsMap::from_str("-x-ab").unwrap();
    let locale = Locale::with_extensions(Ok(langid.clone()), Some(extensions)).unwrap();
    assert_eq!(locale.langid, langid);
    assert_eq!(locale.extensions.to_string(), "-x-ab");
    let locale = Locale::with_extensions(Ok(langid), None).unwrap();
    assert!(locale.extensions.is_empty());
    assert_eq!(
        Locale::with_extensions(Err(LocaleError::Unknown), None).err(),
        Some(LocaleError::Unknown)
    );
}

#[test]
fn variants_of_four_bytes_must_be_plain_ascii() {
    assert!(safe_variant(b"1996"));
    assert!(safe_variant(b"abcd"));
    assert!(safe_variant(b"valencia"));
    assert!(safe_variant("\u{e9}".as_bytes()));
    assert!(safe_variant("\u{e9}\u{e9}\u{e9}".as_bytes()));
    assert!(!safe_variant("1\u{e9}a".as_bytes()));
    assert!(!safe_variant("\u{e9}\u{e9}".as_bytes()));
    assert!(!safe_variant(b"ab\0c"));
    assert!(!safe_variant(&[b'a', b'b', b'c', 0x80]));
    assert!(safe_variant(&[b'a', b'b', b'c', 0x7f]));
    assert!(safe_variants(&["1996", "valencia"]));
    assert!(safe_variants(&[]));
    assert!(!safe_variants(&["1996", "\u{e9}ab"]));
    assert!(safe_text(b"en-US-1996"));
    assert!(safe_text("1\u{e9}a-US".as_bytes()));
    assert!(!safe_text("en-1\u{e9}a".as_bytes()));
    assert!(safe_text(b""));
}

#[test]
fn from_parts_raises_the_language_error_before_an_unsafe_variant() {
    assert_eq!(
        Locale::from_parts(Some("e"), None, None, &["1\u{e9}a"], None).err(),
        Some(LocaleError::ParserError(ParserError::InvalidLanguage))
    );
    assert_eq!(
        Locale::from_parts(Some("e"), None, None, &["1\0ab"], None).err(),
        Some(LocaleError::ParserError(ParserError::InvalidLanguage))
    );
    assert_eq!(
        Locale::from_parts(Some("en"), Some("L"), None, &["1\u{e9}a"], None).err(),
        Some(LocaleError::ParserError(ParserError::InvalidSubtag))
    );
    assert_eq!(
        Locale::from_parts(Some("en"), None, Some("USA"), &["\u{e9}ab"], None).err(),
        Some(LocaleError::ParserError(ParserError::InvalidSubtag))
    );
    assert_eq!(
        Locale::from_parts(Some("en"), Some("Latn"), Some("US"), &["1\u{e9}a"], None).err(),
        Some(LocaleError::ParserError(ParserError::InvalidSubtag))
    );
    assert_eq!(
        Locale::from_parts(None, None, None, &["valencia", "1\u{e9}a"], None).err(),
        Some(LocaleError::ParserError(ParserError::InvalidSubtag))
    );
}

#[test]
fn from_parts_agrees_with_the_setters() {
    let made =
        Locale::from_parts(Some("DE"), Some("latn"), Some("at"), &["Valencia", "1996"], None)
            .unwrap();
    let mut set = Locale::default();
    set.set_language(Some("DE")).unwrap();
    set.set_script(Some("latn")).unwrap();
    set.set_region(Some("at")).unwrap();
    set.set_variants(&["Valencia", "1996"]).unwrap();
    assert_eq!(made, set);
    assert_eq!(made.to_string(), "de-Latn-AT-1996-valencia");
}

#[test]
fn refused_passes_on_an_error_of_the_other_subtags() {
    assert_eq!(Locale::refused(Err(LocaleError::Unknown)), LocaleError::Unknown);
    assert_eq!(
        Locale::refused(Err(LocaleError::ParserError(ParserError::InvalidLanguage))),
        LocaleError::ParserError(ParserError::InvalidLanguage)
    );
    let langid: LanguageIdentifier = "en".parse().unwrap();
    assert_eq!(
        Locale::refused(Ok(langid)),
        LocaleError::ParserError(ParserError::InvalidSubtag)
    );
}

#[test]
fn conversion_traits_keep_the_language_identifier() {
    let langid: LanguageIdentifier = "sr-Cyrl".parse().unwrap();
    let locale: Locale = From::from(langid.clone());
    assert!(locale.get_extensions().is_empty());
    assert_eq!(locale.langid, langid);
    let seen: &LanguageIdentifier = AsRef::<LanguageIdentifier>::as_ref(&locale);
    assert_eq!(seen, &langid);
    let back: LanguageIdentifier = Into::<LanguageIdentifier>::into(locale);
    assert_eq!(back, langid);
    let again: Locale = langid.clone().into();
    assert_eq!(again.to_string(), "sr-Cyrl");
}
