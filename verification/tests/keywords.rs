use unic_locale_impl::extensions::private::PrivateExtensionList;
use unic_locale_impl::extensions::transform::TransformExtensionList;
use unic_locale_impl::extensions::unicode::{UnicodeExtensionKey, UnicodeExtensionList};
use unic_locale_impl::parser::errors::ParserError;
use unic_locale_impl::subtags::SubtagIterator;

#[test]
fn new_lists_are_empty() {
    let u = UnicodeExtensionList::new();
    assert!(u.is_empty());
    assert_eq!(u.len(), 0);
    assert_eq!(u.to_string(), "");
    let t = TransformExtensionList::new();
    assert!(t.is_empty());
    assert_eq!(t.to_string(), "");
    let x = PrivateExtensionList::new();
    assert!(x.is_empty());
    assert_eq!(x.len(), 0);
    assert_eq!(x.to_string(), "");
}

#[test]
fn set_stores_key_and_value_in_lowercase() {
    let mut u = UnicodeExtensionList::new();
    assert_eq!(u.set(b"CA", Some(b"Gregory")), Ok(()));
    assert!(!u.is_empty());
    assert_eq!(u.len(), 1);
    assert!(u.contains_key("ca"));
    assert!(!u.contains_key("CA"));
    assert_eq!(u.get("ca"), Some("gregory".to_string()));
    assert_eq!(u.to_string(), "-u-ca-gregory");
}

#[test]
fn set_without_a_value_records_the_key_alone() {
    let mut u = UnicodeExtensionList::new();
    assert_eq!(u.set(b"foo", None), Ok(()));
    assert!(u.contains_key("foo"));
    assert_eq!(u.get("foo"), None);
    assert_eq!(u.to_string(), "-u-foo");
}

#[test]
fn set_on_a_known_key_moves_it_to_the_end() {
    let mut u = UnicodeExtensionList::new();
    u.set(b"ca", Some(b"gregory")).unwrap();
    u.set(b"nu", Some(b"latn")).unwrap();
    u.set(b"hc", Some(b"h12")).unwrap();
    assert_eq!(u.to_string(), "-u-ca-gregory-nu-latn-hc-h12");
    u.set(b"ca", Some(b"buddhist")).unwrap();
    assert_eq!(u.len(), 3);
    assert_eq!(u.get("ca"), Some("buddhist".to_string()));
    assert_eq!(u.to_string(), "-u-nu-latn-hc-h12-ca-buddhist");
}

#[test]
fn set_refuses_malformed_subtags_and_keeps_the_list() {
    let mut u = UnicodeExtensionList::new();
    u.set(b"ca", Some(b"gregory")).unwrap();
    assert_eq!(u.set(b"c", Some(b"gregory")), Err(ParserError::InvalidExtension));
    assert_eq!(u.set(b"", None), Err(ParserError::InvalidExtension));
    assert_eq!(u.set(b"nu", Some(b"x")), Err(ParserError::InvalidExtension));
    assert_eq!(u.set(b"nu", Some(b"toolongvalue")), Err(ParserError::InvalidExtension));
    assert_eq!(u.set(b"n!", None), Err(ParserError::InvalidExtension));
    assert_eq!(u.to_string(), "-u-ca-gregory");
}

#[test]
fn transform_list_writes_its_own_singleton() {
    let mut t = TransformExtensionList::new();
    t.set(b"h0", Some(b"hybrid")).unwrap();
    assert_eq!(t.to_string(), "-t-h0-hybrid");
    let mut out = b"en".to_vec();
    t.write_section(&mut out);
    assert_eq!(out, b"en-t-h0-hybrid".to_vec());
}

#[test]
fn keyword_list_reads_one_section() {
    let mut iter = SubtagIterator::new(b"ca-gregory-nu-latn-foo-x-ab");
    let u = UnicodeExtensionList::try_from_iter(&mut iter).unwrap();
    assert_eq!(u.to_string(), "-u-ca-gregory-nu-latn-foo");
    assert_eq!(u.get("foo"), None);
    assert!(u.contains_key("foo"));
    assert_eq!(iter.next(), Some(&b"x"[..]));
}

#[test]
fn keyword_list_reads_an_empty_section() {
    let mut iter = SubtagIterator::new(b"x-ab");
    let u = UnicodeExtensionList::try_from_iter(&mut iter).unwrap();
    assert!(u.is_empty());
    assert_eq!(iter.next(), Some(&b"x"[..]));
}

#[test]
fn keyword_list_refuses_a_malformed_section() {
    let mut iter = SubtagIterator::new(b"ca-gregory--nu");
    assert_eq!(
        UnicodeExtensionList::try_from_iter(&mut iter).err(),
        Some(ParserError::InvalidExtension)
    );
}

#[test]
fn keyword_lists_clone_and_compare() {
    let mut u = UnicodeExtensionList::new();
    u.set(b"ca", Some(b"gregory")).unwrap();
    let v = u.clone();
    assert_eq!(u, v);
    u.set(b"nu", None).unwrap();
    assert_ne!(u, v);
}

#[test]
fn unicode_key_is_a_lowercase_subtag() {
    let key = UnicodeExtensionKey::from_str("CA").unwrap();
    assert_eq!(key.as_bytes(), b"ca");
    let key = UnicodeExtensionKey::from_bytes(b"Foo").unwrap();
    assert_eq!(key.as_bytes(), b"foo");
}

#[test]
fn unicode_key_refuses_malformed_text() {
    assert_eq!(UnicodeExtensionKey::from_str("").err(), Some(ParserError::InvalidExtension));
    assert_eq!(UnicodeExtensionKey::from_str("c").err(), Some(ParserError::InvalidExtension));
    assert_eq!(UnicodeExtensionKey::from_str("c-a").err(), Some(ParserError::InvalidExtension));
    assert_eq!(
        UnicodeExtensionKey::from_str("calendars").err(),
        Some(ParserError::InvalidExtension)
    );
    assert_eq!(UnicodeExtensionKey::from_str("\u{e9}").err(), Some(ParserError::InvalidExtension));
}

#[test]
fn private_list_keeps_tags_in_order() {
    let mut x = PrivateExtensionList::new();
    assert_eq!(x.set(b"Foo", Some(b"BAR")), Ok(()));
    assert_eq!(x.set(b"foo", None), Ok(()));
    assert_eq!(x.len(), 3);
    assert_eq!(x.get(0), Some("foo".to_string()));
    assert_eq!(x.get(1), Some("bar".to_string()));
    assert_eq!(x.get(2), Some("foo".to_string()));
    assert_eq!(x.get(3), None);
    assert_eq!(x.to_string(), "-x-foo-bar-foo");
}

#[test]
fn private_list_refuses_malformed_tags_and_keeps_the_list() {
    let mut x = PrivateExtensionList::new();
    x.set(b"ab", None).unwrap();
    assert_eq!(x.set(b"cd", Some(b"e")), Err(ParserError::InvalidExtension));
    assert_eq!(x.set(b"c", None), Err(ParserError::InvalidExtension));
    assert_eq!(x.to_string(), "-x-ab");
}

#[test]
fn private_list_reads_one_section() {
    let mut iter = SubtagIterator::new(b"Ab-cd-ef-u-ca");
    let x = PrivateExtensionList::try_from_iter(&mut iter).unwrap();
    assert_eq!(x.to_string(), "-x-ab-cd-ef");
    assert_eq!(iter.next(), Some(&b"u"[..]));
    let mut bad = SubtagIterator::new(b"ab-c!");
    assert_eq!(
        PrivateExtensionList::try_from_iter(&mut bad).err(),
        Some(ParserError::InvalidExtension)
    );
    let y = x.clone();
    assert_eq!(x, y);
}

#[test]
fn unicode_keys_clone_and_compare() {
    let key = UnicodeExtensionKey::from_str("Ca").unwrap();
    let copy = key.clone();
    assert_eq!(key, copy);
    assert_eq!(copy.as_bytes(), b"ca");
}

#[test]
fn lists_recall_their_invariant_without_effect() {
    let mut u = UnicodeExtensionList::new();
    u.set(b"ca", Some(b"gregory")).unwrap();
    u.well_formedness();
    assert_eq!(u.to_string(), "-u-ca-gregory");
    let mut x = PrivateExtensionList::new();
    x.set(b"ab", None).unwrap();
    x.well_formedness();
    assert_eq!(x.to_string(), "-x-ab");
}
