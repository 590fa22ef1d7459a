use unic_locale_impl::subtags::{
    ascii_string, bytes_eq, normalize_subtag, push_subtag, to_ascii_lower, SubtagIterator,
};

fn collect(bytes: &[u8]) -> Vec<Vec<u8>> {
    let mut iter = SubtagIterator::new(bytes);
    let mut out = Vec::new();
    while let Some(t) = iter.next() {
        out.push(t.to_vec());
    }
    out
}

#[test]
fn iterator_splits_on_hyphens_and_underscores() {
    assert_eq!(collect(b"u-ca_gregory"), vec![b"u".to_vec(), b"ca".to_vec(), b"gregory".to_vec()]);
}

#[test]
fn iterator_keeps_empty_subtags() {
    assert_eq!(collect(b""), vec![b"".to_vec()]);
    assert_eq!(collect(b"-"), vec![b"".to_vec(), b"".to_vec()]);
    assert_eq!(collect(b"-u"), vec![b"".to_vec(), b"u".to_vec()]);
    assert_eq!(collect(b"u-"), vec![b"u".to_vec(), b"".to_vec()]);
    assert_eq!(collect(b"a--b"), vec![b"a".to_vec(), b"".to_vec(), b"b".to_vec()]);
}

#[test]
fn iterator_has_one_subtag_more_than_separators() {
    for text in ["", "a", "a-b", "-_-", "x-y_z-", "--u-ca"] {
        let separators = text.bytes().filter(|b| *b == b'-' || *b == b'_').count();
        assert_eq!(collect(text.as_bytes()).len(), separators + 1);
    }
}

#[test]
fn peek_leaves_the_subtag_in_place() {
    let mut iter = SubtagIterator::new(b"u-ca");
    assert_eq!(iter.peek(), Some(&b"u"[..]));
    assert_eq!(iter.peek(), Some(&b"u"[..]));
    assert_eq!(iter.next(), Some(&b"u"[..]));
    assert_eq!(iter.peek(), Some(&b"ca"[..]));
    assert_eq!(iter.next(), Some(&b"ca"[..]));
    assert_eq!(iter.peek(), None);
    assert_eq!(iter.next(), None);
    assert_eq!(iter.next(), None);
}

#[test]
fn section_ends_at_a_singleton_or_at_the_end() {
    let mut iter = SubtagIterator::new(b"ca-gregory-x-ab");
    assert!(!iter.at_section_end());
    iter.next();
    assert!(!iter.at_section_end());
    iter.next();
    assert!(iter.at_section_end());
    iter.next();
    assert!(!iter.at_section_end());
    iter.next();
    assert!(iter.at_section_end());
}

#[test]
fn normalize_subtag_lowercases_well_formed_subtags() {
    assert_eq!(normalize_subtag(b"ca"), Some(b"ca".to_vec()));
    assert_eq!(normalize_subtag(b"GreGory"), Some(b"gregory".to_vec()));
    assert_eq!(normalize_subtag(b"H12"), Some(b"h12".to_vec()));
    assert_eq!(normalize_subtag(b"abcdefgh"), Some(b"abcdefgh".to_vec()));
    assert_eq!(normalize_subtag(b"12"), Some(b"12".to_vec()));
}

#[test]
fn normalize_subtag_refuses_bad_lengths_and_bytes() {
    assert_eq!(normalize_subtag(b""), None);
    assert_eq!(normalize_subtag(b"a"), None);
    assert_eq!(normalize_subtag(b"abcdefghi"), None);
    assert_eq!(normalize_subtag(b"a b"), None);
    assert_eq!(normalize_subtag(b"a-b"), None);
    assert_eq!(normalize_subtag(b"a_b"), None);
    assert_eq!(normalize_subtag("\u{e9}t".as_bytes()), None);
    assert_eq!(normalize_subtag(b"ab\0"), None);
    assert_eq!(normalize_subtag(b"a@"), None);
    assert_eq!(normalize_subtag(b"a["), None);
    assert_eq!(normalize_subtag(b"a`"), None);
    assert_eq!(normalize_subtag(b"a{"), None);
}

#[test]
fn to_ascii_lower_moves_only_capital_letters() {
    assert_eq!(to_ascii_lower(b'A'), b'a');
    assert_eq!(to_ascii_lower(b'Z'), b'z');
    assert_eq!(to_ascii_lower(b'a'), b'a');
    assert_eq!(to_ascii_lower(b'@'), b'@');
    assert_eq!(to_ascii_lower(b'['), b'[');
    assert_eq!(to_ascii_lower(b'5'), b'5');
    assert_eq!(to_ascii_lower(0xc9), 0xc9);
    for byte in 0..=255u8 {
        assert_eq!(to_ascii_lower(byte), byte.to_ascii_lowercase());
    }
}

#[test]
fn bytes_eq_compares_contents() {
    assert!(bytes_eq(b"", b""));
    assert!(bytes_eq(b"ca", b"ca"));
    assert!(!bytes_eq(b"ca", b"cb"));
    assert!(!bytes_eq(b"ca", b"cab"));
    assert!(!bytes_eq(b"ca", b"CA"));
}

#[test]
fn push_subtag_appends_hyphen_and_subtag() {
    let mut out = b"-u".to_vec();
    push_subtag(&mut out, b"ca");
    assert_eq!(out, b"-u-ca".to_vec());
    push_subtag(&mut out, b"");
    assert_eq!(out, b"-u-ca-".to_vec());
}

#[test]
fn ascii_string_spells_the_bytes() {
    assert_eq!(ascii_string(b""), "");
    assert_eq!(ascii_string(b"-u-ca-gregory"), "-u-ca-gregory");
}
