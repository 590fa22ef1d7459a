//! Canonical maps of extensions: those that their text determines.

use tinystr::TinyStr8;
use vstd::prelude::*;

use crate::extensions::keywords::{
    all_values, canonical_subtags, keyword_tokens, keywords_tokens,
    lemma_canonical_subtags_part, lemma_keywords_tokens_shape, lemma_parse_keywords_shape,
    lemma_parse_keywords_tokens, parse_keywords, values_before_last, well_formed, KeywordView,
};
use crate::extensions::private::{
    canonical_tags, lemma_parse_tags_shape, lemma_parse_tags_tokens, lemma_tags_shape,
    parse_tags, PRIVATE_SINGLETON,
};
use crate::extensions::transform::TRANSFORM_SINGLETON;
use crate::extensions::unicode::UNICODE_SINGLETON;
use crate::extensions::{
    extension_type_of, parse_extensions, parse_sections, ExtensionType, ExtensionsMapView,
};
use crate::parser::errors::ParserError;
use crate::subtags::{
    after_section, all_separator_free, ascii_lower, hyphenated, is_canonical_subtag,
    is_lower_alphanumeric, is_lowercase, is_separator, is_singleton, lemma_after_section,
    lemma_hyphenated_add, lemma_hyphenated_lowercase, lemma_section_len_bound,
    lemma_split_hyphenated, separator_free, split,
};

verus! {

/// The subtags of an extension section: none if the section holds no subtag,
/// else the singleton and the subtags.
pub open spec fn section_tokens(singleton: u8, tokens: Seq<Seq<u8>>) -> Seq<Seq<u8>> {
    if tokens.len() == 0 {
        Seq::empty()
    } else {
        seq![seq![singleton]] + tokens
    }
}

impl ExtensionsMapView {
    /// Is the map one that its text determines?
    ///
    /// It is when its keywords and tags are canonical subtags, no key occurs
    /// twice in a section, only the last keyword of a section is without a
    /// value, and there are no `other` extensions. Every map that was read from
    /// text is canonical.
    pub open spec fn is_canonical(self) -> bool {
        &&& well_formed(self.transform)
        &&& values_before_last(self.transform)
        &&& well_formed(self.unicode)
        &&& values_before_last(self.unicode)
        &&& canonical_tags(self.private)
        &&& self.other == Map::<char, Vec<TinyStr8>>::empty()
    }

    /// The subtags of the text of the map, section by section.
    pub open spec fn tokens(self) -> Seq<Seq<u8>> {
        section_tokens(TRANSFORM_SINGLETON, keywords_tokens(self.transform)) + section_tokens(
            UNICODE_SINGLETON,
            keywords_tokens(self.unicode),
        ) + section_tokens(PRIVATE_SINGLETON, self.private)
    }
}

/// Is `text` the text of a canonical map? These are the texts in canonical
/// form, as `form::is_canonical_form` spells it out.
pub open spec fn is_canonical_text(text: Seq<u8>) -> bool {
    exists|m: ExtensionsMapView| m.is_canonical() && #[trigger] m.text() == text
}

/// Reading the text of a canonical map gives the map back.
pub proof fn lemma_parse_text(m: ExtensionsMapView)
    requires
        m.is_canonical(),
    ensures
        parse_extensions(m.text()) == Ok::<ExtensionsMapView, ParserError>(m),
{
    let t = section_tokens(TRANSFORM_SINGLETON, keywords_tokens(m.transform));
    let u = section_tokens(UNICODE_SINGLETON, keywords_tokens(m.unicode));
    let x = section_tokens(PRIVATE_SINGLETON, m.private);
    let none = Seq::<Seq<u8>>::empty();
    lemma_keywords_tokens_shape(m.transform);
    lemma_keywords_tokens_shape(m.unicode);
    lemma_tags_shape(m.private);
    lemma_section_tokens_shape(TRANSFORM_SINGLETON, keywords_tokens(m.transform));
    lemma_section_tokens_shape(UNICODE_SINGLETON, keywords_tokens(m.unicode));
    lemma_section_tokens_shape(PRIVATE_SINGLETON, m.private);
    // the text splits into an empty subtag and the subtags of the map
    lemma_text_of_tokens(m);
    lemma_tokens_shape(m);
    lemma_split_hyphenated(m.tokens());
    let all = seq![Seq::<u8>::empty()] + m.tokens();
    assert(all.drop_first() =~= m.tokens());
    let acc0 = ExtensionsMapView::empty();
    assert(parse_extensions(m.text()) == parse_sections(m.tokens(), acc0));
    // the transform section
    let acc1 = ExtensionsMapView { transform: m.transform, ..acc0 };
    assert(u + x == none || is_singleton((u + x)[0])) by {
        if u.len() > 0 {
            assert((u + x)[0] == u[0]);
        } else if x.len() > 0 {
            assert((u + x)[0] == x[0]);
        } else {
            assert(u + x =~= none);
        }
    }
    assert(m.tokens() =~= t + (u + x));
    if m.transform.len() > 0 {
        lemma_parse_keyword_section(TRANSFORM_SINGLETON, m.transform, u + x, acc0);
    } else {
        assert(t + (u + x) =~= u + x);
        assert(m.transform =~= acc0.transform);
    }
    assert(parse_sections(m.tokens(), acc0) == parse_sections(u + x, acc1));
    // the Unicode section
    let acc2 = ExtensionsMapView { unicode: m.unicode, ..acc1 };
    assert(x.len() == 0 || is_singleton(x[0]));
    if m.unicode.len() > 0 {
        lemma_parse_keyword_section(UNICODE_SINGLETON, m.unicode, x, acc1);
    } else {
        assert(u + x =~= x);
        assert(m.unicode =~= acc1.unicode);
    }
    assert(parse_sections(u + x, acc1) == parse_sections(x, acc2));
    // the private use section
    let acc3 = ExtensionsMapView { private: m.private, ..acc2 };
    if m.private.len() > 0 {
        assert(x + none =~= x);
        lemma_parse_private_section(m.private, none, acc2);
    } else {
        assert(m.private =~= acc2.private);
    }
    assert(parse_sections(x, acc2) == parse_sections(none, acc3));
    assert(acc3 == m);
}

/// Every map that is read from text is canonical.
pub proof fn lemma_parsed_is_canonical(text: Seq<u8>)
    ensures
        parse_extensions(text) matches Ok(m) ==> m.is_canonical(),
{
    lemma_parse_sections_canonical(split(text), ExtensionsMapView::empty());
}

/// Canonicalization is idempotent: the text of a map that was read from a
/// text, in whatever case and order of sections, is read into the same map.
pub proof fn lemma_canonicalization_idempotent(text: Seq<u8>)
    requires
        parse_extensions(text) is Ok,
    ensures
        parse_extensions(parse_extensions(text).unwrap().text()) == parse_extensions(text),
        is_canonical_text(parse_extensions(text).unwrap().text()),
{
    lemma_parsed_is_canonical(text);
    lemma_parse_text(parse_extensions(text).unwrap());
}

/// The canonical texts are the texts that reading and writing back leaves
/// as they are.
pub proof fn lemma_canonical_text_unchanged(text: Seq<u8>)
    ensures
        is_canonical_text(text) <==> (parse_extensions(text) matches Ok(m) && m.text() == text),
{
    if is_canonical_text(text) {
        let m = choose|m: ExtensionsMapView| m.is_canonical() && #[trigger] m.text() == text;
        lemma_parse_text(m);
    }
    if parse_extensions(text) matches Ok(m) && m.text() == text {
        lemma_parsed_is_canonical(text);
        assert(parse_extensions(text).unwrap().text() == text);
    }
}

/// The text of a map of canonical subtags is in lowercase.
pub proof fn lemma_text_lowercase(m: ExtensionsMapView)
    requires
        canonical_subtags(m.transform),
        canonical_subtags(m.unicode),
        canonical_tags(m.private),
    ensures
        is_lowercase(m.text()),
{
    lemma_text_of_tokens(m);
    let t = section_tokens(TRANSFORM_SINGLETON, keywords_tokens(m.transform));
    let u = section_tokens(UNICODE_SINGLETON, keywords_tokens(m.unicode));
    let x = section_tokens(PRIVATE_SINGLETON, m.private);
    lemma_keywords_tokens_canonical(m.transform);
    lemma_keywords_tokens_canonical(m.unicode);
    lemma_section_lowercase(TRANSFORM_SINGLETON, keywords_tokens(m.transform));
    lemma_section_lowercase(UNICODE_SINGLETON, keywords_tokens(m.unicode));
    lemma_section_lowercase(PRIVATE_SINGLETON, m.private);
    assert forall|i: int| 0 <= i < m.tokens().len() implies is_lowercase(
        #[trigger] m.tokens()[i],
    ) by {
        if i < t.len() {
            assert(m.tokens()[i] == t[i]);
        } else if i < t.len() + u.len() {
            assert(m.tokens()[i] == u[i - t.len()]);
        } else {
            assert(m.tokens()[i] == x[i - t.len() - u.len()]);
        }
    }
    lemma_hyphenated_lowercase(m.tokens());
}

/// The subtags of a section of canonical subtags are in lowercase.
proof fn lemma_section_lowercase(singleton: u8, tokens: Seq<Seq<u8>>)
    requires
        canonical_tags(tokens),
        ascii_lower(singleton) == singleton,
    ensures
        forall|i: int|
            0 <= i < section_tokens(singleton, tokens).len() ==> is_lowercase(
                #[trigger] section_tokens(singleton, tokens)[i],
            ),
{
    let s = section_tokens(singleton, tokens);
    assert forall|i: int| 0 <= i < s.len() implies is_lowercase(#[trigger] s[i]) by {
        if i > 0 {
            assert(s[i] == tokens[i - 1]);
            assert(is_canonical_subtag(tokens[i - 1]));
            assert forall|j: int| 0 <= j < s[i].len() implies ascii_lower(#[trigger] s[i][j])
                == s[i][j] by {
                assert(is_lower_alphanumeric(tokens[i - 1][j]));
            }
        }
    }
}

/// The subtags of canonical keywords are canonical.
pub proof fn lemma_keywords_tokens_canonical(e: Seq<KeywordView>)
    requires
        canonical_subtags(e),
    ensures
        canonical_tags(keywords_tokens(e)),
    decreases e.len(),
{
    if e.len() > 0 {
        let d = e.drop_last();
        lemma_canonical_subtags_part(e, 0, e.len() - 1);
        lemma_keywords_tokens_canonical(d);
        let k = e.last();
        assert(is_canonical_subtag(e[e.len() - 1].key));
        let all = keywords_tokens(e);
        let head = keywords_tokens(d);
        assert forall|i: int| 0 <= i < all.len() implies is_canonical_subtag(#[trigger] all[i]) by {
            if i < head.len() {
                assert(all[i] == head[i]);
            } else {
                assert(all[i] == keyword_tokens(k)[i - head.len()]);
            }
        }
    }
}

/// The text of a map is empty exactly when the map holds no Unicode,
/// transform or private use extension.
pub proof fn lemma_text_empty(m: ExtensionsMapView)
    ensures
        m.text().len() == 0 <==> (m.unicode.len() == 0 && m.transform.len() == 0
            && m.private.len() == 0),
{
    let none = Seq::<KeywordView>::empty();
    assert(keywords_tokens(none) =~= Seq::<Seq<u8>>::empty());
    lemma_keywords_tokens_len(m.transform);
    lemma_keywords_tokens_len(m.unicode);
    if m.transform.len() == 0 {
        assert(m.transform =~= none);
    }
    if m.unicode.len() == 0 {
        assert(m.unicode =~= none);
    }
}

/// The text of a map is the text of its subtags.
pub proof fn lemma_text_of_tokens(m: ExtensionsMapView)
    ensures
        m.text() == hyphenated(m.tokens()),
{
    let t = section_tokens(TRANSFORM_SINGLETON, keywords_tokens(m.transform));
    let u = section_tokens(UNICODE_SINGLETON, keywords_tokens(m.unicode));
    let x = section_tokens(PRIVATE_SINGLETON, m.private);
    lemma_hyphenated_add(t, u);
    lemma_hyphenated_add(t + u, x);
}

/// The subtags of a canonical map hold no separator.
pub proof fn lemma_tokens_shape(m: ExtensionsMapView)
    requires
        m.is_canonical(),
    ensures
        all_separator_free(m.tokens()),
{
    let t = section_tokens(TRANSFORM_SINGLETON, keywords_tokens(m.transform));
    let u = section_tokens(UNICODE_SINGLETON, keywords_tokens(m.unicode));
    let x = section_tokens(PRIVATE_SINGLETON, m.private);
    lemma_keywords_tokens_shape(m.transform);
    lemma_keywords_tokens_shape(m.unicode);
    lemma_tags_shape(m.private);
    lemma_section_tokens_shape(TRANSFORM_SINGLETON, keywords_tokens(m.transform));
    lemma_section_tokens_shape(UNICODE_SINGLETON, keywords_tokens(m.unicode));
    lemma_section_tokens_shape(PRIVATE_SINGLETON, m.private);
    assert forall|i: int| 0 <= i < m.tokens().len() implies separator_free(
        #[trigger] m.tokens()[i],
    ) by {
        if i < t.len() {
            assert(m.tokens()[i] == t[i]);
        } else if i < t.len() + u.len() {
            assert(m.tokens()[i] == u[i - t.len()]);
        } else {
            assert(m.tokens()[i] == x[i - t.len() - u.len()]);
        }
    }
}

/// Keywords are written as at least as many subtags.
proof fn lemma_keywords_tokens_len(e: Seq<KeywordView>)
    ensures
        keywords_tokens(e).len() >= e.len(),
    decreases e.len(),
{
    if e.len() > 0 {
        lemma_keywords_tokens_len(e.drop_last());
    }
}

/// The subtags of a section hold no separator, and follow a singleton.
proof fn lemma_section_tokens_shape(singleton: u8, tokens: Seq<Seq<u8>>)
    requires
        all_separator_free(tokens),
        !is_separator(singleton),
    ensures
        all_separator_free(section_tokens(singleton, tokens)),
        section_tokens(singleton, tokens).len() == 0 || is_singleton(
            section_tokens(singleton, tokens)[0],
        ),
{
    let s = section_tokens(singleton, tokens);
    assert forall|i: int| 0 <= i < s.len() implies separator_free(#[trigger] s[i]) by {
        if i > 0 {
            assert(s[i] == tokens[i - 1]);
        }
    }
}

/// Reading a section of keywords puts the keywords in the place of those
/// that the map held for the section's type.
proof fn lemma_parse_keyword_section(
    singleton: u8,
    e: Seq<KeywordView>,
    rest: Seq<Seq<u8>>,
    acc: ExtensionsMapView,
)
    requires
        singleton == TRANSFORM_SINGLETON || singleton == UNICODE_SINGLETON,
        well_formed(e),
        values_before_last(e),
        e.len() > 0,
        rest.len() == 0 || is_singleton(rest[0]),
    ensures
        parse_sections(section_tokens(singleton, keywords_tokens(e)) + rest, acc) == parse_sections(
            rest,
            if singleton == UNICODE_SINGLETON {
                ExtensionsMapView { unicode: e, ..acc }
            } else {
                ExtensionsMapView { transform: e, ..acc }
            },
        ),
{
    let inner = keywords_tokens(e);
    lemma_keywords_tokens_shape(e);
    let tokens = section_tokens(singleton, inner) + rest;
    assert(tokens[0] == seq![singleton]);
    assert(tokens.drop_first() =~= inner + rest);
    assert(Seq::<KeywordView>::empty() + e =~= e);
    lemma_parse_keywords_tokens(e, Seq::empty(), rest);
    lemma_after_section(inner, rest);
    lemma_section_len_bound(inner + rest);
    assert(extension_type_of(singleton) == Some(
        if singleton == UNICODE_SINGLETON {
            ExtensionType::Unicode
        } else {
            ExtensionType::Transform
        },
    ));
}

/// Reading a section of tags puts the tags in the place of those that the
/// map held.
proof fn lemma_parse_private_section(
    tags: Seq<Seq<u8>>,
    rest: Seq<Seq<u8>>,
    acc: ExtensionsMapView,
)
    requires
        canonical_tags(tags),
        tags.len() > 0,
        rest.len() == 0 || is_singleton(rest[0]),
    ensures
        parse_sections(section_tokens(PRIVATE_SINGLETON, tags) + rest, acc) == parse_sections(
            rest,
            ExtensionsMapView { private: tags, ..acc },
        ),
{
    lemma_tags_shape(tags);
    let tokens = section_tokens(PRIVATE_SINGLETON, tags) + rest;
    assert(tokens[0] == seq![PRIVATE_SINGLETON]);
    assert(tokens.drop_first() =~= tags + rest);
    assert(Seq::<Seq<u8>>::empty() + tags =~= tags);
    lemma_parse_tags_tokens(tags, Seq::empty(), rest);
    lemma_after_section(tags, rest);
    lemma_section_len_bound(tags + rest);
    assert(extension_type_of(PRIVATE_SINGLETON) == Some(ExtensionType::Private));
}

/// A map that was read from subtags into a canonical map is canonical.
pub proof fn lemma_parse_sections_canonical(tokens: Seq<Seq<u8>>, acc: ExtensionsMapView)
    requires
        acc.is_canonical(),
    ensures
        parse_sections(tokens, acc) matches Ok(m) ==> m.is_canonical(),
    decreases tokens.len(),
{
    if tokens.len() > 0 {
        let rest = tokens.drop_first();
        lemma_section_len_bound(rest);
        let none = Seq::<KeywordView>::empty();
        assert(well_formed(none) && all_values(none));
        lemma_parse_keywords_shape(rest, none);
        lemma_parse_tags_shape(rest, Seq::empty());
        if tokens[0].len() == 0 {
            lemma_parse_sections_canonical(rest, acc);
        } else if is_singleton(tokens[0]) {
            match extension_type_of(tokens[0][0]) {
                Some(ExtensionType::Unicode) => {
                    if let Some(e) = parse_keywords(rest, none) {
                        lemma_parse_sections_canonical(
                            after_section(rest),
                            ExtensionsMapView { unicode: e, ..acc },
                        );
                    }
                },
                Some(ExtensionType::Transform) => {
                    if let Some(e) = parse_keywords(rest, none) {
                        lemma_parse_sections_canonical(
                            after_section(rest),
                            ExtensionsMapView { transform: e, ..acc },
                        );
                    }
                },
                Some(ExtensionType::Private) => {
                    if let Some(tags) = parse_tags(rest, Seq::empty()) {
                        lemma_parse_sections_canonical(
                            after_section(rest),
                            ExtensionsMapView { private: tags, ..acc },
                        );
                    }
                },
                _ => {},
            }
        }
    }
}

} // verus!
