//! The canonical form of the text of extensions, subtag by subtag.

use vstd::prelude::*;

use crate::extensions::canonical::{
    is_canonical_text, lemma_canonical_text_unchanged, lemma_keywords_tokens_canonical,
    lemma_parsed_is_canonical, lemma_text_of_tokens, lemma_tokens_shape, section_tokens,
};
use crate::extensions::keywords::{
    canonical_subtags, distinct_keys, keyword_tokens, keywords_tokens,
    lemma_canonical_subtags_add, lemma_keywords_tokens_add, lemma_keywords_tokens_shape,
    lemma_parse_keywords_tokens, lemma_values_before_last_tail, parse_keywords,
    values_before_last, KeywordView,
};
use crate::extensions::private::{
    canonical_tags, lemma_canonical_tags_part, lemma_parse_tags_tokens, lemma_tags_shape,
    parse_tags, PRIVATE_SINGLETON,
};
use crate::extensions::transform::TRANSFORM_SINGLETON;
use crate::extensions::unicode::UNICODE_SINGLETON;
use crate::extensions::{
    extension_type_of, parse_extensions, parse_sections, ExtensionType, ExtensionsMapView,
};
use crate::parser::errors::ParserError;
use crate::subtags::{
    after_section, all_separator_free, first_len, hyphenated, is_canonical_subtag,
    is_separator, is_singleton, lemma_after_section, lemma_first_len, lemma_first_len_bounds,
    lemma_hyphenated_add, lemma_hyphenated_one, lemma_section_len_bound,
    lemma_separator_free_part, lemma_split_hyphenated, section_len, separator_free, split,
    HYPHEN, UNDERSCORE,
};

verus! {

/// The keywords that subtags spell when they are taken in pairs of a key and
/// its value; a subtag that is left over is a key without a value.
pub open spec fn paired(tokens: Seq<Seq<u8>>) -> Seq<KeywordView>
    decreases tokens.len(),
{
    if tokens.len() == 0 {
        Seq::empty()
    } else if tokens.len() == 1 {
        seq![KeywordView { key: tokens[0], value: None }]
    } else {
        seq![KeywordView { key: tokens[0], value: Some(tokens[1]) }] + paired(tokens.skip(2))
    }
}

/// The place of a section in canonical text, by its singleton: transform
/// first, then Unicode, then private use. Other bytes open no section there.
pub open spec fn section_place(singleton: u8) -> Option<int> {
    if singleton == TRANSFORM_SINGLETON {
        Some(0)
    } else if singleton == UNICODE_SINGLETON {
        Some(1)
    } else if singleton == PRIVATE_SINGLETON {
        Some(2)
    } else {
        None
    }
}

/// Are `tokens` sections in canonical form, none of them at a place before
/// `from`?
///
/// Each section is opened by one of the singletons `t`, `u` and `x` in
/// lowercase and holds at least one subtag; its subtags are canonical; in a
/// section of keywords no key occurs twice; and the sections stand in the
/// order of their places, each at most once.
pub open spec fn canonical_sections(tokens: Seq<Seq<u8>>, from: int) -> bool
    decreases tokens.len(),
{
    if tokens.len() == 0 {
        true
    } else {
        let body = tokens.drop_first();
        let n = section_len(body) as int;
        proof {
            lemma_section_len_bound(body);
        }
        &&& is_singleton(tokens[0])
        &&& section_place(tokens[0][0]) matches Some(place)
        &&& place >= from
        &&& n > 0
        &&& canonical_tags(body.take(n))
        &&& tokens[0][0] != PRIVATE_SINGLETON ==> distinct_keys(paired(body.take(n)))
        &&& canonical_sections(body.skip(n), place + 1)
    }
}

/// Is `text` the text of extensions in canonical form?
///
/// The empty text is. Any other text begins with a hyphen, has no other
/// separator than the hyphen, and its subtags are sections in canonical form:
/// in lowercase, in the order `t`, `u`, `x`, without a section or a key that
/// occurs twice, and without a section that is empty.
pub open spec fn is_canonical_form(text: Seq<u8>) -> bool {
    text.len() == 0 || {
        &&& text[0] == HYPHEN
        &&& forall|i: int| 0 <= i < text.len() ==> #[trigger] text[i] != UNDERSCORE
        &&& canonical_sections(split(text).drop_first(), 0)
    }
}

/// Round trip: a text in canonical form is read into a map that is written
/// as the same text.
pub proof fn lemma_round_trip(text: Seq<u8>)
    requires
        is_canonical_form(text),
    ensures
        parse_extensions(text) matches Ok(m) && m.text() == text,
{
    let tokens = split(text);
    let start = ExtensionsMapView::empty();
    if text.len() == 0 {
        assert(tokens =~= seq![text]);
        reveal_with_fuel(parse_sections, 2);
        assert(parse_extensions(text) == Ok::<ExtensionsMapView, ParserError>(start));
        lemma_text_of_tokens(start);
        assert(keywords_tokens(Seq::<KeywordView>::empty()) =~= Seq::<Seq<u8>>::empty());
        assert(start.tokens() =~= Seq::<Seq<u8>>::empty());
    } else {
        lemma_hyphenated_split(text);
        lemma_first_len(text, 0);
        let body = tokens.drop_first();
        assert(tokens[0] =~= Seq::<u8>::empty());
        lemma_parse_canonical_sections(body, 0, start);
        let m = parse_sections(body, start).unwrap();
        assert(parse_extensions(text) == Ok::<ExtensionsMapView, ParserError>(m));
        lemma_text_of_tokens(m);
        assert(m.tokens() =~= tokens_from(m, 0));
        assert(tokens[0] + hyphenated(body) =~= hyphenated(body));
    }
}

/// The text of a canonical map is in canonical form.
pub proof fn lemma_text_in_canonical_form(m: ExtensionsMapView)
    requires
        m.is_canonical(),
    ensures
        is_canonical_form(m.text()),
{
    lemma_text_of_tokens(m);
    lemma_tokens_shape(m);
    lemma_hyphenated_bytes(m.tokens());
    lemma_split_hyphenated(m.tokens());
    lemma_sections_of_map(m, 0);
    assert(m.tokens() =~= tokens_from(m, 0));
    let tokens = split(m.text());
    assert(tokens.drop_first() =~= m.tokens());
    if m.tokens().len() == 0 {
        assert(hyphenated(m.tokens()) =~= Seq::<u8>::empty());
    }
}

/// The texts in canonical form are the texts of the canonical maps, and
/// these are the texts that reading and writing back leaves as they are.
pub proof fn lemma_canonical_form_is_canonical_text(text: Seq<u8>)
    ensures
        is_canonical_form(text) <==> is_canonical_text(text),
        is_canonical_form(text) <==> (parse_extensions(text) matches Ok(m) && m.text() == text),
{
    lemma_canonical_text_unchanged(text);
    if is_canonical_form(text) {
        lemma_round_trip(text);
    }
    if is_canonical_text(text) {
        let m = choose|m: ExtensionsMapView| m.is_canonical() && #[trigger] m.text() == text;
        lemma_text_in_canonical_form(m);
    }
}

/// Whatever text is read, the text that is written back is in canonical
/// form.
pub proof fn lemma_written_in_canonical_form(text: Seq<u8>)
    requires
        parse_extensions(text) is Ok,
    ensures
        is_canonical_form(parse_extensions(text).unwrap().text()),
{
    lemma_parsed_is_canonical(text);
    lemma_text_in_canonical_form(parse_extensions(text).unwrap());
}

/// A text whose separators are hyphens is its first subtag followed by the
/// other subtags, each behind a hyphen.
pub proof fn lemma_hyphenated_split(text: Seq<u8>)
    requires
        forall|i: int| 0 <= i < text.len() ==> #[trigger] text[i] != UNDERSCORE,
    ensures
        split(text).len() > 0,
        text == split(text)[0] + hyphenated(split(text).drop_first()),
    decreases text.len(),
{
    let n = first_len(text) as int;
    lemma_first_len_bounds(text);
    if n >= text.len() {
        assert(split(text).drop_first() =~= Seq::<Seq<u8>>::empty());
        assert(text + hyphenated(Seq::<Seq<u8>>::empty()) =~= text);
    } else {
        let rest = text.subrange(n + 1, text.len() as int);
        assert forall|i: int| 0 <= i < rest.len() implies #[trigger] rest[i] != UNDERSCORE by {
            assert(rest[i] == text[n + 1 + i]);
        }
        lemma_hyphenated_split(rest);
        let others = split(rest);
        assert(split(text).drop_first() =~= others);
        assert(others =~= seq![others[0]] + others.drop_first());
        lemma_hyphenated_add(seq![others[0]], others.drop_first());
        lemma_hyphenated_one(others[0]);
        assert(text[n] == HYPHEN);
        assert(text =~= text.subrange(0, n) + seq![HYPHEN] + rest);
        assert(text =~= split(text)[0] + hyphenated(split(text).drop_first()));
    }
}

/// The text of subtags without an underscore has none, and begins with a
/// hyphen if there is a subtag.
proof fn lemma_hyphenated_bytes(tokens: Seq<Seq<u8>>)
    requires
        all_separator_free(tokens),
    ensures
        forall|i: int|
            0 <= i < hyphenated(tokens).len() ==> #[trigger] hyphenated(tokens)[i] != UNDERSCORE,
        tokens.len() > 0 ==> hyphenated(tokens).len() > 0 && hyphenated(tokens)[0] == HYPHEN,
    decreases tokens.len(),
{
    if tokens.len() > 0 {
        let d = tokens.drop_last();
        lemma_separator_free_part(tokens, 0, tokens.len() - 1);
        lemma_hyphenated_bytes(d);
        let head = hyphenated(d);
        let last = tokens.last();
        assert(separator_free(last));
        let text = hyphenated(tokens);
        assert forall|i: int| 0 <= i < text.len() implies #[trigger] text[i] != UNDERSCORE by {
            if i < head.len() {
                assert(text[i] == head[i]);
            } else if i > head.len() {
                assert(text[i] == last[i - head.len() - 1]);
                assert(!is_separator(last[i - head.len() - 1]));
            }
        }
        if d.len() > 0 {
            assert(text[0] == head[0]);
        }
    }
}

/// Canonical subtags taken in pairs are canonical keywords, of which only
/// the last can be without a value, and which are written as the subtags.
pub proof fn lemma_paired(tokens: Seq<Seq<u8>>)
    requires
        canonical_tags(tokens),
    ensures
        keywords_tokens(paired(tokens)) == tokens,
        canonical_subtags(paired(tokens)),
        values_before_last(paired(tokens)),
        tokens.len() > 0 ==> paired(tokens).len() > 0,
    decreases tokens.len(),
{
    let p = paired(tokens);
    let none = Seq::<KeywordView>::empty();
    assert(keywords_tokens(none) =~= Seq::<Seq<u8>>::empty());
    if tokens.len() == 0 {
    } else {
        let first = p[0];
        assert(keywords_tokens(seq![first]) =~= keyword_tokens(first)) by {
            assert(seq![first].drop_last() =~= none);
        }
        assert(is_canonical_subtag(tokens[0]));
        if tokens.len() == 1 {
            assert(p =~= seq![first]);
            assert(keyword_tokens(first) =~= tokens);
        } else {
            let tail = tokens.skip(2);
            assert(is_canonical_subtag(tokens[1]));
            lemma_canonical_tags_part(tokens, 2, tokens.len() as int);
            lemma_paired(tail);
            let rest = paired(tail);
            assert(p =~= seq![first] + rest);
            lemma_keywords_tokens_add(seq![first], rest);
            assert(keyword_tokens(first) + tail =~= tokens);
            assert(canonical_subtags(seq![first]));
            lemma_canonical_subtags_add(seq![first], rest);
            assert(values_before_last(p)) by {
                assert forall|i: int| 0 <= i < p.len() - 1 implies (#[trigger] p[i]).value
                    is Some by {
                    if i > 0 {
                        assert(p[i] == rest[i - 1]);
                    }
                }
            }
        }
    }
}

/// Keywords of which only the last can be without a value are what their
/// subtags spell when they are taken in pairs.
pub proof fn lemma_paired_keywords(e: Seq<KeywordView>)
    requires
        values_before_last(e),
    ensures
        paired(keywords_tokens(e)) == e,
    decreases e.len(),
{
    let none = Seq::<KeywordView>::empty();
    assert(keywords_tokens(none) =~= Seq::<Seq<u8>>::empty());
    if e.len() == 0 {
        assert(e =~= none);
    } else {
        let first = e[0];
        let tail = e.drop_first();
        assert(e =~= seq![first] + tail);
        lemma_keywords_tokens_add(seq![first], tail);
        assert(keywords_tokens(seq![first]) =~= keyword_tokens(first)) by {
            assert(seq![first].drop_last() =~= none);
        }
        let tokens = keywords_tokens(e);
        assert(tokens =~= keyword_tokens(first) + keywords_tokens(tail));
        lemma_values_before_last_tail(e, 1);
        lemma_paired_keywords(tail);
        match first.value {
            Some(v) => {
                assert(tokens[0] == first.key && tokens[1] == v);
                assert(tokens.skip(2) =~= keywords_tokens(tail));
                assert(paired(tokens) =~= e);
            },
            None => {
                assert(tail.len() == 0) by {
                    if tail.len() > 0 {
                        assert(e[0].value is Some);
                    }
                }
                assert(tail =~= none);
                assert(tokens =~= seq![first.key]);
                assert(paired(tokens) =~= e);
            },
        }
    }
}

/// The subtags of the sections of `m` that stand at `from` or behind it.
spec fn tokens_from(m: ExtensionsMapView, from: int) -> Seq<Seq<u8>> {
    (if from <= 0 {
        section_tokens(TRANSFORM_SINGLETON, keywords_tokens(m.transform))
    } else {
        Seq::empty()
    }) + (if from <= 1 {
        section_tokens(UNICODE_SINGLETON, keywords_tokens(m.unicode))
    } else {
        Seq::empty()
    }) + (if from <= 2 {
        section_tokens(PRIVATE_SINGLETON, m.private)
    } else {
        Seq::empty()
    })
}

/// Does `m` hold nothing in the sections that stand at `from` or behind it?
spec fn empty_from(m: ExtensionsMapView, from: int) -> bool {
    &&& from <= 0 ==> m.transform.len() == 0
    &&& from <= 1 ==> m.unicode.len() == 0
    &&& from <= 2 ==> m.private.len() == 0
}

/// Does `m` hold what `acc` holds in the sections that stand before `from`?
spec fn same_before(m: ExtensionsMapView, acc: ExtensionsMapView, from: int) -> bool {
    &&& from > 0 ==> m.transform == acc.transform
    &&& from > 1 ==> m.unicode == acc.unicode
    &&& from > 2 ==> m.private == acc.private
    &&& m.other == acc.other
}

/// Sections in canonical form are read into a map that is written as the
/// same sections.
proof fn lemma_parse_canonical_sections(tokens: Seq<Seq<u8>>, from: int, acc: ExtensionsMapView)
    requires
        0 <= from,
        canonical_sections(tokens, from),
        empty_from(acc, from),
    ensures
        parse_sections(tokens, acc) matches Ok(m) && tokens_from(m, from) == tokens && same_before(
            m,
            acc,
            from,
        ),
    decreases tokens.len(),
{
    let none = Seq::<KeywordView>::empty();
    assert(keywords_tokens(none) =~= Seq::<Seq<u8>>::empty());
    if tokens.len() == 0 {
        if from <= 0 {
            assert(acc.transform =~= none);
        }
        if from <= 1 {
            assert(acc.unicode =~= none);
        }
        assert(tokens_from(acc, from) =~= tokens);
    } else {
        let body = tokens.drop_first();
        let n = section_len(body) as int;
        lemma_section_len_bound(body);
        let section = body.take(n);
        let rest = body.skip(n);
        let place = section_place(tokens[0][0]).unwrap();
        assert(rest == after_section(body));
        assert(body =~= section + rest);
        assert(tokens[0] =~= seq![tokens[0][0]]);
        assert(tokens =~= seq![tokens[0]] + section + rest);
        if place == 2 {
            lemma_parse_tags_tokens(section, Seq::empty(), rest);
            assert(Seq::<Seq<u8>>::empty() + section =~= section);
            let next = ExtensionsMapView { private: section, ..acc };
            assert(extension_type_of(tokens[0][0]) == Some(ExtensionType::Private));
            // no section stands behind private use
            assert(canonical_sections(rest, 3));
            assert(rest.len() == 0) by {
                if rest.len() > 0 {
                    assert(section_place(rest[0][0]) matches Some(p) && p >= 3);
                }
            }
            assert(parse_tags(body, Seq::empty()) == Some(section));
            assert(parse_sections(rest, next) == Ok::<ExtensionsMapView, ParserError>(next));
            assert(parse_sections(tokens, acc) == Ok::<ExtensionsMapView, ParserError>(next));
            assert(tokens_from(next, from) =~= tokens) by {
                if from <= 0 {
                    assert(next.transform =~= none);
                }
                if from <= 1 {
                    assert(next.unicode =~= none);
                }
            }
        } else {
            let e = paired(section);
            lemma_paired(section);
            assert(none + e =~= e);
            lemma_parse_keywords_tokens(e, none, rest);
            assert(parse_keywords(body, none) == Some(e));
            let next = if place == 0 {
                ExtensionsMapView { transform: e, ..acc }
            } else {
                ExtensionsMapView { unicode: e, ..acc }
            };
            assert(extension_type_of(tokens[0][0]) == Some(
                if place == 0 {
                    ExtensionType::Transform
                } else {
                    ExtensionType::Unicode
                },
            ));
            lemma_parse_canonical_sections(rest, place + 1, next);
            let m = parse_sections(rest, next).unwrap();
            assert(parse_sections(tokens, acc) == Ok::<ExtensionsMapView, ParserError>(m));
            assert(tokens_from(m, from) =~= tokens) by {
                if place == 1 && from <= 0 {
                    assert(m.transform =~= none);
                }
            }
        }
    }
}

/// The sections of a canonical map from a place on are in canonical form.
proof fn lemma_sections_of_map(m: ExtensionsMapView, from: int)
    requires
        m.is_canonical(),
        0 <= from <= 3,
    ensures
        canonical_sections(tokens_from(m, from), from),
    decreases 3 - from,
{
    let none = Seq::<Seq<u8>>::empty();
    if from == 3 {
        assert(tokens_from(m, from) =~= none);
    } else {
        lemma_sections_of_map(m, from + 1);
        let rest = tokens_from(m, from + 1);
        let singleton = if from == 0 {
            TRANSFORM_SINGLETON
        } else if from == 1 {
            UNICODE_SINGLETON
        } else {
            PRIVATE_SINGLETON
        };
        let section = if from == 0 {
            keywords_tokens(m.transform)
        } else if from == 1 {
            keywords_tokens(m.unicode)
        } else {
            m.private
        };
        let tokens = tokens_from(m, from);
        assert(tokens =~= section_tokens(singleton, section) + rest);
        assert(rest.len() == 0 || is_singleton(rest[0])) by {
            if rest.len() > 0 {
                assert(canonical_sections(rest, from + 1));
            }
        }
        if section.len() == 0 {
            assert(tokens =~= rest);
            if rest.len() > 0 {
                assert(canonical_sections(rest, from));
            }
        } else {
            if from == 0 {
                lemma_keywords_tokens_shape(m.transform);
                lemma_paired_keywords(m.transform);
            } else if from == 1 {
                lemma_keywords_tokens_shape(m.unicode);
                lemma_paired_keywords(m.unicode);
            } else {
                lemma_tags_shape(m.private);
            }
            assert(canonical_tags(section)) by {
                if from == 0 {
                    lemma_keywords_tokens_canonical(m.transform);
                } else if from == 1 {
                    lemma_keywords_tokens_canonical(m.unicode);
                }
            }
            let body = tokens.drop_first();
            assert(body =~= section + rest);
            lemma_after_section(section, rest);
            lemma_section_len_bound(body);
            assert(section_len(body) == section.len()) by {
                assert(body.skip(section_len(body) as int).len() == rest.len());
            }
            assert(body.take(section.len() as int) =~= section);
            assert(body.skip(section.len() as int) =~= rest);
            assert(tokens[0] == seq![singleton]);
        }
    }
}

} // verus!
