//! The two ways of reading extensions agree.
//!
//! Extensions are read section by section from a text of their own, and
//! subtag by subtag from the tail of a locale. On a text that does not begin
//! with a separator and opens no type of section twice, both give the same.

use vstd::prelude::*;

use crate::extensions::keywords::{keyword_of, parse_keywords};
use crate::extensions::private::parse_tags;
use crate::extensions::{
    extension_type_of, parse_extensions, parse_sections, ExtensionType, ExtensionsMapView,
};
use crate::parser::errors::ParserError;
use crate::parser::{parse_subtags, ParserState};
use crate::subtags::{
    after_section, is_singleton, is_subtag, lemma_section_len_bound, lower, split,
};

verus! {

/// Does the subtag open a section of type `t`?
pub open spec fn opens(token: Seq<u8>, t: ExtensionType) -> bool {
    is_singleton(token) && extension_type_of(token[0]) == Some(t)
}

/// The number of sections of type `t` that `tokens` open.
pub open spec fn sections_of(tokens: Seq<Seq<u8>>, t: ExtensionType) -> nat
    decreases tokens.len(),
{
    if tokens.len() == 0 {
        0
    } else {
        (if opens(tokens[0], t) {
            1nat
        } else {
            0nat
        }) + sections_of(tokens.drop_first(), t)
    }
}

/// Do `tokens` open each type of section at most once?
pub open spec fn sections_distinct(tokens: Seq<Seq<u8>>) -> bool {
    &&& sections_of(tokens, ExtensionType::Unicode) <= 1
    &&& sections_of(tokens, ExtensionType::Transform) <= 1
    &&& sections_of(tokens, ExtensionType::Private) <= 1
}

/// The two ways of reading extensions agree: a text that does not begin
/// with a separator and opens no type of section twice stands for the same
/// extensions, or is refused with the same error, whether it is read as a
/// text of extensions or as the tail of a locale.
pub proof fn lemma_parsers_agree(bytes: Seq<u8>)
    requires
        bytes.len() == 0 || split(bytes)[0].len() > 0,
        sections_distinct(split(bytes)),
    ensures
        parse_subtags(bytes) == parse_extensions(bytes),
{
    let tokens = split(bytes);
    if bytes.len() == 0 {
        assert(tokens =~= seq![bytes]);
        reveal_with_fuel(parse_sections, 2);
    } else {
        assert(tokens.len() > 0);
        if is_singleton(tokens[0]) {
            lemma_run_sections(tokens, ExtensionsMapView::empty(), None);
        }
    }
}

/// Do `tokens` open each type of section at most once, and only types of
/// which `acc` holds nothing yet?
spec fn opens_new_sections(tokens: Seq<Seq<u8>>, acc: ExtensionsMapView) -> bool {
    &&& sections_distinct(tokens)
    &&& sections_of(tokens, ExtensionType::Unicode) == 1 ==> acc.unicode.len() == 0
    &&& sections_of(tokens, ExtensionType::Transform) == 1 ==> acc.transform.len() == 0
    &&& sections_of(tokens, ExtensionType::Private) == 1 ==> acc.private.len() == 0
}

/// What the parser of subtags returns from where it stands at the end.
spec fn finished(r: Result<ParserState, ParserError>) -> Result<ExtensionsMapView, ParserError> {
    match r {
        Ok(state) => state.flushed(ParserError::InvalidSubtag),
        Err(e) => Err(e),
    }
}

/// The map after the section at the start of `tokens` was added to what
/// `acc` holds for the type `t`.
spec fn with_section(t: ExtensionType, tokens: Seq<Seq<u8>>, acc: ExtensionsMapView) -> Option<
    ExtensionsMapView,
> {
    match t {
        ExtensionType::Unicode => match parse_keywords(tokens, acc.unicode) {
            Some(e) => Some(ExtensionsMapView { unicode: e, ..acc }),
            None => None,
        },
        ExtensionType::Transform => match parse_keywords(tokens, acc.transform) {
            Some(e) => Some(ExtensionsMapView { transform: e, ..acc }),
            None => None,
        },
        ExtensionType::Private => match parse_tags(tokens, acc.private) {
            Some(tags) => Some(ExtensionsMapView { private: tags, ..acc }),
            None => None,
        },
        ExtensionType::Other(_) => None,
    }
}

/// The state in which a section of type `t` is open and no key waits.
spec fn in_section(acc: ExtensionsMapView, t: ExtensionType) -> ParserState {
    ParserState { map: acc, current_type: Some(t), current_key: None }
}

/// Sections hold no singleton, so what follows a section opens the same
/// sections as the subtags that begin with it.
proof fn lemma_sections_after(tokens: Seq<Seq<u8>>, t: ExtensionType)
    ensures
        sections_of(after_section(tokens), t) == sections_of(tokens, t),
    decreases tokens.len(),
{
    lemma_section_len_bound(tokens);
    if tokens.len() == 0 || is_singleton(tokens[0]) {
        assert(after_section(tokens) =~= tokens);
    } else {
        lemma_sections_after(tokens.drop_first(), t);
    }
}

/// Within a section, reading subtag by subtag adds to the map what reading
/// the section as a whole adds.
proof fn lemma_run_section(t: ExtensionType, tokens: Seq<Seq<u8>>, acc: ExtensionsMapView)
    requires
        !(t is Other),
    ensures
        finished(in_section(acc, t).run(tokens)) == match with_section(t, tokens, acc) {
            None => Err::<ExtensionsMapView, ParserError>(ParserError::InvalidExtension),
            Some(m) => finished(in_section(m, t).run(after_section(tokens))),
        },
    decreases tokens.len(),
{
    let state = in_section(acc, t);
    lemma_section_len_bound(tokens);
    if tokens.len() == 0 || is_singleton(tokens[0]) {
        assert(after_section(tokens) =~= tokens);
        assert(with_section(t, tokens, acc) == Some(acc));
    } else {
        let key = tokens[0];
        let rest = tokens.drop_first();
        lemma_section_len_bound(rest);
        let waiting = ParserState { current_key: Some(key), ..state };
        assert(state.step(key) == Ok::<ParserState, ParserError>(waiting));
        assert(state.run(tokens) == waiting.run(rest));
        if tokens.len() == 1 || is_singleton(tokens[1]) {
            let flushed = acc.with_value(t, key, None);
            assert(after_section(tokens) == rest) by {
                assert(after_section(rest) =~= rest);
            }
            match keyword_of(key, None) {
                None => {
                    assert(with_section(t, tokens, acc) is None);
                    if rest.len() > 0 {
                        assert(rest[0] == tokens[1]);
                    }
                },
                Some(k) => {
                    let m = flushed.unwrap();
                    assert(with_section(t, tokens, acc) == Some(m)) by {
                        if t is Private {
                            assert(acc.private.push(k.key) =~= acc.private + seq![k.key]);
                            assert(parse_tags(rest, acc.private.push(k.key)) == Some(
                                acc.private.push(k.key),
                            ));
                        }
                    }
                    if rest.len() > 0 {
                        assert(rest[0] == tokens[1]);
                        assert(waiting.step(rest[0]) == in_section(m, t).step(rest[0]));
                    }
                },
            }
        } else {
            let value = tokens[1];
            let more = tokens.skip(2);
            assert(rest[0] == value);
            assert(rest.drop_first() =~= more);
            lemma_section_len_bound(more);
            assert(after_section(tokens) == after_section(more));
            if t is Private {
                // the tags are read one by one: first the key, then the value
                let first = acc.private.push(lower(key));
                assert(parse_tags(tokens, acc.private) == if is_subtag(key) {
                    parse_tags(rest, first)
                } else {
                    None
                });
                assert(parse_tags(rest, first) == if is_subtag(value) {
                    parse_tags(more, first.push(lower(value)))
                } else {
                    None
                });
            }
            match keyword_of(key, Some(value)) {
                None => {
                    assert(with_section(t, tokens, acc) is None);
                },
                Some(k) => {
                    let m = acc.with_value(t, key, Some(value)).unwrap();
                    assert(waiting.step(value) == Ok::<ParserState, ParserError>(
                        in_section(m, t),
                    ));
                    assert(waiting.run(rest) == in_section(m, t).run(more));
                    assert(with_section(t, tokens, acc) == with_section(t, more, m)) by {
                        if t is Private {
                            assert(acc.private.push(k.key).push(k.value.unwrap()) =~= acc.private
                                + seq![k.key, k.value.unwrap()]);
                        }
                    }
                    lemma_run_section(t, more, m);
                },
            }
        }
    }
}

/// From the start of a section on, reading subtag by subtag gives what
/// reading section by section gives, if no type of section is opened twice.
proof fn lemma_run_sections(
    tokens: Seq<Seq<u8>>,
    acc: ExtensionsMapView,
    open: Option<ExtensionType>,
)
    requires
        tokens.len() == 0 || is_singleton(tokens[0]),
        opens_new_sections(tokens, acc),
    ensures
        finished(
            (ParserState { map: acc, current_type: open, current_key: None }).run(tokens),
        ) == parse_sections(tokens, acc),
    decreases tokens.len(),
{
    if tokens.len() > 0 {
        let state = ParserState { map: acc, current_type: open, current_key: None };
        let rest = tokens.drop_first();
        lemma_section_len_bound(rest);
        match extension_type_of(tokens[0][0]) {
            Some(t) => {
                if !(t is Other) {
                    let next = in_section(acc, t);
                    assert(state.step(tokens[0]) == Ok::<ParserState, ParserError>(next));
                    lemma_run_section(t, rest, acc);
                    assert(opens(tokens[0], t));
                    assert(sections_of(tokens, t) == 1);
                    assert(sections_of(rest, t) == 0);
                    lemma_sections_after(rest, ExtensionType::Unicode);
                    lemma_sections_after(rest, ExtensionType::Transform);
                    lemma_sections_after(rest, ExtensionType::Private);
                    match with_section(t, rest, acc) {
                        Some(m) => {
                            assert(opens_new_sections(after_section(rest), m));
                            lemma_run_sections(after_section(rest), m, Some(t));
                            match t {
                                ExtensionType::Unicode => {
                                    assert(acc.unicode =~= Seq::empty());
                                },
                                ExtensionType::Transform => {
                                    assert(acc.transform =~= Seq::empty());
                                },
                                _ => {
                                    assert(acc.private =~= Seq::empty());
                                },
                            }
                        },
                        None => {
                            match t {
                                ExtensionType::Unicode => {
                                    assert(acc.unicode =~= Seq::empty());
                                },
                                ExtensionType::Transform => {
                                    assert(acc.transform =~= Seq::empty());
                                },
                                _ => {
                                    assert(acc.private =~= Seq::empty());
                                },
                            }
                        },
                    }
                }
            },
            None => {},
        }
    }
}

} // verus!
