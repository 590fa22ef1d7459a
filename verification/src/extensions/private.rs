//! The private use extension: an ordered list of tags behind `x`.

use vstd::prelude::*;
use vstd::slice::slice_to_vec;

use crate::extensions::keywords::{keyword_of, keyword_tokens};
use crate::parser::errors::ParserError;
use crate::subtags::{
    after_section, all_separator_free, ascii_chars, ascii_string, hyphenated, is_ascii_bytes,
    is_canonical_subtag, is_singleton, is_subtag, lemma_canonical_subtag_shape,
    lemma_hyphenated_add, lemma_hyphenated_one, lemma_lower_canonical,
    lemma_section_len_bound, lower, no_singletons, normalize_subtag, option_bytes,
    push_subtag, section_text, separator_free, SubtagIterator,
};

verus! {

/// The singleton that opens the private use section, `x`.
pub const PRIVATE_SINGLETON: u8 = 0x78;

/// Is every tag a canonical subtag?
pub open spec fn canonical_tags(tags: Seq<Seq<u8>>) -> bool {
    forall|i: int| 0 <= i < tags.len() ==> is_canonical_subtag(#[trigger] tags[i])
}

/// The tags that the section at the start of `tokens` adds to `acc`: each
/// subtag up to the next singleton, in lowercase. `None` if a subtag is not
/// well formed.
pub open spec fn parse_tags(tokens: Seq<Seq<u8>>, acc: Seq<Seq<u8>>) -> Option<Seq<Seq<u8>>>
    decreases tokens.len(),
{
    if tokens.len() == 0 || is_singleton(tokens[0]) {
        Some(acc)
    } else if is_subtag(tokens[0]) {
        parse_tags(tokens.drop_first(), acc.push(lower(tokens[0])))
    } else {
        None
    }
}

/// The tags of the private use extension, in the order in which they were given.
#[derive(Debug, PartialEq, Eq, Hash, PartialOrd, Ord)]
pub struct PrivateExtensionList {
    tags: Vec<Vec<u8>>,
}

impl View for PrivateExtensionList {
    type V = Seq<Seq<u8>>;

    closed spec fn view(&self) -> Seq<Seq<u8>> {
        self.tags@.map_values(|t: Vec<u8>| t@)
    }
}

impl Clone for PrivateExtensionList {
    fn clone(&self) -> (r: Self)
        ensures
            r@ == self@,
    {
        proof {
            use_type_invariant(self);
        }
        let n = self.tags.len();
        let mut tags: Vec<Vec<u8>> = Vec::new();
        let mut i: usize = 0;
        while i < n
            invariant
                i <= n,
                n == self.tags@.len(),
                tags@.len() == i,
                forall|j: int| 0 <= j < i ==> (#[trigger] tags@[j])@ == self.tags@[j]@,
            decreases n - i,
        {
            tags.push(slice_to_vec(self.tags[i].as_slice()));
            i = i + 1;
        }
        assert(tags@.map_values(|t: Vec<u8>| t@) =~= self@);
        PrivateExtensionList { tags }
    }
}

impl PrivateExtensionList {
    #[verifier::type_invariant]
    spec fn inv(self) -> bool {
        canonical_tags(self@)
    }

    /// A list without tags.
    pub fn new() -> (r: Self)
        ensures
            r@ == Seq::<Seq<u8>>::empty(),
    {
        let r = PrivateExtensionList { tags: Vec::new() };
        assert(r@ =~= Seq::<Seq<u8>>::empty());
        r
    }

    /// Recalls what the list holds at all times: canonical subtags.
    pub fn well_formedness(&self)
        ensures
            canonical_tags(self@),
    {
        proof {
            use_type_invariant(self);
        }
    }

    /// Does the list hold no tag?
    pub fn is_empty(&self) -> (r: bool)
        ensures
            r == (self@.len() == 0),
    {
        self.tags.len() == 0
    }

    /// The number of tags.
    pub fn len(&self) -> (r: usize)
        ensures
            r == self@.len(),
    {
        self.tags.len()
    }

    /// The tag at place `i`, counted from 0.
    pub fn get(&self, i: usize) -> (r: Option<String>)
        ensures
            match r {
                Some(s) => i < self@.len() && s@ == ascii_chars(self@[i as int]),
                None => i >= self@.len(),
            },
    {
        if i < self.tags.len() {
            Some(ascii_string(self.tags[i].as_slice()))
        } else {
            None
        }
    }

    /// The text of the section: nothing if there is no tag, else `-x` and
    /// each tag behind a hyphen.
    pub fn to_string(&self) -> (r: String)
        ensures
            r@ == ascii_chars(section_text(PRIVATE_SINGLETON, self@)),
    {
        let mut out: Vec<u8> = Vec::new();
        self.write_section(&mut out);
        assert(out@ =~= section_text(PRIVATE_SINGLETON, self@));
        ascii_string(out.as_slice())
    }

    /// Appends a canonical subtag.
    fn push(&mut self, tag: Vec<u8>)
        requires
            is_canonical_subtag(tag@),
        ensures
            final(self)@ == old(self)@.push(tag@),
    {
        proof {
            use_type_invariant(&*self);
        }
        let ghost before = self@;
        let mut tags: Vec<Vec<u8>> = Vec::new();
        core::mem::swap(&mut tags, &mut self.tags);
        tags.push(tag);
        assert(tags@.map_values(|t: Vec<u8>| t@) =~= before.push(tag@));
        self.tags = tags;
    }

    /// Appends `key` and then `value` to the tags. Both are checked and stored
    /// in lowercase. A subtag that is not well formed is refused, and the list
    /// stays as it was.
    pub fn set(&mut self, key: &[u8], value: Option<&[u8]>) -> (r: Result<(), ParserError>)
        ensures
            match keyword_of(key@, option_bytes(value)) {
                Some(k) => r is Ok && final(self)@ == old(self)@ + keyword_tokens(k),
                None => r == Err::<(), ParserError>(ParserError::InvalidExtension) && final(self)@
                    == old(self)@,
            },
    {
        let key = match normalize_subtag(key) {
            Some(k) => k,
            None => {
                return Err(ParserError::InvalidExtension);
            },
        };
        let value = match value {
            Some(v) => match normalize_subtag(v) {
                Some(v) => Some(v),
                None => {
                    return Err(ParserError::InvalidExtension);
                },
            },
            None => None,
        };
        let ghost before = self@;
        proof {
            lemma_lower_canonical(key@);
        }
        self.push(key);
        match value {
            Some(v) => {
                self.push(v);
                assert(self@ =~= before + seq![key@, v@]);
            },
            None => {
                assert(self@ =~= before + seq![key@]);
            },
        }
        Ok(())
    }

    /// Reads the tags of the section in which `iter` stands, up to the next
    /// singleton or the end of the subtags.
    pub fn try_from_iter(iter: &mut SubtagIterator<'_>) -> (r: Result<Self, ParserError>)
        ensures
            match parse_tags(old(iter).remaining(), Seq::empty()) {
                Some(tags) => r matches Ok(l) && l@ == tags && final(iter).remaining()
                    == after_section(old(iter).remaining()),
                None => r matches Err(e) && e == ParserError::InvalidExtension,
            },
    {
        let mut list = PrivateExtensionList::new();
        let ghost start = iter.remaining();
        while !iter.at_section_end()
            invariant
                start == old(iter).remaining(),
                parse_tags(start, Seq::empty()) == parse_tags(iter.remaining(), list@),
                after_section(start) == after_section(iter.remaining()),
            decreases iter.remaining().len(),
        {
            proof {
                lemma_section_len_bound(iter.remaining());
            }
            let t = iter.next().unwrap();
            match normalize_subtag(t) {
                Some(tag) => {
                    proof {
                        lemma_lower_canonical(t@);
                    }
                    list.push(tag);
                },
                None => {
                    return Err(ParserError::InvalidExtension);
                },
            }
        }
        proof {
            lemma_section_len_bound(iter.remaining());
        }
        Ok(list)
    }

    /// Appends the text of the section to `out`: nothing if there is no tag,
    /// else `-x` and each tag behind a hyphen.
    pub fn write_section(&self, out: &mut Vec<u8>)
        ensures
            final(out)@ == old(out)@ + section_text(PRIVATE_SINGLETON, self@),
            is_ascii_bytes(old(out)@) ==> is_ascii_bytes(final(out)@),
    {
        proof {
            use_type_invariant(self);
        }
        let n = self.tags.len();
        if n == 0 {
            assert(old(out)@ + Seq::<u8>::empty() =~= old(out)@);
            return ;
        }
        let s: [u8; 1] = [PRIVATE_SINGLETON];
        push_subtag(out, s.as_slice());
        let ghost head = seq![seq![PRIVATE_SINGLETON]];
        proof {
            lemma_hyphenated_one(seq![PRIVATE_SINGLETON]);
            assert(s@ =~= seq![PRIVATE_SINGLETON]);
            assert(hyphenated(self@.take(0)) =~= Seq::<u8>::empty());
        }
        let mut i: usize = 0;
        while i < n
            invariant
                i <= n,
                n == self.tags@.len(),
                n == self@.len(),
                out@ == old(out)@ + hyphenated(head) + hyphenated(self@.take(i as int)),
                is_ascii_bytes(old(out)@) ==> is_ascii_bytes(out@),
                canonical_tags(self@),
            decreases n - i,
        {
            assert(is_canonical_subtag(self@[i as int]));
            push_subtag(out, self.tags[i].as_slice());
            proof {
                assert(self@.take(i + 1).drop_last() =~= self@.take(i as int));
                assert(out@ =~= old(out)@ + hyphenated(head) + hyphenated(self@.take(i + 1)));
            }
            i = i + 1;
        }
        proof {
            assert(self@.take(n as int) =~= self@);
            lemma_hyphenated_add(head, self@);
            assert(out@ =~= old(out)@ + section_text(PRIVATE_SINGLETON, self@));
        }
    }
}

/// A part of canonical tags is canonical.
pub proof fn lemma_canonical_tags_part(tags: Seq<Seq<u8>>, from: int, to: int)
    requires
        canonical_tags(tags),
        0 <= from <= to <= tags.len(),
    ensures
        canonical_tags(tags.subrange(from, to)),
{
    let part = tags.subrange(from, to);
    assert forall|i: int| 0 <= i < part.len() implies is_canonical_subtag(#[trigger] part[i]) by {
        assert(part[i] == tags[from + i]);
    }
}

/// Canonical tags hold no separator, and none of them is a singleton.
pub proof fn lemma_tags_shape(tags: Seq<Seq<u8>>)
    requires
        canonical_tags(tags),
    ensures
        all_separator_free(tags),
        no_singletons(tags),
{
    assert forall|i: int| 0 <= i < tags.len() implies !is_singleton(#[trigger] tags[i])
        && separator_free(tags[i]) by {
        lemma_canonical_subtag_shape(tags[i]);
    }
}

/// Reading canonical tags gives the tags back.
///
/// The tags are read after `acc`, and `rest` is what follows them in the
/// subtags: nothing, or the singleton of the next section.
pub proof fn lemma_parse_tags_tokens(tags: Seq<Seq<u8>>, acc: Seq<Seq<u8>>, rest: Seq<Seq<u8>>)
    requires
        canonical_tags(tags),
        rest.len() == 0 || is_singleton(rest[0]),
    ensures
        parse_tags(tags + rest, acc) == Some(acc + tags),
    decreases tags.len(),
{
    let tokens = tags + rest;
    if tags.len() == 0 {
        assert(tokens =~= rest);
        assert(acc + tags =~= acc);
    } else {
        let t = tags[0];
        let tail = tags.drop_first();
        assert(tokens[0] == t);
        lemma_canonical_subtag_shape(t);
        lemma_lower_canonical(t);
        assert(tokens.drop_first() =~= tail + rest);
        lemma_canonical_tags_part(tags, 1, tags.len() as int);
        lemma_parse_tags_tokens(tail, acc.push(t), rest);
        assert(acc.push(t) + tail =~= acc + tags);
    }
}

/// The tags that are read from subtags are canonical.
pub proof fn lemma_parse_tags_shape(tokens: Seq<Seq<u8>>, acc: Seq<Seq<u8>>)
    requires
        canonical_tags(acc),
    ensures
        parse_tags(tokens, acc) matches Some(tags) ==> canonical_tags(tags),
    decreases tokens.len(),
{
    if !(tokens.len() == 0 || is_singleton(tokens[0])) && is_subtag(tokens[0]) {
        let next = acc.push(lower(tokens[0]));
        lemma_lower_canonical(tokens[0]);
        assert(canonical_tags(next)) by {
            assert forall|i: int| 0 <= i < next.len() implies is_canonical_subtag(
                #[trigger] next[i],
            ) by {
                if i < acc.len() {
                    assert(next[i] == acc[i]);
                }
            }
        }
        lemma_parse_tags_shape(tokens.drop_first(), next);
    }
}

} // verus!
