//! Keywords: the keys of an extension section, each with at most one value.

use vstd::prelude::*;
use vstd::slice::slice_to_vec;
use vstd::string::StringSliceAdditionalSpecFns;

use crate::parser::errors::ParserError;
use crate::subtags::{
    after_section, all_separator_free, ascii_chars, ascii_string, bytes_eq, hyphenated,
    is_ascii_bytes, is_canonical_subtag, is_singleton, is_subtag, lemma_canonical_subtag_shape,
    lemma_hyphenated_add, lemma_hyphenated_one, lemma_lower_canonical, lemma_section_len_bound,
    lower, no_singletons, normalize_subtag, option_bytes, option_vec, push_subtag,
    section_text, separator_free, HYPHEN, SubtagIterator,
};

verus! {

/// A key and, where one was given, its value, as the specifications see them.
pub struct KeywordView {
    pub key: Seq<u8>,
    pub value: Option<Seq<u8>>,
}

/// Is every key a canonical subtag, and every value that is there too?
pub open spec fn canonical_subtags(e: Seq<KeywordView>) -> bool {
    forall|i: int|
        0 <= i < e.len() ==> {
            &&& is_canonical_subtag(#[trigger] e[i].key)
            &&& e[i].value matches Some(v) ==> is_canonical_subtag(v)
        }
}

/// Does no key occur twice?
pub open spec fn distinct_keys(e: Seq<KeywordView>) -> bool {
    forall|i: int, j: int| 0 <= i < j < e.len() ==> #[trigger] e[i].key != #[trigger] e[j].key
}

/// What a keyword list holds at all times: canonical subtags under distinct keys.
pub open spec fn well_formed(e: Seq<KeywordView>) -> bool {
    canonical_subtags(e) && distinct_keys(e)
}

/// Does `key` occur in `e`?
pub open spec fn has_key(e: Seq<KeywordView>, key: Seq<u8>) -> bool {
    exists|i: int| 0 <= i < e.len() && #[trigger] e[i].key == key
}

/// The value of the keyword under `key`: none if there is no such keyword,
/// or if it has no value.
pub open spec fn value_of(e: Seq<KeywordView>, key: Seq<u8>) -> Option<Seq<u8>>
    decreases e.len(),
{
    if e.len() == 0 {
        None
    } else if e.last().key == key {
        e.last().value
    } else {
        value_of(e.drop_last(), key)
    }
}

/// The keywords of `e` whose key is not `key`, in their order.
pub open spec fn without_key(e: Seq<KeywordView>, key: Seq<u8>) -> Seq<KeywordView>
    decreases e.len(),
{
    if e.len() == 0 {
        e
    } else if e.last().key == key {
        without_key(e.drop_last(), key)
    } else {
        without_key(e.drop_last(), key).push(e.last())
    }
}

/// `e` after `key` was set to `value`: the keyword comes last, and an
/// earlier keyword under the same key is gone.
pub open spec fn with_keyword(e: Seq<KeywordView>, key: Seq<u8>, value: Option<Seq<u8>>) -> Seq<
    KeywordView,
> {
    without_key(e, key).push(KeywordView { key, value })
}

/// The lowercase form of an optional subtag.
pub open spec fn option_lower(v: Option<Seq<u8>>) -> Option<Seq<u8>> {
    match v {
        Some(b) => Some(lower(b)),
        None => None,
    }
}

/// The keyword that a key and a value as they were written stand for: both in
/// lowercase, if both are well-formed subtags.
pub open spec fn keyword_of(key: Seq<u8>, value: Option<Seq<u8>>) -> Option<KeywordView> {
    if is_subtag(key) && (value matches Some(v) ==> is_subtag(v)) {
        Some(KeywordView { key: lower(key), value: option_lower(value) })
    } else {
        None
    }
}

/// The keywords that the section at the start of `tokens` adds to `acc`.
/// The subtags up to the next singleton are taken in pairs of a key and its
/// value; a key that is left over at the end has no value. `None` if a subtag
/// is not well formed.
pub open spec fn parse_keywords(tokens: Seq<Seq<u8>>, acc: Seq<KeywordView>) -> Option<
    Seq<KeywordView>,
>
    decreases tokens.len(),
{
    if tokens.len() == 0 || is_singleton(tokens[0]) {
        Some(acc)
    } else if tokens.len() == 1 || is_singleton(tokens[1]) {
        match keyword_of(tokens[0], None) {
            Some(k) => Some(with_keyword(acc, k.key, k.value)),
            None => None,
        }
    } else {
        match keyword_of(tokens[0], Some(tokens[1])) {
            Some(k) => parse_keywords(tokens.skip(2), with_keyword(acc, k.key, k.value)),
            None => None,
        }
    }
}

/// The subtags that a keyword is written as: its key, then its value if it has one.
pub open spec fn keyword_tokens(k: KeywordView) -> Seq<Seq<u8>> {
    match k.value {
        Some(v) => seq![k.key, v],
        None => seq![k.key],
    }
}

/// The subtags that keywords are written as, keyword by keyword.
pub open spec fn keywords_tokens(e: Seq<KeywordView>) -> Seq<Seq<u8>>
    decreases e.len(),
{
    if e.len() == 0 {
        Seq::empty()
    } else {
        keywords_tokens(e.drop_last()) + keyword_tokens(e.last())
    }
}

/// Does every keyword have a value?
pub open spec fn all_values(e: Seq<KeywordView>) -> bool {
    forall|i: int| 0 <= i < e.len() ==> (#[trigger] e[i]).value is Some
}

/// Does every keyword but the last have a value? Only then does the text of
/// the keywords tell which subtag is a key and which a value.
pub open spec fn values_before_last(e: Seq<KeywordView>) -> bool {
    forall|i: int| 0 <= i < e.len() - 1 ==> (#[trigger] e[i]).value is Some
}

/// The characters of optional bytes.
pub open spec fn option_ascii(v: Option<Seq<u8>>) -> Option<Seq<char>> {
    match v {
        Some(b) => Some(ascii_chars(b)),
        None => None,
    }
}

/// The view of an optional string.
pub open spec fn option_string(v: Option<String>) -> Option<Seq<char>> {
    match v {
        Some(s) => Some(s@),
        None => None,
    }
}

/// A key of an extension section with the value that was set for it, if any.
#[derive(Debug, PartialEq, Eq, Hash, PartialOrd, Ord)]
pub struct Keyword {
    key: Vec<u8>,
    value: Option<Vec<u8>>,
}

impl View for Keyword {
    type V = KeywordView;

    closed spec fn view(&self) -> KeywordView {
        KeywordView {
            key: self.key@,
            value: option_vec(self.value),
        }
    }
}

impl Clone for Keyword {
    fn clone(&self) -> (r: Self)
        ensures
            r@ == self@,
    {
        Keyword {
            key: slice_to_vec(self.key.as_slice()),
            value: match &self.value {
                Some(v) => Some(slice_to_vec(v.as_slice())),
                None => None,
            },
        }
    }
}

/// The keywords of the extension section that the singleton `S` opens:
/// canonical subtags under distinct keys, in the order in which the keys were
/// last set.
#[derive(Debug, PartialEq, Eq, Hash, PartialOrd, Ord)]
pub struct KeywordList<const S: u8> {
    entries: Vec<Keyword>,
}

impl<const S: u8> View for KeywordList<S> {
    type V = Seq<KeywordView>;

    closed spec fn view(&self) -> Seq<KeywordView> {
        self.entries@.map_values(|k: Keyword| k@)
    }
}

impl<const S: u8> Clone for KeywordList<S> {
    fn clone(&self) -> (r: Self)
        ensures
            r@ == self@,
    {
        proof {
            use_type_invariant(self);
        }
        let n = self.entries.len();
        let mut entries: Vec<Keyword> = Vec::new();
        let mut i: usize = 0;
        while i < n
            invariant
                i <= n,
                n == self.entries@.len(),
                entries@.len() == i,
                forall|j: int| 0 <= j < i ==> (#[trigger] entries@[j])@ == self.entries@[j]@,
            decreases n - i,
        {
            entries.push(self.entries[i].clone());
            i = i + 1;
        }
        assert(entries@.map_values(|k: Keyword| k@) =~= self@);
        KeywordList { entries }
    }
}

impl<const S: u8> KeywordList<S> {
    #[verifier::type_invariant]
    spec fn inv(self) -> bool {
        well_formed(self@)
    }

    /// A list without keywords.
    pub fn new() -> (r: Self)
        ensures
            r@ == Seq::<KeywordView>::empty(),
    {
        let r = KeywordList { entries: Vec::new() };
        assert(r@ =~= Seq::<KeywordView>::empty());
        r
    }

    /// Recalls what the list holds at all times: canonical subtags under
    /// distinct keys.
    pub fn well_formedness(&self)
        ensures
            well_formed(self@),
    {
        proof {
            use_type_invariant(self);
        }
    }

    /// Does the list hold no keyword?
    pub fn is_empty(&self) -> (r: bool)
        ensures
            r == (self@.len() == 0),
    {
        self.entries.len() == 0
    }

    /// The number of keywords.
    pub fn len(&self) -> (r: usize)
        ensures
            r == self@.len(),
    {
        self.entries.len()
    }

    /// The place of `key` among the keywords, or their number if it is not there.
    fn position(&self, key: &[u8]) -> (i: usize)
        ensures
            i <= self@.len(),
            i < self@.len() ==> self@[i as int].key == key@,
            i == self@.len() ==> !has_key(self@, key@),
    {
        let n = self.entries.len();
        let mut i: usize = 0;
        while i < n
            invariant
                i <= n,
                n == self.entries@.len(),
                forall|j: int| 0 <= j < i ==> (#[trigger] self@[j]).key != key@,
            decreases n - i,
        {
            if bytes_eq(self.entries[i].key.as_slice(), key) {
                assert(self@[i as int].key == key@);
                return i;
            }
            assert(self@[i as int].key != key@);
            i = i + 1;
        }
        i
    }

    /// Is there a keyword under `key`? The key is looked up as it is written,
    /// so only a key in lowercase can be found.
    pub fn contains_key(&self, key: &str) -> (r: bool)
        ensures
            r == has_key(self@, key.spec_bytes()),
    {
        self.position(key.as_bytes()) < self.entries.len()
    }

    /// The value that is set for `key`, if there is a keyword under `key`
    /// and it has a value.
    pub fn get(&self, key: &str) -> (r: Option<String>)
        ensures
            option_string(r) == option_ascii(value_of(self@, key.spec_bytes())),
    {
        proof {
            use_type_invariant(self);
            lemma_value_of(self@, key.spec_bytes());
        }
        let i = self.position(key.as_bytes());
        if i >= self.entries.len() {
            return None;
        }
        assert(self@[i as int] == self.entries@[i as int]@);
        match &self.entries[i].value {
            Some(v) => Some(ascii_string(v.as_slice())),
            None => None,
        }
    }

    /// The text of the section: nothing if there is no keyword, else the
    /// singleton and each key with its value, each behind a hyphen.
    pub fn to_string(&self) -> (r: String)
        ensures
            r@ == ascii_chars(section_text(S, keywords_tokens(self@))),
    {
        let mut out: Vec<u8> = Vec::new();
        self.write_section(&mut out);
        assert(out@ =~= section_text(S, keywords_tokens(self@)));
        ascii_string(out.as_slice())
    }

    /// Sets `key` to `value`, which are canonical subtags.
    fn put(&mut self, key: Vec<u8>, value: Option<Vec<u8>>)
        requires
            is_canonical_subtag(key@),
            value matches Some(v) ==> is_canonical_subtag(v@),
        ensures
            final(self)@ == with_keyword(old(self)@, key@, option_vec(value)),
    {
        proof {
            use_type_invariant(&*self);
            lemma_without_key(self@, key@);
            lemma_with_keyword_well_formed(self@, key@, option_vec(value));
        }
        let i = self.position(key.as_slice());
        let mut entries: Vec<Keyword> = Vec::new();
        core::mem::swap(&mut entries, &mut self.entries);
        let ghost before = entries@.map_values(|k: Keyword| k@);
        if i < entries.len() {
            entries.remove(i);
            assert(entries@.map_values(|k: Keyword| k@) =~= before.remove(i as int));
        }
        let k = Keyword { key, value };
        entries.push(k);
        assert(entries@.map_values(|k: Keyword| k@) =~= with_keyword(before, k@.key, k@.value));
        self.entries = entries;
    }

    /// Reads the keywords of the section in which `iter` stands, up to the
    /// next singleton or the end of the subtags.
    pub fn try_from_iter(iter: &mut SubtagIterator<'_>) -> (r: Result<Self, ParserError>)
        ensures
            match parse_keywords(old(iter).remaining(), Seq::empty()) {
                Some(e) => r matches Ok(l) && l@ == e && final(iter).remaining() == after_section(
                    old(iter).remaining(),
                ),
                None => r matches Err(e) && e == ParserError::InvalidExtension,
            },
    {
        let mut list = KeywordList::new();
        let ghost start = iter.remaining();
        while !iter.at_section_end()
            invariant
                start == old(iter).remaining(),
                parse_keywords(start, Seq::empty()) == parse_keywords(iter.remaining(), list@),
                after_section(start) == after_section(iter.remaining()),
            decreases iter.remaining().len(),
        {
            let ghost tokens = iter.remaining();
            proof {
                lemma_section_len_bound(tokens);
                lemma_section_len_bound(tokens.drop_first());
                if tokens.len() >= 2 {
                    assert(tokens.drop_first().drop_first() =~= tokens.skip(2));
                }
            }
            let key = iter.next().unwrap();
            let value = if iter.at_section_end() {
                None
            } else {
                iter.next()
            };
            match list.set(key, value) {
                Ok(()) => {},
                Err(e) => {
                    return Err(e);
                },
            }
        }
        proof {
            lemma_section_len_bound(iter.remaining());
        }
        Ok(list)
    }

    /// Appends the text of the section to `out`: nothing if there is no
    /// keyword, else the singleton and each key with its value.
    pub fn write_section(&self, out: &mut Vec<u8>)
        ensures
            final(out)@ == old(out)@ + section_text(S, keywords_tokens(self@)),
            is_ascii_bytes(old(out)@) && S < 0x80 ==> is_ascii_bytes(final(out)@),
    {
        proof {
            use_type_invariant(self);
        }
        let n = self.entries.len();
        if n == 0 {
            assert(keywords_tokens(self@) =~= Seq::<Seq<u8>>::empty());
            assert(old(out)@ + Seq::<u8>::empty() =~= old(out)@);
            return ;
        }
        let s: [u8; 1] = [S];
        push_subtag(out, s.as_slice());
        let ghost head = seq![seq![S]];
        proof {
            lemma_hyphenated_one(seq![S]);
            assert(s@ =~= seq![S]);
            assert(keywords_tokens(self@.take(0)) =~= Seq::<Seq<u8>>::empty());
            assert(hyphenated(Seq::<Seq<u8>>::empty()) =~= Seq::<u8>::empty());
        }
        let mut i: usize = 0;
        while i < n
            invariant
                i <= n,
                n == self.entries@.len(),
                n == self@.len(),
                out@ == old(out)@ + hyphenated(head) + hyphenated(
                    keywords_tokens(self@.take(i as int)),
                ),
                is_ascii_bytes(old(out)@) && S < 0x80 ==> is_ascii_bytes(out@),
                well_formed(self@),
            decreases n - i,
        {
            let k = &self.entries[i];
            let ghost done = keywords_tokens(self@.take(i as int));
            proof {
                assert(self@.take(i + 1).drop_last() =~= self@.take(i as int));
                assert(self@.take(i + 1).last() == k@);
                lemma_hyphenated_add(done, keyword_tokens(k@));
            }
            assert(is_canonical_subtag(self@[i as int].key));
            push_subtag(out, k.key.as_slice());
            match &k.value {
                Some(v) => {
                    assert(is_canonical_subtag(v@));
                    push_subtag(out, v.as_slice());
                    assert(hyphenated(seq![k@.key, v@]) =~= seq![HYPHEN] + k@.key + seq![HYPHEN]
                        + v@) by {
                        assert(seq![k@.key, v@] =~= seq![k@.key] + seq![v@]);
                        lemma_hyphenated_add(seq![k@.key], seq![v@]);
                        lemma_hyphenated_one(k@.key);
                        lemma_hyphenated_one(v@);
                    }
                },
                None => {
                    proof {
                        lemma_hyphenated_one(k@.key);
                    }
                },
            }
            assert(out@ =~= old(out)@ + hyphenated(head) + hyphenated(
                keywords_tokens(self@.take(i + 1)),
            ));
            i = i + 1;
        }
        proof {
            assert(self@.take(n as int) =~= self@);
            lemma_hyphenated_add(head, keywords_tokens(self@));
            assert(out@ =~= old(out)@ + section_text(S, keywords_tokens(self@)));
        }
    }

    /// Sets `key` to `value`. Both are checked and stored in lowercase; the
    /// keyword moves to the end of the list. A subtag that is not well formed
    /// is refused, and the list stays as it was.
    pub fn set(&mut self, key: &[u8], value: Option<&[u8]>) -> (r: Result<(), ParserError>)
        ensures
            match keyword_of(key@, option_bytes(value)) {
                Some(k) => r is Ok && final(self)@ == with_keyword(old(self)@, k.key, k.value),
                None => r == Err::<(), ParserError>(ParserError::InvalidExtension) && final(self)@
                    == old(self)@,
            },
    {
        let key = match normalize_subtag(key) {
            Some(k) => k,
            None => {
                return Err(ParserError::InvalidExtension);
            },
        };
        let value = match value {
            Some(v) => match normalize_subtag(v) {
                Some(v) => Some(v),
                None => {
                    return Err(ParserError::InvalidExtension);
                },
            },
            None => None,
        };
        proof {
            lemma_lower_canonical(key@);
        }
        self.put(key, value);
        Ok(())
    }
}

/// A part of canonical keywords is canonical.
pub proof fn lemma_canonical_subtags_part(e: Seq<KeywordView>, from: int, to: int)
    requires
        canonical_subtags(e),
        0 <= from <= to <= e.len(),
    ensures
        canonical_subtags(e.subrange(from, to)),
{
    let part = e.subrange(from, to);
    assert forall|i: int| 0 <= i < part.len() implies {
        &&& is_canonical_subtag(#[trigger] part[i].key)
        &&& part[i].value matches Some(v) ==> is_canonical_subtag(v)
    } by {
        assert(part[i] == e[from + i]);
        assert(is_canonical_subtag(e[from + i].key));
    }
}

/// Canonical keywords followed by canonical keywords are canonical.
pub proof fn lemma_canonical_subtags_add(a: Seq<KeywordView>, b: Seq<KeywordView>)
    requires
        canonical_subtags(a),
        canonical_subtags(b),
    ensures
        canonical_subtags(a + b),
{
    let all = a + b;
    assert forall|i: int| 0 <= i < all.len() implies {
        &&& is_canonical_subtag(#[trigger] all[i].key)
        &&& all[i].value matches Some(v) ==> is_canonical_subtag(v)
    } by {
        if i < a.len() {
            assert(all[i] == a[i]);
            assert(is_canonical_subtag(a[i].key));
        } else {
            assert(all[i] == b[i - a.len()]);
            assert(is_canonical_subtag(b[i - a.len()].key));
        }
    }
}

/// A part of keywords with distinct keys has distinct keys.
pub proof fn lemma_distinct_keys_part(e: Seq<KeywordView>, from: int, to: int)
    requires
        distinct_keys(e),
        0 <= from <= to <= e.len(),
    ensures
        distinct_keys(e.subrange(from, to)),
{
    let part = e.subrange(from, to);
    assert forall|i: int, j: int| 0 <= i < j < part.len() implies #[trigger] part[i].key
        != #[trigger] part[j].key by {
        assert(part[i] == e[from + i] && part[j] == e[from + j]);
    }
}

/// Where only the last keyword can be without a value, the same holds of
/// the keywords from any place on.
pub proof fn lemma_values_before_last_tail(e: Seq<KeywordView>, from: int)
    requires
        values_before_last(e),
        0 <= from <= e.len(),
    ensures
        values_before_last(e.subrange(from, e.len() as int)),
{
    let tail = e.subrange(from, e.len() as int);
    assert forall|i: int| 0 <= i < tail.len() - 1 implies (#[trigger] tail[i]).value is Some by {
        assert(tail[i] == e[from + i]);
    }
}

/// Under distinct keys, removing a key removes the one keyword that has it.
pub proof fn lemma_without_key(e: Seq<KeywordView>, key: Seq<u8>)
    requires
        distinct_keys(e),
    ensures
        !has_key(e, key) ==> without_key(e, key) == e,
        forall|i: int|
            0 <= i < e.len() && #[trigger] e[i].key == key ==> without_key(e, key) == e.remove(i),
    decreases e.len(),
{
    if e.len() > 0 {
        let d = e.drop_last();
        let n = e.len() - 1;
        lemma_distinct_keys_part(e, 0, e.len() - 1);
        lemma_without_key(d, key);
        if e.last().key == key {
            assert(!has_key(d, key)) by {
                if has_key(d, key) {
                    let i = choose|i: int| 0 <= i < d.len() && #[trigger] d[i].key == key;
                    assert(e[i].key == key && e[n].key == key);
                }
            }
            assert(has_key(e, key)) by {
                assert(e[n].key == key);
            }
            assert forall|i: int|
                0 <= i < e.len() && #[trigger] e[i].key == key implies without_key(e, key)
                == e.remove(i) by {
                if i < n {
                    assert(e[i].key == key && e[n].key == key);
                }
                assert(e.remove(n) =~= d);
            }
        } else {
            if !has_key(e, key) {
                assert(!has_key(d, key)) by {
                    if has_key(d, key) {
                        let i = choose|i: int| 0 <= i < d.len() && #[trigger] d[i].key == key;
                        assert(e[i].key == key);
                    }
                }
                assert(d.push(e.last()) =~= e);
            }
            assert forall|i: int|
                0 <= i < e.len() && #[trigger] e[i].key == key implies without_key(e, key)
                == e.remove(i) by {
                assert(d[i].key == key);
                assert(d.remove(i).push(e.last()) =~= e.remove(i));
            }
        }
    } else {
        assert(!has_key(e, key));
    }
}

/// Setting a keyword keeps a list well formed.
pub proof fn lemma_with_keyword_well_formed(
    e: Seq<KeywordView>,
    key: Seq<u8>,
    value: Option<Seq<u8>>,
)
    requires
        well_formed(e),
        is_canonical_subtag(key),
        value matches Some(v) ==> is_canonical_subtag(v),
    ensures
        well_formed(with_keyword(e, key, value)),
        !has_key(without_key(e, key), key),
        well_formed(without_key(e, key)),
{
    lemma_without_key(e, key);
    let w = without_key(e, key);
    if has_key(e, key) {
        // the list without the key is what stands before its one keyword,
        // followed by what stands behind it
        let i = choose|i: int| 0 <= i < e.len() && #[trigger] e[i].key == key;
        let before = e.subrange(0, i);
        let behind = e.subrange(i + 1, e.len() as int);
        assert(w == before + behind);
        lemma_canonical_subtags_part(e, 0, i);
        lemma_canonical_subtags_part(e, i + 1, e.len() as int);
        lemma_canonical_subtags_add(before, behind);
        assert forall|j: int| 0 <= j < w.len() implies #[trigger] w[j] == e[if j < i {
            j
        } else {
            j + 1
        }] by {}
        assert(!has_key(w, key)) by {
            if has_key(w, key) {
                let j = choose|j: int| 0 <= j < w.len() && #[trigger] w[j].key == key;
                let j2 = if j < i {
                    j
                } else {
                    j + 1
                };
                assert(w[j] == e[j2]);
                assert(e[j2].key == key && e[i].key == key);
            }
        }
        assert(distinct_keys(w)) by {
            assert forall|a: int, b: int| 0 <= a < b < w.len() implies #[trigger] w[a].key
                != #[trigger] w[b].key by {
                let a2 = if a < i {
                    a
                } else {
                    a + 1
                };
                let b2 = if b < i {
                    b
                } else {
                    b + 1
                };
                assert(w[a] == e[a2] && w[b] == e[b2]);
            }
        }
    }
    let r = with_keyword(e, key, value);
    let last = seq![KeywordView { key, value }];
    assert(r =~= w + last);
    assert(canonical_subtags(last));
    lemma_canonical_subtags_add(w, last);
    assert(distinct_keys(r)) by {
        assert forall|a: int, b: int| 0 <= a < b < r.len() implies #[trigger] r[a].key
            != #[trigger] r[b].key by {
            if b == w.len() {
                assert(r[a] == w[a]);
                if r[a].key == key {
                    assert(w[a].key == key);
                }
            } else {
                assert(r[a] == w[a] && r[b] == w[b]);
            }
        }
    }
}

/// Under distinct keys, the value of a key is that of the one keyword under it.
pub proof fn lemma_value_of(e: Seq<KeywordView>, key: Seq<u8>)
    requires
        distinct_keys(e),
    ensures
        !has_key(e, key) ==> value_of(e, key) is None,
        forall|i: int|
            0 <= i < e.len() && #[trigger] e[i].key == key ==> value_of(e, key) == e[i].value,
    decreases e.len(),
{
    if e.len() > 0 {
        let d = e.drop_last();
        let n = e.len() - 1;
        lemma_distinct_keys_part(e, 0, e.len() - 1);
        lemma_value_of(d, key);
        if e.last().key == key {
            assert forall|i: int|
                0 <= i < e.len() && #[trigger] e[i].key == key implies value_of(e, key)
                == e[i].value by {
                if i < n {
                    assert(e[i].key == key && e[n].key == key);
                }
            }
            assert(e[n].key == key);
        } else {
            if !has_key(e, key) {
                assert(!has_key(d, key)) by {
                    if has_key(d, key) {
                        let i = choose|i: int| 0 <= i < d.len() && #[trigger] d[i].key == key;
                        assert(e[i].key == key);
                    }
                }
            }
            assert forall|i: int|
                0 <= i < e.len() && #[trigger] e[i].key == key implies value_of(e, key)
                == e[i].value by {
                assert(d[i].key == key);
            }
        }
    } else {
        assert(!has_key(e, key));
    }
}

/// After a key was set, the list holds the value under that key, and under
/// every other key what it held before.
pub proof fn lemma_value_after_set(
    e: Seq<KeywordView>,
    key: Seq<u8>,
    value: Option<Seq<u8>>,
    other: Seq<u8>,
)
    ensures
        has_key(with_keyword(e, key, value), key),
        value_of(with_keyword(e, key, value), key) == value,
        other != key ==> value_of(with_keyword(e, key, value), other) == value_of(e, other),
        other != key ==> (has_key(with_keyword(e, key, value), other) <==> has_key(e, other)),
{
    let w = without_key(e, key);
    let r = with_keyword(e, key, value);
    assert(r.last() == KeywordView { key, value });
    assert(r.drop_last() =~= w);
    assert(r[r.len() - 1].key == key);
    if other != key {
        lemma_without_other(e, key, other);
        if has_key(w, other) {
            let i = choose|i: int| 0 <= i < w.len() && #[trigger] w[i].key == other;
            assert(r[i].key == other);
        }
        if has_key(r, other) {
            let i = choose|i: int| 0 <= i < r.len() && #[trigger] r[i].key == other;
            assert(w[i].key == other);
        }
    }
}

/// Taking a key away leaves every other key with its value.
proof fn lemma_without_other(e: Seq<KeywordView>, key: Seq<u8>, other: Seq<u8>)
    requires
        other != key,
    ensures
        value_of(without_key(e, key), other) == value_of(e, other),
        has_key(without_key(e, key), other) <==> has_key(e, other),
    decreases e.len(),
{
    if e.len() > 0 {
        let d = e.drop_last();
        let n = e.len() - 1;
        lemma_without_other(d, key, other);
        let wd = without_key(d, key);
        let w = without_key(e, key);
        if e.last().key == key {
            if has_key(e, other) {
                let i = choose|i: int| 0 <= i < e.len() && #[trigger] e[i].key == other;
                assert(d[i].key == other);
            }
            if has_key(d, other) {
                let i = choose|i: int| 0 <= i < d.len() && #[trigger] d[i].key == other;
                assert(e[i].key == other);
            }
        } else {
            assert(w.last() == e.last());
            assert(w.drop_last() =~= wd);
            if has_key(e, other) {
                let i = choose|i: int| 0 <= i < e.len() && #[trigger] e[i].key == other;
                if i < n {
                    assert(d[i].key == other);
                    let j = choose|j: int| 0 <= j < wd.len() && #[trigger] wd[j].key == other;
                    assert(w[j].key == other);
                } else {
                    assert(w[w.len() - 1].key == other);
                }
            }
            if has_key(w, other) {
                let i = choose|i: int| 0 <= i < w.len() && #[trigger] w[i].key == other;
                if i < wd.len() {
                    assert(wd[i].key == other);
                    let j = choose|j: int| 0 <= j < d.len() && #[trigger] d[j].key == other;
                    assert(e[j].key == other);
                } else {
                    assert(e[n].key == other);
                }
            }
        }
    } else {
        assert(!has_key(e, other));
        assert(!has_key(without_key(e, key), other));
    }
}

/// The subtags of keywords that follow others are the subtags of the first
/// followed by those of the second.
pub proof fn lemma_keywords_tokens_add(a: Seq<KeywordView>, b: Seq<KeywordView>)
    ensures
        keywords_tokens(a + b) == keywords_tokens(a) + keywords_tokens(b),
    decreases b.len(),
{
    if b.len() == 0 {
        assert(a + b =~= a);
        assert(keywords_tokens(a) + keywords_tokens(b) =~= keywords_tokens(a));
    } else {
        assert((a + b).drop_last() =~= a + b.drop_last());
        lemma_keywords_tokens_add(a, b.drop_last());
        assert(keywords_tokens(a + b) =~= keywords_tokens(a) + keywords_tokens(b));
    }
}

/// The subtags of canonical keywords hold no separator, and none of them is
/// a singleton.
pub proof fn lemma_keywords_tokens_shape(e: Seq<KeywordView>)
    requires
        canonical_subtags(e),
    ensures
        all_separator_free(keywords_tokens(e)),
        no_singletons(keywords_tokens(e)),
        keywords_tokens(e).len() >= e.len(),
    decreases e.len(),
{
    if e.len() > 0 {
        let d = e.drop_last();
        lemma_canonical_subtags_part(e, 0, e.len() - 1);
        lemma_keywords_tokens_shape(d);
        let k = e.last();
        assert(is_canonical_subtag(e[e.len() - 1].key));
        lemma_canonical_subtag_shape(k.key);
        if k.value is Some {
            lemma_canonical_subtag_shape(k.value.unwrap());
        }
        let all = keywords_tokens(e);
        let head = keywords_tokens(d);
        assert forall|i: int| 0 <= i < all.len() implies !is_singleton(#[trigger] all[i])
            && separator_free(all[i]) by {
            if i < head.len() {
                assert(all[i] == head[i]);
            } else {
                assert(all[i] == keyword_tokens(k)[i - head.len()]);
            }
        }
    }
}

/// Reading the subtags of keywords gives the keywords back.
///
/// The keywords `e` are read after `acc`, and `rest` is what follows them in
/// the subtags: nothing, or the singleton of the next section.
pub proof fn lemma_parse_keywords_tokens(
    e: Seq<KeywordView>,
    acc: Seq<KeywordView>,
    rest: Seq<Seq<u8>>,
)
    requires
        canonical_subtags(e),
        distinct_keys(acc + e),
        values_before_last(e),
        rest.len() == 0 || is_singleton(rest[0]),
    ensures
        parse_keywords(keywords_tokens(e) + rest, acc) == Some(acc + e),
    decreases e.len(),
{
    let tokens = keywords_tokens(e) + rest;
    if e.len() == 0 {
        assert(tokens =~= rest);
        assert(acc + e =~= acc);
    } else {
        let k = e[0];
        let tail = e.drop_first();
        assert(e =~= seq![k] + tail);
        lemma_keywords_tokens_add(seq![k], tail);
        assert(keywords_tokens(seq![k]) =~= keyword_tokens(k)) by {
            assert(seq![k].drop_last() =~= Seq::<KeywordView>::empty());
            assert(keywords_tokens(Seq::<KeywordView>::empty()) =~= Seq::<Seq<u8>>::empty());
        }
        assert(tokens =~= keyword_tokens(k) + (keywords_tokens(tail) + rest));
        assert(is_canonical_subtag(e[0].key));
        lemma_canonical_subtag_shape(k.key);
        lemma_lower_canonical(k.key);
        // the key is new to `acc`, so setting it appends the keyword
        assert(distinct_keys(acc)) by {
            lemma_distinct_keys_part(acc + e, 0, acc.len() as int);
            assert((acc + e).subrange(0, acc.len() as int) =~= acc);
        }
        assert(!has_key(acc, k.key)) by {
            if has_key(acc, k.key) {
                let i = choose|i: int| 0 <= i < acc.len() && #[trigger] acc[i].key == k.key;
                assert((acc + e)[i] == acc[i]);
                assert((acc + e)[acc.len() as int] == k);
            }
        }
        lemma_without_key(acc, k.key);
        let next = acc.push(k);
        assert(next + tail =~= acc + e);
        lemma_canonical_subtags_part(e, 1, e.len() as int);
        lemma_values_before_last_tail(e, 1);
        lemma_keywords_tokens_shape(tail);
        let after = keywords_tokens(tail) + rest;
        match k.value {
            Some(v) => {
                lemma_canonical_subtag_shape(v);
                lemma_lower_canonical(v);
                assert(tokens[0] == k.key && tokens[1] == v);
                assert(tokens.skip(2) =~= after);
                assert(keyword_of(k.key, Some(v)) == Some(k));
                lemma_parse_keywords_tokens(tail, next, rest);
            },
            None => {
                // a keyword without a value is the last one
                assert(tail.len() == 0) by {
                    if tail.len() > 0 {
                        assert(e[0].value is Some);
                    }
                }
                assert(keywords_tokens(tail) =~= Seq::<Seq<u8>>::empty());
                assert(tokens =~= seq![k.key] + rest);
                assert(tokens[0] == k.key);
                if tokens.len() > 1 {
                    assert(tokens[1] == rest[0]);
                }
                assert(keyword_of(k.key, None) == Some(k));
                assert(next =~= acc + e);
            },
        }
    }
}

/// What is read from subtags is well formed, and only its last keyword can
/// be without a value.
pub proof fn lemma_parse_keywords_shape(tokens: Seq<Seq<u8>>, acc: Seq<KeywordView>)
    requires
        well_formed(acc),
        all_values(acc),
    ensures
        parse_keywords(tokens, acc) matches Some(e) ==> well_formed(e) && values_before_last(e),
    decreases tokens.len(),
{
    if tokens.len() == 0 || is_singleton(tokens[0]) {
    } else {
        let value = if tokens.len() == 1 || is_singleton(tokens[1]) {
            None
        } else {
            Some(tokens[1])
        };
        match keyword_of(tokens[0], value) {
            Some(k) => {
                lemma_lower_canonical(tokens[0]);
                if value is Some {
                    lemma_lower_canonical(value.unwrap());
                }
                lemma_with_keyword_well_formed(acc, k.key, k.value);
                lemma_without_key(acc, k.key);
                let w = without_key(acc, k.key);
                let next = with_keyword(acc, k.key, k.value);
                assert(all_values(w)) by {
                    if has_key(acc, k.key) {
                        let i = choose|i: int| 0 <= i < acc.len() && #[trigger] acc[i].key == k.key;
                        assert(w == acc.remove(i));
                        assert forall|j: int| 0 <= j < w.len() implies (#[trigger] w[j]).value
                            is Some by {
                            let j2 = if j < i {
                                j
                            } else {
                                j + 1
                            };
                            assert(w[j] == acc[j2]);
                        }
                    }
                }
                assert forall|j: int| 0 <= j < next.len() - 1 implies (#[trigger] next[j]).value
                    is Some by {
                    assert(next[j] == w[j]);
                }
                if value is Some {
                    assert(all_values(next)) by {
                        assert forall|j: int| 0 <= j < next.len() implies (
                        #[trigger] next[j]).value is Some by {
                            if j < w.len() {
                                assert(next[j] == w[j]);
                            }
                        }
                    }
                    lemma_parse_keywords_shape(tokens.skip(2), next);
                }
            },
            None => {},
        }
    }
}

} // verus!
