//! Subtags: the pieces of a locale string between separators.

use vstd::prelude::*;
use vstd::slice::slice_subrange;
use vstd::string::StringSliceAdditionalSpecFns;
use vstd::utf8::{encode_utf8, is_ascii_chars, is_ascii_chars_encode_utf8};

verus! {

/// The hyphen, `-`, which separates subtags and stands before each subtag
/// in canonical text.
pub const HYPHEN: u8 = 0x2d;

/// The underscore, `_`, which separates subtags too.
pub const UNDERSCORE: u8 = 0x5f;

/// Is the byte one of the two subtag separators, `-` and `_`?
pub open spec fn is_separator(b: u8) -> bool {
    b == HYPHEN || b == UNDERSCORE
}

/// The number of bytes before the first separator of `s`.
pub open spec fn first_len(s: Seq<u8>) -> nat
    decreases s.len(),
{
    if s.len() == 0 || is_separator(s[0]) {
        0
    } else {
        1 + first_len(s.drop_first())
    }
}

/// The subtags of `s`: the runs of bytes between separators, empty runs included.
/// A text with `n` separators has `n + 1` subtags.
pub open spec fn split(s: Seq<u8>) -> Seq<Seq<u8>>
    decreases s.len(),
{
    let n = first_len(s) as int;
    if n >= s.len() {
        seq![s]
    } else {
        seq![s.subrange(0, n)] + split(s.subrange(n + 1, s.len() as int))
    }
}

/// Is `t` a singleton: a subtag of one byte, which opens an extension section?
pub open spec fn is_singleton(t: Seq<u8>) -> bool {
    t.len() == 1
}

/// The number of subtags before the first singleton of `tokens`: the length
/// of the section that `tokens` begins with.
pub open spec fn section_len(tokens: Seq<Seq<u8>>) -> nat
    decreases tokens.len(),
{
    if tokens.len() == 0 || is_singleton(tokens[0]) {
        0
    } else {
        1 + section_len(tokens.drop_first())
    }
}

/// What follows the section that `tokens` begins with: nothing, or a
/// singleton and the rest.
pub open spec fn after_section(tokens: Seq<Seq<u8>>) -> Seq<Seq<u8>> {
    tokens.skip(section_len(tokens) as int)
}

/// The ASCII lowercase form of a byte: `A`–`Z`, the bytes from 0x41 to 0x5a,
/// move to `a`–`z`, and all else stays.
pub open spec fn ascii_lower(b: u8) -> u8 {
    if 0x41 <= b <= 0x5a {
        (b + 0x20) as u8
    } else {
        b
    }
}

/// Is the byte an ASCII lowercase letter, from 0x61 to 0x7a, or a digit,
/// from 0x30 to 0x39?
pub open spec fn is_lower_alphanumeric(b: u8) -> bool {
    (0x61 <= b <= 0x7a) || (0x30 <= b <= 0x39)
}

/// Is the byte an ASCII letter or a digit?
pub open spec fn is_alphanumeric(b: u8) -> bool {
    is_lower_alphanumeric(ascii_lower(b))
}

/// The least number of bytes of a key or a value of an extension. A subtag
/// of one byte is a singleton, which opens a section.
pub const MIN_SUBTAG_LEN: usize = 2;

/// The greatest number of bytes of a key or a value of an extension.
pub const MAX_SUBTAG_LEN: usize = 8;

/// Can `t` stand as a key or a value in an extension section?
/// It does when it holds two to eight ASCII letters and digits.
pub open spec fn is_subtag(t: Seq<u8>) -> bool {
    &&& MIN_SUBTAG_LEN <= t.len() <= MAX_SUBTAG_LEN
    &&& forall|i: int| 0 <= i < t.len() ==> is_alphanumeric(#[trigger] t[i])
}

/// `t` with each byte in ASCII lowercase.
pub open spec fn lower(t: Seq<u8>) -> Seq<u8> {
    Seq::new(t.len(), |i: int| ascii_lower(t[i]))
}

/// Is `t` a subtag as the extensions store it: well formed and in lowercase?
pub open spec fn is_canonical_subtag(t: Seq<u8>) -> bool {
    &&& MIN_SUBTAG_LEN <= t.len() <= MAX_SUBTAG_LEN
    &&& forall|i: int| 0 <= i < t.len() ==> is_lower_alphanumeric(#[trigger] t[i])
}

/// Is `b` in lowercase: without an ASCII capital letter?
pub open spec fn is_lowercase(b: Seq<u8>) -> bool {
    forall|i: int| 0 <= i < b.len() ==> ascii_lower(#[trigger] b[i]) == b[i]
}

/// The text of `tokens`: each subtag behind a hyphen.
pub open spec fn hyphenated(tokens: Seq<Seq<u8>>) -> Seq<u8>
    decreases tokens.len(),
{
    if tokens.len() == 0 {
        Seq::empty()
    } else {
        hyphenated(tokens.drop_last()) + seq![HYPHEN] + tokens.last()
    }
}

/// The text of an extension section: nothing if the section holds no subtag,
/// else the singleton and the subtags, each behind a hyphen.
pub open spec fn section_text(singleton: u8, tokens: Seq<Seq<u8>>) -> Seq<u8> {
    if tokens.len() == 0 {
        Seq::empty()
    } else {
        hyphenated(seq![seq![singleton]] + tokens)
    }
}

/// Is every byte of `b` an ASCII character?
pub open spec fn is_ascii_bytes(b: Seq<u8>) -> bool {
    forall|i: int| 0 <= i < b.len() ==> #[trigger] b[i] < 0x80
}

/// The characters that bytes stand for, one for each byte. For ASCII bytes
/// these are the characters that the bytes spell.
pub open spec fn ascii_chars(b: Seq<u8>) -> Seq<char> {
    Seq::new(b.len(), |i: int| b[i] as char)
}

/// The view of an optional byte vector.
pub open spec fn option_vec(v: Option<Vec<u8>>) -> Option<Seq<u8>> {
    match v {
        Some(b) => Some(b@),
        None => None,
    }
}

/// The view of an optional byte string.
pub open spec fn option_bytes(v: Option<&[u8]>) -> Option<Seq<u8>> {
    match v {
        Some(b) => Some(b@),
        None => None,
    }
}

/// The bytes of an optional string.
pub open spec fn option_str(v: Option<&str>) -> Option<Seq<u8>> {
    match v {
        Some(s) => Some(s.spec_bytes()),
        None => None,
    }
}

/// The lowercase form of a byte.
pub fn to_ascii_lower(b: u8) -> (r: u8)
    ensures
        r == ascii_lower(b),
{
    if 0x41 <= b && b <= 0x5a {
        b + 0x20
    } else {
        b
    }
}

/// Checks that `t` is a well-formed subtag and returns it in lowercase.
pub fn normalize_subtag(t: &[u8]) -> (r: Option<Vec<u8>>)
    ensures
        match r {
            Some(v) => is_subtag(t@) && v@ == lower(t@),
            None => !is_subtag(t@),
        },
{
    let n = t.len();
    if n < MIN_SUBTAG_LEN || n > MAX_SUBTAG_LEN {
        return None;
    }
    let mut out: Vec<u8> = Vec::new();
    let mut i: usize = 0;
    while i < n
        invariant
            i <= n,
            n == t@.len(),
            out@.len() == i,
            forall|j: int| 0 <= j < i ==> is_alphanumeric(#[trigger] t@[j]),
            forall|j: int| 0 <= j < i ==> out@[j] == ascii_lower(t@[j]),
        decreases n - i,
    {
        let b = to_ascii_lower(t[i]);
        if !((0x61 <= b && b <= 0x7a) || (0x30 <= b && b <= 0x39)) {
            assert(!is_alphanumeric(t@[i as int]));
            return None;
        }
        out.push(b);
        i = i + 1;
    }
    assert(out@ =~= lower(t@));
    Some(out)
}

/// The end of the subtag that starts at `start`: the place of the next
/// separator, or the end of `bytes`.
pub(crate) fn subtag_end(bytes: &[u8], start: usize) -> (end: usize)
    requires
        start <= bytes@.len(),
    ensures
        start <= end <= bytes@.len(),
        end - start == first_len(bytes@.subrange(start as int, bytes@.len() as int)),
{
    let len = bytes.len();
    let mut end: usize = start;
    while end < len && !(bytes[end] == HYPHEN || bytes[end] == UNDERSCORE)
        invariant
            start <= end <= len,
            len == bytes@.len(),
            forall|j: int| start <= j < end ==> !is_separator(#[trigger] bytes@[j]),
        decreases len - end,
    {
        end = end + 1;
    }
    proof {
        let rest = bytes@.subrange(start as int, len as int);
        assert forall|j: int| 0 <= j < end - start implies !is_separator(#[trigger] rest[j]) by {
            assert(rest[j] == bytes@[start + j]);
        }
        lemma_first_len(rest, end - start);
    }
    end
}

/// Are two byte strings the same?
pub fn bytes_eq(a: &[u8], b: &[u8]) -> (r: bool)
    ensures
        r == (a@ == b@),
{
    if a.len() != b.len() {
        return false;
    }
    let n = a.len();
    let mut i: usize = 0;
    while i < n
        invariant
            i <= n,
            n == a@.len(),
            n == b@.len(),
            forall|j: int| 0 <= j < i ==> a@[j] == b@[j],
        decreases n - i,
    {
        if a[i] != b[i] {
            return false;
        }
        i = i + 1;
    }
    assert(a@ =~= b@);
    true
}

/// Appends a hyphen and `t` to `out`.
pub fn push_subtag(out: &mut Vec<u8>, t: &[u8])
    ensures
        final(out)@ == old(out)@ + seq![HYPHEN] + t@,
        is_ascii_bytes(old(out)@) && is_ascii_bytes(t@) ==> is_ascii_bytes(final(out)@),
{
    out.push(HYPHEN);
    let n = t.len();
    let mut i: usize = 0;
    while i < n
        invariant
            i <= n,
            n == t@.len(),
            out@ == old(out)@ + seq![HYPHEN] + t@.take(i as int),
        decreases n - i,
    {
        out.push(t[i]);
        assert(t@.take(i + 1) =~= t@.take(i as int).push(t@[i as int]));
        i = i + 1;
    }
    assert(t@.take(n as int) =~= t@);
}

/// `String::push` appends one character to the string.
pub assume_specification[ String::push ](s: &mut String, ch: char)
    ensures
        final(s)@ == old(s)@.push(ch),
;

/// The string of the characters that bytes stand for.
pub fn ascii_string(b: &[u8]) -> (r: String)
    ensures
        r@ == ascii_chars(b@),
{
    let mut r = String::new();
    let n = b.len();
    let mut i: usize = 0;
    while i < n
        invariant
            i <= n,
            n == b@.len(),
            r@ == ascii_chars(b@.take(i as int)),
        decreases n - i,
    {
        r.push(b[i] as char);
        assert(ascii_chars(b@.take(i + 1)) =~= ascii_chars(b@.take(i as int)).push(
            b@[i as int] as char,
        ));
        i = i + 1;
    }
    assert(b@.take(n as int) =~= b@);
    r
}

/// A cursor over the subtags of a byte string, with one subtag of lookahead.
pub struct SubtagIterator<'a> {
    bytes: &'a [u8],
    pos: usize,
    done: bool,
}

impl<'a> SubtagIterator<'a> {
    #[verifier::type_invariant]
    spec fn inv(self) -> bool {
        self.pos <= self.bytes@.len()
    }

    /// The subtags that are still to come, in order.
    pub closed spec fn remaining(self) -> Seq<Seq<u8>> {
        if self.done || self.pos > self.bytes@.len() {
            Seq::empty()
        } else {
            split(self.bytes@.subrange(self.pos as int, self.bytes@.len() as int))
        }
    }

    /// A cursor at the start of `bytes`.
    pub fn new(bytes: &'a [u8]) -> (it: Self)
        ensures
            it.remaining() == split(bytes@),
    {
        assert(bytes@.subrange(0, bytes@.len() as int) =~= bytes@);
        SubtagIterator { bytes, pos: 0, done: false }
    }

    /// The next subtag, which stays in place.
    pub fn peek(&self) -> (r: Option<&'a [u8]>)
        ensures
            match r {
                Some(t) => self.remaining().len() > 0 && t@ == self.remaining()[0],
                None => self.remaining().len() == 0,
            },
    {
        proof {
            use_type_invariant(self);
        }
        if self.done {
            return None;
        }
        let end = subtag_end(self.bytes, self.pos);
        let bytes: &'a [u8] = self.bytes;
        let t = slice_subrange(bytes, self.pos, end);
        proof {
            let rest = self.bytes@.subrange(self.pos as int, self.bytes@.len() as int);
            assert(rest.subrange(0, end - self.pos) =~= t@);
        }
        Some(t)
    }

    /// Does the section that the cursor stands in end here: at a singleton or
    /// at the end of the subtags?
    pub fn at_section_end(&self) -> (r: bool)
        ensures
            r == (self.remaining().len() == 0 || is_singleton(self.remaining()[0])),
    {
        match self.peek() {
            None => true,
            Some(t) => t.len() == 1,
        }
    }

    /// Takes the next subtag.
    pub fn next(&mut self) -> (r: Option<&'a [u8]>)
        ensures
            match r {
                Some(t) => old(self).remaining().len() > 0 && t@ == old(self).remaining()[0]
                    && final(self).remaining() == old(self).remaining().drop_first(),
                None => old(self).remaining().len() == 0 && final(self).remaining().len() == 0,
            },
    {
        proof {
            use_type_invariant(&*self);
        }
        if self.done {
            return None;
        }
        let end = subtag_end(self.bytes, self.pos);
        let bytes: &'a [u8] = self.bytes;
        let len = bytes.len();
        let t = slice_subrange(bytes, self.pos, end);
        proof {
            let rest = bytes@.subrange(self.pos as int, len as int);
            assert(rest.subrange(0, end - self.pos) =~= t@);
            if end < len {
                assert(rest.subrange(end - self.pos + 1, rest.len() as int) =~= bytes@.subrange(
                    end + 1,
                    len as int,
                ));
                assert(split(rest).drop_first() =~= split(bytes@.subrange(end + 1, len as int)));
            } else {
                assert(split(rest).drop_first() =~= Seq::<Seq<u8>>::empty());
            }
        }
        if end < len {
            self.pos = end + 1;
        } else {
            self.done = true;
        }
        Some(t)
    }
}

/// Does `t` hold no separator?
pub open spec fn separator_free(t: Seq<u8>) -> bool {
    forall|i: int| 0 <= i < t.len() ==> !is_separator(#[trigger] t[i])
}

/// Are all of `tokens` without a separator?
pub open spec fn all_separator_free(tokens: Seq<Seq<u8>>) -> bool {
    forall|i: int| 0 <= i < tokens.len() ==> separator_free(#[trigger] tokens[i])
}

/// Are none of `tokens` singletons?
pub open spec fn no_singletons(tokens: Seq<Seq<u8>>) -> bool {
    forall|i: int| 0 <= i < tokens.len() ==> !is_singleton(#[trigger] tokens[i])
}

/// `first_len` is the one index that no separator precedes and that a
/// separator or the end of the text follows.
pub proof fn lemma_first_len(s: Seq<u8>, n: int)
    requires
        0 <= n <= s.len(),
        forall|j: int| 0 <= j < n ==> !is_separator(#[trigger] s[j]),
        n == s.len() || is_separator(s[n]),
    ensures
        first_len(s) == n,
    decreases s.len(),
{
    if n > 0 {
        let t = s.drop_first();
        assert forall|j: int| 0 <= j < n - 1 implies !is_separator(#[trigger] t[j]) by {
            assert(t[j] == s[j + 1]);
        }
        lemma_first_len(t, n - 1);
    }
}

/// No separator stands before `first_len`, and one stands at it unless the
/// text ends there.
pub proof fn lemma_first_len_bounds(s: Seq<u8>)
    ensures
        first_len(s) <= s.len(),
        forall|j: int| 0 <= j < first_len(s) ==> !is_separator(#[trigger] s[j]),
        first_len(s) < s.len() ==> is_separator(s[first_len(s) as int]),
    decreases s.len(),
{
    if !(s.len() == 0 || is_separator(s[0])) {
        let t = s.drop_first();
        lemma_first_len_bounds(t);
        assert forall|j: int| 0 <= j < first_len(s) implies !is_separator(#[trigger] s[j]) by {
            if j > 0 {
                assert(s[j] == t[j - 1]);
            }
        }
    }
}

/// A text without separators is its own single subtag.
pub proof fn lemma_split_one(t: Seq<u8>)
    requires
        separator_free(t),
    ensures
        split(t) == seq![t],
{
    lemma_first_len(t, t.len() as int);
}

/// Splitting takes a text apart at each separator: the subtags of two texts
/// joined by a separator are the subtags of the first and those of the second.
pub proof fn lemma_split_joined(a: Seq<u8>, sep: u8, b: Seq<u8>)
    requires
        is_separator(sep),
    ensures
        split(a + seq![sep] + b) == split(a) + split(b),
    decreases a.len(),
{
    let whole = a + seq![sep] + b;
    let n = first_len(a) as int;
    lemma_first_len_bounds(a);
    assert forall|j: int| 0 <= j < n implies !is_separator(#[trigger] whole[j]) by {
        assert(whole[j] == a[j]);
    }
    if n < a.len() {
        assert(whole[n] == a[n]);
        lemma_first_len(whole, n);
        let a2 = a.subrange(n + 1, a.len() as int);
        assert(whole.subrange(n + 1, whole.len() as int) =~= a2 + seq![sep] + b);
        assert(whole.subrange(0, n) =~= a.subrange(0, n));
        lemma_split_joined(a2, sep, b);
        assert(split(whole) =~= split(a) + split(b));
    } else {
        assert(whole[n] == sep);
        lemma_first_len(whole, n);
        assert(whole.subrange(n + 1, whole.len() as int) =~= b);
        assert(whole.subrange(0, n) =~= a);
        assert(split(whole) =~= split(a) + split(b));
    }
}

/// A part of subtags without a separator is without a separator.
pub proof fn lemma_separator_free_part(tokens: Seq<Seq<u8>>, from: int, to: int)
    requires
        all_separator_free(tokens),
        0 <= from <= to <= tokens.len(),
    ensures
        all_separator_free(tokens.subrange(from, to)),
{
    let part = tokens.subrange(from, to);
    assert forall|i: int| 0 <= i < part.len() implies separator_free(#[trigger] part[i]) by {
        assert(part[i] == tokens[from + i]);
    }
}

/// Splitting undoes hyphenation: the text of subtags splits into an empty
/// subtag, which stands before the first hyphen, and the subtags.
pub proof fn lemma_split_hyphenated(tokens: Seq<Seq<u8>>)
    requires
        all_separator_free(tokens),
    ensures
        split(hyphenated(tokens)) == seq![Seq::<u8>::empty()] + tokens,
    decreases tokens.len(),
{
    if tokens.len() == 0 {
        lemma_split_one(Seq::<u8>::empty());
        assert(split(hyphenated(tokens)) =~= seq![Seq::<u8>::empty()] + tokens);
    } else {
        let d = tokens.drop_last();
        lemma_separator_free_part(tokens, 0, tokens.len() - 1);
        lemma_split_hyphenated(d);
        assert(separator_free(tokens.last()));
        lemma_split_one(tokens.last());
        lemma_split_joined(hyphenated(d), HYPHEN, tokens.last());
        assert(seq![Seq::<u8>::empty()] + d + seq![tokens.last()] =~= seq![Seq::<u8>::empty()]
            + tokens);
    }
}

/// A section ends before the end of the subtags.
pub proof fn lemma_section_len_bound(tokens: Seq<Seq<u8>>)
    ensures
        section_len(tokens) <= tokens.len(),
        !(tokens.len() == 0 || is_singleton(tokens[0])) ==> after_section(tokens)
            == after_section(tokens.drop_first()),
        after_section(tokens).len() == 0 || is_singleton(after_section(tokens)[0]),
    decreases tokens.len(),
{
    if !(tokens.len() == 0 || is_singleton(tokens[0])) {
        let rest = tokens.drop_first();
        lemma_section_len_bound(rest);
        assert(tokens.skip(1 + section_len(rest) as int) =~= rest.skip(section_len(rest) as int));
    } else {
        assert(tokens.skip(0) =~= tokens);
    }
}

/// Subtags that are no singletons, followed by a singleton or by nothing, are
/// one section, and what follows them is what follows the section.
pub proof fn lemma_after_section(tokens: Seq<Seq<u8>>, rest: Seq<Seq<u8>>)
    requires
        no_singletons(tokens),
        rest.len() == 0 || is_singleton(rest[0]),
    ensures
        after_section(tokens + rest) == rest,
    decreases tokens.len(),
{
    if tokens.len() == 0 {
        assert(tokens + rest =~= rest);
        assert(rest.skip(0) =~= rest);
    } else {
        let all = tokens + rest;
        assert(all[0] == tokens[0]);
        let d = tokens.drop_first();
        assert(no_singletons(d)) by {
            assert forall|i: int| 0 <= i < d.len() implies !is_singleton(#[trigger] d[i]) by {
                assert(d[i] == tokens[i + 1]);
            }
        }
        assert(all.drop_first() =~= d + rest);
        lemma_after_section(d, rest);
        lemma_section_len_bound(all);
    }
}

/// Lowercasing a well-formed subtag gives a canonical one, and leaves a
/// canonical one as it is.
pub proof fn lemma_lower_canonical(t: Seq<u8>)
    ensures
        is_subtag(t) ==> is_canonical_subtag(lower(t)),
        is_canonical_subtag(t) ==> is_subtag(t) && lower(t) == t,
{
    if is_subtag(t) {
        assert forall|i: int| 0 <= i < lower(t).len() implies is_lower_alphanumeric(
            #[trigger] lower(t)[i],
        ) by {
            assert(is_alphanumeric(t[i]));
        }
    }
    if is_canonical_subtag(t) {
        assert forall|i: int| 0 <= i < t.len() implies is_alphanumeric(#[trigger] t[i]) by {
            assert(is_lower_alphanumeric(t[i]));
        }
        assert(lower(t) =~= t) by {
            assert forall|i: int| 0 <= i < t.len() implies lower(t)[i] == t[i] by {
                assert(is_lower_alphanumeric(t[i]));
            }
        }
    }
}

/// A canonical subtag holds no separator and is no singleton.
pub proof fn lemma_canonical_subtag_shape(t: Seq<u8>)
    requires
        is_canonical_subtag(t),
    ensures
        separator_free(t),
        !is_singleton(t),
        is_ascii_bytes(t),
{
    assert forall|i: int| 0 <= i < t.len() implies !is_separator(#[trigger] t[i]) by {
        assert(is_lower_alphanumeric(t[i]));
    }
    assert forall|i: int| 0 <= i < t.len() implies #[trigger] t[i] < 0x80 by {
        assert(is_lower_alphanumeric(t[i]));
    }
}

/// The text of subtags in lowercase is in lowercase.
pub proof fn lemma_hyphenated_lowercase(tokens: Seq<Seq<u8>>)
    requires
        forall|i: int| 0 <= i < tokens.len() ==> is_lowercase(#[trigger] tokens[i]),
    ensures
        is_lowercase(hyphenated(tokens)),
    decreases tokens.len(),
{
    if tokens.len() > 0 {
        let d = tokens.drop_last();
        assert forall|i: int| 0 <= i < d.len() implies is_lowercase(#[trigger] d[i]) by {
            assert(d[i] == tokens[i]);
        }
        lemma_hyphenated_lowercase(d);
        let head = hyphenated(d);
        let last = tokens.last();
        assert(is_lowercase(last));
        let text = hyphenated(tokens);
        assert forall|i: int| 0 <= i < text.len() implies ascii_lower(#[trigger] text[i])
            == text[i] by {
            if i < head.len() {
                assert(text[i] == head[i]);
            } else if i > head.len() {
                assert(text[i] == last[i - head.len() - 1]);
            }
        }
    }
}

/// The text of one subtag is a hyphen and the subtag.
pub proof fn lemma_hyphenated_one(t: Seq<u8>)
    ensures
        hyphenated(seq![t]) == seq![HYPHEN] + t,
{
    reveal_with_fuel(hyphenated, 2);
    assert(seq![t].drop_last() =~= Seq::<Seq<u8>>::empty());
    assert(hyphenated(seq![t]) =~= seq![HYPHEN] + t);
}

/// The text of subtags that follow others is the text of the first followed
/// by the text of the second.
pub proof fn lemma_hyphenated_add(a: Seq<Seq<u8>>, b: Seq<Seq<u8>>)
    ensures
        hyphenated(a + b) == hyphenated(a) + hyphenated(b),
    decreases b.len(),
{
    if b.len() == 0 {
        assert(a + b =~= a);
        assert(hyphenated(a) + hyphenated(b) =~= hyphenated(a));
    } else {
        assert((a + b).drop_last() =~= a + b.drop_last());
        lemma_hyphenated_add(a, b.drop_last());
        assert(hyphenated(a + b) =~= hyphenated(a) + hyphenated(b));
    }
}

/// ASCII bytes are the UTF-8 encoding of the characters that they stand for.
pub proof fn lemma_ascii_bytes(b: Seq<u8>)
    requires
        is_ascii_bytes(b),
    ensures
        encode_utf8(ascii_chars(b)) == b,
{
    let chars = ascii_chars(b);
    assert(is_ascii_chars(chars)) by {
        assert forall|i: int| 0 <= i < chars.len() implies '\0' <= #[trigger] chars[i]
            <= '\u{7f}' by {
            assert(b[i] < 0x80);
        }
    }
    is_ascii_chars_encode_utf8(chars);
    assert(encode_utf8(chars) =~= b) by {
        assert forall|i: int| 0 <= i < b.len() implies encode_utf8(chars)[i] == b[i] by {
            assert(chars[i] as u8 == encode_utf8(chars)[i]);
            assert(b[i] < 0x80);
        }
    }
}

} // verus!
