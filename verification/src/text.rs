//! Texts as sequences of characters: the vocabulary of the other modules.
//!
//! A text is modelled by the sequence of its characters (`s@`). Each executable function
//! stands next to the specification function that says what it computes.
use vstd::prelude::*;
use vstd::utf8::*;

verus! {

// ---------------------------------------------------------------------------
// UTF-8 encodings and positions
// ---------------------------------------------------------------------------

/// `String::push` adds one character at the end of the text.
pub assume_specification[ std::string::String::push ](s: &mut std::string::String, c: char)
    ensures
        final(s)@ == old(s)@.push(c),
;

/// `char::from_u32` gives the character with the code point `v`, where `v` is a Unicode scalar
/// value, and `None` elsewhere.
pub assume_specification[ char::from_u32 ](v: u32) -> (r: Option<char>)
    ensures
        match r {
            Some(c) => is_scalar(v) && c as u32 == v,
            None => !is_scalar(v),
        },
;

/// Each character has a code point.
pub proof fn lemma_char_bound(c: char)
    ensures
        '\0' <= c,
{
}

/// The encoding of a concatenation is the concatenation of the encodings.
pub proof fn lemma_encode_concat(a: Seq<char>, b: Seq<char>)
    ensures
        encode_utf8(a + b) == encode_utf8(a) + encode_utf8(b),
    decreases a.len(),
{
    if a.len() == 0 {
        assert(a + b == b);
    } else {
        assert((a + b).drop_first() == a.drop_first() + b);
        lemma_encode_concat(a.drop_first(), b);
    }
}

/// Texts with the same encoding are equal.
pub proof fn lemma_encode_injective(a: Seq<char>, b: Seq<char>)
    requires
        encode_utf8(a) == encode_utf8(b),
    ensures
        a == b,
{
    encode_utf8_decode_utf8(a);
    encode_utf8_decode_utf8(b);
}

/// The end of the encoding of a prefix is a character boundary.
proof fn lemma_prefix_is_boundary(s: Seq<char>, n: int)
    requires
        0 <= n <= s.len(),
    ensures
        is_char_boundary(encode_utf8(s), encode_utf8(s.take(n)).len() as int),
    decreases n,
{
    encode_utf8_valid_utf8(s);
    if n > 0 {
        let rest = s.drop_first();
        encode_utf8_first_scalar(s);
        assert(pop_first_scalar(encode_utf8(s)) == encode_utf8(rest));
        assert(s.take(n).drop_first() == rest.take(n - 1));
        lemma_prefix_is_boundary(rest, n - 1);
    }
}

/// The number of bytes in the UTF-8 encoding of `c`.
pub open spec fn width(c: char) -> nat {
    encode_scalar(c as u32).len()
}

/// Adding a character at the end adds its width to the encoded length.
pub proof fn lemma_encode_push(s: Seq<char>, c: char)
    ensures
        encode_utf8(s.push(c)).len() == encode_utf8(s).len() + width(c),
{
    lemma_encode_concat(s, seq![c]);
    assert(s.push(c) == s + seq![c]);
    assert(encode_utf8(seq![c]) == encode_scalar(c as u32)) by {
        assert(seq![c].drop_first() == Seq::<char>::empty());
        assert(encode_utf8(Seq::<char>::empty()) == Seq::<u8>::empty());
        assert(encode_scalar(c as u32) + Seq::<u8>::empty() == encode_scalar(c as u32));
    }
}

/// The encoding of an ASCII character is one byte; that of another one has no ASCII byte.
pub proof fn lemma_encode_char(c: char)
    ensures
        c <= '\u{7f}' ==> encode_scalar(c as u32) == seq![c as u8],
        c > '\u{7f}' ==> forall|i: int|
            0 <= i < encode_scalar(c as u32).len() ==> #[trigger] encode_scalar(c as u32)[i] >= 0x80,
{
    let v = c as u32;
    char_is_scalar(c);
    if v <= 0x7f {
        assert((v & 0x7f) as u8 == v as u8) by (bit_vector)
            requires
                v <= 0x7f,
        ;
    } else {
        assert(0xC0u8 | ((v >> 6) & 0x1F) as u8 >= 0x80u8) by (bit_vector);
        assert(0xE0u8 | ((v >> 12) & 0x0F) as u8 >= 0x80u8) by (bit_vector);
        assert(0xF0u8 | ((v >> 18) & 0x7) as u8 >= 0x80u8) by (bit_vector);
        assert(0x80u8 | (v & 0x3F) as u8 >= 0x80u8) by (bit_vector);
        assert(0x80u8 | ((v >> 6) & 0x3F) as u8 >= 0x80u8) by (bit_vector);
        assert(0x80u8 | ((v >> 12) & 0x3F) as u8 >= 0x80u8) by (bit_vector);
    }
}

/// The byte of an ASCII character that does not occur in a text does not occur in its encoding.
pub proof fn lemma_encode_lacks(s: Seq<char>, c: char)
    requires
        c <= '\u{7f}',
        !s.contains(c),
    ensures
        !encode_utf8(s).contains(c as u8),
    decreases s.len(),
{
    if s.len() > 0 {
        let rest = s.drop_first();
        assert(s[0] != c);
        assert forall|j: int| 0 <= j < rest.len() implies rest[j] != c by {
            assert(rest[j] == s[j + 1]);
        }
        lemma_encode_lacks(rest, c);
        lemma_encode_char(s[0]);
        lemma_char_bound(s[0]);
        lemma_char_bound(c);
        let head = encode_scalar(s[0] as u32);
        let all = encode_utf8(s);
        assert forall|i: int| 0 <= i < all.len() implies all[i] != c as u8 by {
            if i < head.len() {
                assert(all[i] == head[i]);
            } else {
                assert(all[i] == encode_utf8(rest)[i - head.len()]);
            }
        }
    }
}

/// The encoding of each character of a text is a part of the encoding of the text.
pub proof fn lemma_encode_holds(s: Seq<char>, i: int, j: int)
    requires
        0 <= i < s.len(),
        0 <= j < encode_scalar(s[i] as u32).len(),
    ensures
        encode_utf8(s).contains(encode_scalar(s[i] as u32)[j]),
{
    let x = encode_scalar(s[i] as u32)[j];
    let head = s.take(i);
    let tail = s.skip(i);
    assert(s == head + tail);
    lemma_encode_concat(head, tail);
    assert(encode_utf8(tail)[j] == x);
    assert(encode_utf8(s)[encode_utf8(head).len() + j] == x);
}

/// A prefix has no longer an encoding than the whole text.
proof fn lemma_prefix_encoding_bounded(s: Seq<char>, n: int)
    requires
        0 <= n <= s.len(),
    ensures
        encode_utf8(s.take(n)).len() <= encode_utf8(s).len(),
{
    assert(s == s.take(n) + s.skip(n));
    lemma_encode_concat(s.take(n), s.skip(n));
}

/// The number of bytes in the UTF-8 encoding of `c`.
pub fn char_width(c: char) -> (n: usize)
    ensures
        n == width(c),
        1 <= n <= 4,
{
    let v: u32 = c as u32;
    if v <= 0x7f {
        1
    } else if v <= 0x7ff {
        2
    } else if v <= 0xffff {
        3
    } else {
        4
    }
}

/// The characters of `s`.
pub fn chars_of(s: &str) -> (r: Vec<char>)
    ensures
        r@ == s@,
{
    let mut out: Vec<char> = Vec::new();
    for c in it: s.chars()
        invariant
            out@ == it.seq().take(it.index() as int),
            it.seq() == s@,
    {
        out.push(c);
    }
    assert(s@.take(s@.len() as int) == s@);
    out
}

/// Splits `s` after its first `n` characters.
pub fn split_at_char<'a>(s: &'a str, n: usize) -> (r: (&'a str, &'a str))
    requires
        n <= s@.len(),
    ensures
        r.0@ == s@.take(n as int),
        r.1@ == s@.skip(n as int),
{
    let total: usize = s.as_bytes().len();
    let chars = chars_of(s);
    let mut offset: usize = 0;
    let mut i: usize = 0;
    while i < n
        invariant
            i <= n <= chars@.len(),
            chars@ == s@,
            total == encode_utf8(s@).len(),
            offset == encode_utf8(s@.take(i as int)).len(),
        decreases n - i,
    {
        proof {
            lemma_encode_push(s@.take(i as int), s@[i as int]);
            assert(s@.take(i + 1) == s@.take(i as int).push(s@[i as int]));
            lemma_prefix_encoding_bounded(s@, i + 1);
        }
        offset = offset + char_width(chars[i]);
        i = i + 1;
    }
    proof {
        lemma_prefix_is_boundary(s@, n as int);
        assert(s@ == s@.take(n as int) + s@.skip(n as int));
        lemma_encode_concat(s@.take(n as int), s@.skip(n as int));
    }
    let parts = s.split_at(offset);
    proof {
        let head = s@.take(n as int);
        let tail = s@.skip(n as int);
        assert(encode_utf8(s@).subrange(0, offset as int) == encode_utf8(head));
        assert(encode_utf8(s@).subrange(offset as int, total as int) == encode_utf8(tail));
        lemma_encode_injective(parts.0@, head);
        lemma_encode_injective(parts.1@, tail);
    }
    parts
}

/// The characters of `s` from position `from` up to position `to`.
pub fn substring<'a>(s: &'a str, from: usize, to: usize) -> (r: &'a str)
    requires
        from <= to <= s@.len(),
    ensures
        r@ == s@.subrange(from as int, to as int),
{
    let tail = split_at_char(s, from).1;
    let r = split_at_char(tail, to - from).0;
    assert(r@ == s@.subrange(from as int, to as int));
    r
}

// ---------------------------------------------------------------------------
// Comparing
// ---------------------------------------------------------------------------

/// Whether two texts are equal.
pub fn same_text(a: &str, b: &str) -> (r: bool)
    ensures
        r == (a@ == b@),
{
    let x = a.as_bytes();
    let y = b.as_bytes();
    if x.len() != y.len() {
        return false;
    }
    let mut i: usize = 0;
    while i < x.len()
        invariant
            i <= x@.len() == y@.len(),
            x@ == encode_utf8(a@),
            y@ == encode_utf8(b@),
            forall|j: int| 0 <= j < i ==> x@[j] == y@[j],
        decreases x@.len() - i,
    {
        if x[i] != y[i] {
            return false;
        }
        i = i + 1;
    }
    proof {
        assert(x@ =~= y@);
        lemma_encode_injective(a@, b@);
    }
    true
}

/// The lower case of an ASCII letter; other characters stand for themselves.
pub open spec fn lower(c: char) -> char {
    if 'A' <= c <= 'Z' {
        ((c as u8) + 32) as char
    } else {
        c
    }
}

/// `s` with its ASCII letters in lower case.
pub open spec fn lowered(s: Seq<char>) -> Seq<char> {
    Seq::new(s.len(), |i: int| lower(s[i]))
}

/// Whether `a` and `b` differ at most in the case of ASCII letters.
pub open spec fn same_ignoring_case(a: Seq<char>, b: Seq<char>) -> bool {
    lowered(a) == lowered(b)
}

/// The lower case of an ASCII letter; other characters stand for themselves.
pub fn lower_char(c: char) -> (r: char)
    ensures
        r == lower(c),
{
    if 'A' <= c && c <= 'Z' {
        (c as u8 + 32) as char
    } else {
        c
    }
}

/// `s` with its ASCII letters in lower case.
pub fn to_lower(s: &str) -> (r: String)
    ensures
        r@ == lowered(s@),
{
    let chars = chars_of(s);
    let mut out = String::new();
    for i in 0..chars.len()
        invariant
            chars@ == s@,
            out@ == lowered(s@).take(i as int),
    {
        out.push(lower_char(chars[i]));
        assert(lowered(s@).take(i + 1) == lowered(s@).take(i as int).push(lower(s@[i as int])));
    }
    assert(lowered(s@).take(s@.len() as int) == lowered(s@));
    out
}

/// Whether `a` and `b` differ at most in the case of ASCII letters.
pub fn eq_ignoring_case(a: &str, b: &str) -> (r: bool)
    ensures
        r == same_ignoring_case(a@, b@),
{
    let x = to_lower(a);
    let y = to_lower(b);
    same_text(x.as_str(), y.as_str())
}

/// Whether `s` starts with `prefix`.
pub fn starts_with(s: &str, prefix: &str) -> (r: bool)
    ensures
        r == prefix@.is_prefix_of(s@),
{
    let x = chars_of(s);
    let y = chars_of(prefix);
    starts_at(&x, 0, &y)
}

/// Whether `needle` stands in `s` at position `at`.
pub open spec fn stands_at(s: Seq<char>, at: int, needle: Seq<char>) -> bool {
    0 <= at && at + needle.len() <= s.len() && s.subrange(at, at + needle.len()) == needle
}

/// Whether `needle` stands somewhere in `s`.
pub open spec fn occurs(needle: Seq<char>, s: Seq<char>) -> bool {
    exists|at: int| #[trigger] stands_at(s, at, needle)
}

/// Whether `needle` stands in `s` at position `at`.
fn starts_at(s: &[char], at: usize, needle: &[char]) -> (r: bool)
    requires
        at <= s@.len(),
    ensures
        r == stands_at(s@, at as int, needle@),
        r == needle@.is_prefix_of(s@.skip(at as int)),
        at == 0 ==> r == needle@.is_prefix_of(s@),
{
    assert(s@.skip(0) == s@);
    let n: usize = s.len();
    if needle.len() > n - at {
        return false;
    }
    let mut i: usize = 0;
    while i < needle.len()
        invariant
            i <= needle@.len() <= n - at,
            n == s@.len(),
            forall|j: int| 0 <= j < i ==> s@[at + j] == needle@[j],
        decreases needle@.len() - i,
    {
        if s[at + i] != needle[i] {
            assert(s@.subrange(at as int, at + needle@.len())[i as int] != needle@[i as int]);
            assert(s@.skip(at as int).subrange(0, needle@.len() as int)[i as int] != needle@[i as int]);
            return false;
        }
        i = i + 1;
    }
    assert(s@.subrange(at as int, at + needle@.len()) =~= needle@);
    assert(s@.skip(at as int).subrange(0, needle@.len() as int) =~= needle@);
    true
}

/// Whether `needle` stands somewhere in `s`.
pub fn contains(s: &str, needle: &str) -> (r: bool)
    ensures
        r == occurs(needle@, s@),
{
    let x = chars_of(s);
    let y = chars_of(needle);
    let mut at: usize = 0;
    while at < x.len()
        invariant
            at <= x@.len(),
            x@ == s@,
            y@ == needle@,
            forall|j: int| 0 <= j < at ==> !stands_at(s@, j, needle@),
        decreases x@.len() - at,
    {
        if starts_at(&x, at, &y) {
            return true;
        }
        at = at + 1;
    }
    starts_at(&x, at, &y)
}

// ---------------------------------------------------------------------------
// Searching and splitting
// ---------------------------------------------------------------------------

/// The position of the first `c` in `s`, or the length of `s` where there is none.
pub open spec fn first_of(s: Seq<char>, c: char) -> nat
    decreases s.len(),
{
    if s.len() == 0 || s[0] == c {
        0
    } else {
        1 + first_of(s.drop_first(), c)
    }
}

/// `first_of` is the position `k` where `c` stands for the first time.
pub proof fn lemma_first_of(s: Seq<char>, c: char, k: int)
    requires
        0 <= k <= s.len(),
        forall|j: int| 0 <= j < k ==> s[j] != c,
        k < s.len() ==> s[k] == c,
    ensures
        first_of(s, c) == k,
    decreases k,
{
    if k > 0 {
        let rest = s.drop_first();
        assert forall|j: int| 0 <= j < k - 1 implies rest[j] != c by {
            assert(rest[j] == s[j + 1]);
        }
        lemma_first_of(rest, c, k - 1);
    }
}

/// What stands before the first `c`, and that `first_of` is a position.
pub proof fn lemma_first_of_props(s: Seq<char>, c: char)
    ensures
        first_of(s, c) <= s.len(),
        forall|j: int| 0 <= j < first_of(s, c) ==> s[j] != c,
        first_of(s, c) < s.len() ==> s[first_of(s, c) as int] == c,
        first_of(s, c) < s.len() <==> s.contains(c),
    decreases s.len(),
{
    if s.len() > 0 && s[0] != c {
        let rest = s.drop_first();
        lemma_first_of_props(rest, c);
        assert forall|j: int| 0 <= j < first_of(s, c) implies s[j] != c by {
            if j > 0 {
                assert(s[j] == rest[j - 1]);
            }
        }
        if s.contains(c) {
            let j = choose|j: int| 0 <= j < s.len() && s[j] == c;
            assert(rest[j - 1] == c);
        }
    }
}

/// The position of the last `c` in `s`, or -1 where there is none.
pub open spec fn last_of(s: Seq<char>, c: char) -> int
    decreases s.len(),
{
    if s.len() == 0 {
        -1
    } else if s.last() == c {
        s.len() - 1
    } else {
        last_of(s.drop_last(), c)
    }
}

/// `last_of` is the position `k` where `c` stands for the last time.
pub proof fn lemma_last_of(s: Seq<char>, c: char, k: int)
    requires
        -1 <= k < s.len(),
        forall|j: int| k < j < s.len() ==> s[j] != c,
        k >= 0 ==> s[k] == c,
    ensures
        last_of(s, c) == k,
    decreases s.len(),
{
    if s.len() > 0 && k < s.len() - 1 {
        lemma_last_of(s.drop_last(), c, k);
    }
}

/// What `last_of` finds.
pub proof fn lemma_last_of_props(s: Seq<char>, c: char)
    ensures
        -1 <= last_of(s, c) < s.len(),
        last_of(s, c) >= 0 ==> s[last_of(s, c)] == c,
    decreases s.len(),
{
    if s.len() > 0 && s.last() != c {
        lemma_last_of_props(s.drop_last(), c);
    }
}

/// The two sides of the first `c` in `s`.
pub open spec fn split_first(s: Seq<char>, c: char) -> Option<(Seq<char>, Seq<char>)> {
    let k = first_of(s, c) as int;
    if k < s.len() {
        Some((s.take(k), s.skip(k + 1)))
    } else {
        None
    }
}

/// The two sides of the last `c` in `s`.
pub open spec fn split_last(s: Seq<char>, c: char) -> Option<(Seq<char>, Seq<char>)> {
    let k = last_of(s, c);
    if k >= 0 {
        Some((s.take(k), s.skip(k + 1)))
    } else {
        None
    }
}

/// What stands before the first `c` in `s`: all of `s` where there is none.
pub open spec fn before(s: Seq<char>, c: char) -> Seq<char> {
    s.take(first_of(s, c) as int)
}

/// The pair of views of a pair of texts.
pub open spec fn pair_view(p: Option<(&str, &str)>) -> Option<(Seq<char>, Seq<char>)> {
    match p {
        Some((a, b)) => Some((a@, b@)),
        None => None,
    }
}

/// The position of the first `c` in `s`, or the length of `s` where there is none.
pub fn find_char(s: &[char], c: char) -> (k: usize)
    ensures
        k == first_of(s@, c),
        k <= s@.len(),
        k < s@.len() ==> s@[k as int] == c,
{
    let mut k: usize = 0;
    while k < s.len() && s[k] != c
        invariant
            k <= s@.len(),
            forall|j: int| 0 <= j < k ==> s@[j] != c,
        decreases s@.len() - k,
    {
        k = k + 1;
    }
    proof {
        lemma_first_of(s@, c, k as int);
    }
    k
}

/// The two sides of the first `c` in `s`.
pub fn split_once<'a>(s: &'a str, c: char) -> (r: Option<(&'a str, &'a str)>)
    ensures
        pair_view(r) == split_first(s@, c),
{
    let chars = chars_of(s);
    let k: usize = find_char(&chars, c);
    if k < chars.len() {
        let parts = split_at_char(s, k);
        let tail = split_at_char(parts.1, 1).1;
        assert(tail@ == s@.skip(k + 1));
        Some((parts.0, tail))
    } else {
        None
    }
}

/// The two sides of the last `c` in `s`.
pub fn rsplit_once<'a>(s: &'a str, c: char) -> (r: Option<(&'a str, &'a str)>)
    ensures
        pair_view(r) == split_last(s@, c),
{
    let chars = chars_of(s);
    let n: usize = chars.len();
    let mut end: usize = n;
    while end > 0 && chars[end - 1] != c
        invariant
            end <= n == chars@.len(),
            forall|j: int| end <= j < n ==> chars@[j] != c,
        decreases end,
    {
        end = end - 1;
    }
    proof {
        lemma_last_of(s@, c, end - 1);
    }
    if end > 0 {
        let parts = split_at_char(s, end - 1);
        let tail = split_at_char(parts.1, 1).1;
        assert(tail@ == s@.skip(end as int));
        Some((parts.0, tail))
    } else {
        None
    }
}

/// What stands before the first `c` in `s`: all of `s` where there is none.
pub fn before_char<'a>(s: &'a str, c: char) -> (r: &'a str)
    ensures
        r@ == before(s@, c),
{
    let chars = chars_of(s);
    let k: usize = find_char(&chars, c);
    split_at_char(s, k).0
}

/// Whether `c` stands in `s`.
pub fn contains_char(s: &str, c: char) -> (r: bool)
    ensures
        r == s@.contains(c),
{
    let chars = chars_of(s);
    proof {
        lemma_first_of_props(s@, c);
    }
    find_char(&chars, c) < chars.len()
}

// ---------------------------------------------------------------------------
// Trimming
// ---------------------------------------------------------------------------

/// The characters with the Unicode property White_Space.
pub open spec fn is_white_space(c: char) -> bool {
    ||| '\u{9}' <= c <= '\u{d}'
    ||| c == ' '
    ||| c == '\u{85}'
    ||| c == '\u{a0}'
    ||| c == '\u{1680}'
    ||| '\u{2000}' <= c <= '\u{200a}'
    ||| c == '\u{2028}'
    ||| c == '\u{2029}'
    ||| c == '\u{202f}'
    ||| c == '\u{205f}'
    ||| c == '\u{3000}'
}

/// `s` without the characters at its start for which `p` holds.
pub open spec fn trimmed_start(s: Seq<char>, p: spec_fn(char) -> bool) -> Seq<char>
    decreases s.len(),
{
    if s.len() > 0 && p(s[0]) {
        trimmed_start(s.drop_first(), p)
    } else {
        s
    }
}

/// `s` without the characters at its end for which `p` holds.
pub open spec fn trimmed_end(s: Seq<char>, p: spec_fn(char) -> bool) -> Seq<char>
    decreases s.len(),
{
    if s.len() > 0 && p(s.last()) {
        trimmed_end(s.drop_last(), p)
    } else {
        s
    }
}

/// `s` without the characters at its two ends for which `p` holds.
pub open spec fn trimmed_by(s: Seq<char>, p: spec_fn(char) -> bool) -> Seq<char> {
    trimmed_end(trimmed_start(s, p), p)
}

/// `s` without white space at its two ends.
pub open spec fn trimmed(s: Seq<char>) -> Seq<char> {
    trimmed_by(s, |c: char| is_white_space(c))
}

/// The predicate that holds for `c` alone.
pub open spec fn only(c: char) -> spec_fn(char) -> bool {
    |d: char| d == c
}

/// `s` without the character `c` at its two ends.
pub open spec fn trimmed_of(s: Seq<char>, c: char) -> Seq<char> {
    trimmed_by(s, only(c))
}

/// Trimming at the start drops the longest run of characters for which `p` holds.
pub proof fn lemma_trimmed_start(s: Seq<char>, p: spec_fn(char) -> bool, k: int)
    requires
        0 <= k <= s.len(),
        forall|j: int| 0 <= j < k ==> p(#[trigger] s[j]),
        k < s.len() ==> !p(s[k]),
    ensures
        trimmed_start(s, p) == s.skip(k),
    decreases k,
{
    if k > 0 {
        let rest = s.drop_first();
        assert forall|j: int| 0 <= j < k - 1 implies p(#[trigger] rest[j]) by {
            assert(rest[j] == s[j + 1]);
        }
        assert(p(s[0]));
        lemma_trimmed_start(rest, p, k - 1);
        assert(rest.skip(k - 1) == s.skip(k));
    } else {
        assert(s.skip(0) == s);
    }
}

/// Trimming at the end drops the longest run of characters for which `p` holds.
pub proof fn lemma_trimmed_end(s: Seq<char>, p: spec_fn(char) -> bool, k: int)
    requires
        0 <= k <= s.len(),
        forall|j: int| k <= j < s.len() ==> p(#[trigger] s[j]),
        k > 0 ==> !p(s[k - 1]),
    ensures
        trimmed_end(s, p) == s.take(k),
    decreases s.len() - k,
{
    if k < s.len() {
        let rest = s.drop_last();
        assert(p(s[s.len() - 1]));
        lemma_trimmed_end(rest, p, k);
        assert(rest.take(k) == s.take(k));
    } else {
        assert(s.take(k) == s);
    }
}

/// A text that neither starts nor ends with a character for which `p` holds is kept.
pub proof fn lemma_trimmed_keeps(s: Seq<char>, p: spec_fn(char) -> bool)
    requires
        s.len() > 0 ==> !p(s[0]) && !p(s.last()),
    ensures
        trimmed_by(s, p) == s,
{
}

/// Trimming leaves a text that neither starts nor ends with a character for which `p` holds,
/// and that is a part of the given one.
pub proof fn lemma_trimmed_props(s: Seq<char>, p: spec_fn(char) -> bool)
    ensures
        trimmed_by(s, p).len() > 0 ==> !p(trimmed_by(s, p)[0]) && !p(trimmed_by(s, p).last()),
        exists|i: int, j: int|
            0 <= i <= j <= s.len() && trimmed_by(s, p) == #[trigger] s.subrange(i, j),
{
    lemma_trimmed_start_props(s, p);
    let t = trimmed_start(s, p);
    lemma_trimmed_end_props(t, p);
    let i = choose|i: int| 0 <= i <= s.len() && t == #[trigger] s.skip(i);
    let j = choose|j: int| 0 <= j <= t.len() && trimmed_end(t, p) == #[trigger] t.take(j);
    assert(t.take(j) == s.subrange(i, i + j));
}

/// Trimming drops what stands around a text that neither starts nor ends with a character for
/// which `p` holds.
pub proof fn lemma_trimmed_around(
    a: Seq<char>,
    m: Seq<char>,
    b: Seq<char>,
    p: spec_fn(char) -> bool,
)
    requires
        forall|i: int| 0 <= i < a.len() ==> p(#[trigger] a[i]),
        forall|i: int| 0 <= i < b.len() ==> p(#[trigger] b[i]),
        m.len() > 0 ==> !p(m[0]) && !p(m.last()),
    ensures
        trimmed_by(a + m + b, p) == m,
{
    let s = a + m + b;
    if m.len() == 0 {
        assert forall|j: int| 0 <= j < s.len() implies p(#[trigger] s[j]) by {
            if j < a.len() {
                assert(s[j] == a[j]);
            } else {
                assert(s[j] == b[j - a.len()]);
            }
        }
        lemma_trimmed_start(s, p, s.len() as int);
        assert(s.skip(s.len() as int) == m);
    } else {
        assert forall|j: int| 0 <= j < a.len() implies p(#[trigger] s[j]) by {
            assert(s[j] == a[j]);
        }
        lemma_trimmed_start(s, p, a.len() as int);
        assert(s.skip(a.len() as int) == m + b);
        assert forall|j: int| m.len() <= j < (m + b).len() implies p(#[trigger] (m + b)[j]) by {
            assert((m + b)[j] == b[j - m.len()]);
        }
        lemma_trimmed_end(m + b, p, m.len() as int);
        assert((m + b).take(m.len() as int) == m);
    }
}

proof fn lemma_trimmed_start_props(s: Seq<char>, p: spec_fn(char) -> bool)
    ensures
        trimmed_start(s, p).len() > 0 ==> !p(trimmed_start(s, p)[0]),
        exists|i: int| 0 <= i <= s.len() && trimmed_start(s, p) == #[trigger] s.skip(i),
    decreases s.len(),
{
    if s.len() > 0 && p(s[0]) {
        let rest = s.drop_first();
        lemma_trimmed_start_props(rest, p);
        let i = choose|i: int| 0 <= i <= rest.len() && trimmed_start(rest, p) == #[trigger] rest.skip(i);
        assert(rest.skip(i) == s.skip(i + 1));
    } else {
        assert(s.skip(0) == s);
    }
}

/// What is left after trimming at the end is a prefix that does not end with a trimmed character.
pub proof fn lemma_trimmed_end_props(s: Seq<char>, p: spec_fn(char) -> bool)
    ensures
        trimmed_end(s, p).len() > 0 ==> !p(trimmed_end(s, p).last()),
        exists|j: int| 0 <= j <= s.len() && trimmed_end(s, p) == #[trigger] s.take(j),
    decreases s.len(),
{
    if s.len() > 0 && p(s.last()) {
        let rest = s.drop_last();
        lemma_trimmed_end_props(rest, p);
        let j = choose|j: int| 0 <= j <= rest.len() && trimmed_end(rest, p) == #[trigger] rest.take(j);
        assert(rest.take(j) == s.take(j));
    } else {
        assert(s.take(s.len() as int) == s);
    }
}

/// Whether `c` has the Unicode property White_Space.
pub fn white_space(c: char) -> (r: bool)
    ensures
        r == is_white_space(c),
{
    ('\u{9}' <= c && c <= '\u{d}') || c == ' ' || c == '\u{85}' || c == '\u{a0}' || c == '\u{1680}'
        || ('\u{2000}' <= c && c <= '\u{200a}') || c == '\u{2028}' || c == '\u{2029}'
        || c == '\u{202f}' || c == '\u{205f}' || c == '\u{3000}'
}

/// `s` without white space at its two ends.
pub fn trim<'a>(s: &'a str) -> (r: &'a str)
    ensures
        r@ == trimmed(s@),
{
    let chars = chars_of(s);
    let n: usize = chars.len();
    let ghost p = |c: char| is_white_space(c);
    let mut lo: usize = 0;
    while lo < n && white_space(chars[lo])
        invariant
            lo <= n == chars@.len(),
            p == (|c: char| is_white_space(c)),
            forall|j: int| 0 <= j < lo ==> p(#[trigger] chars@[j]),
        decreases n - lo,
    {
        lo = lo + 1;
    }
    let mut hi: usize = n;
    while hi > lo && white_space(chars[hi - 1])
        invariant
            lo <= hi <= n == chars@.len(),
            p == (|c: char| is_white_space(c)),
            forall|j: int| hi <= j < n ==> p(#[trigger] chars@[j]),
        decreases hi,
    {
        hi = hi - 1;
    }
    proof {
        lemma_trimmed_start(s@, p, lo as int);
        let t = s@.skip(lo as int);
        assert forall|j: int| hi - lo <= j < t.len() implies p(#[trigger] t[j]) by {
            assert(t[j] == s@[j + lo]);
        }
        lemma_trimmed_end(t, p, hi - lo);
        assert(t.take(hi - lo) == s@.subrange(lo as int, hi as int));
    }
    substring(s, lo, hi)
}

/// `s` without the character `c` at its two ends.
pub fn trim_char<'a>(s: &'a str, c: char) -> (r: &'a str)
    ensures
        r@ == trimmed_of(s@, c),
{
    let chars = chars_of(s);
    let n: usize = chars.len();
    let ghost p = only(c);
    let mut lo: usize = 0;
    while lo < n && chars[lo] == c
        invariant
            lo <= n == chars@.len(),
            p == only(c),
            forall|j: int| 0 <= j < lo ==> p(#[trigger] chars@[j]),
        decreases n - lo,
    {
        lo = lo + 1;
    }
    let mut hi: usize = n;
    while hi > lo && chars[hi - 1] == c
        invariant
            lo <= hi <= n == chars@.len(),
            p == only(c),
            forall|j: int| hi <= j < n ==> p(#[trigger] chars@[j]),
        decreases hi,
    {
        hi = hi - 1;
    }
    proof {
        lemma_trimmed_start(s@, p, lo as int);
        let t = s@.skip(lo as int);
        assert forall|j: int| hi - lo <= j < t.len() implies p(#[trigger] t[j]) by {
            assert(t[j] == s@[j + lo]);
        }
        lemma_trimmed_end(t, p, hi - lo);
        assert(t.take(hi - lo) == s@.subrange(lo as int, hi as int));
    }
    substring(s, lo, hi)
}

// ---------------------------------------------------------------------------
// Lines, joining and replacing
// ---------------------------------------------------------------------------

/// `s` without one carriage return at its end.
pub open spec fn without_cr(s: Seq<char>) -> Seq<char> {
    if s.len() > 0 && s.last() == '\r' {
        s.drop_last()
    } else {
        s
    }
}

/// The lines of `s`: each ends at a line feed, which may follow a carriage return; the last one
/// needs no line feed.
pub open spec fn lines_of(s: Seq<char>) -> Seq<Seq<char>>
    decreases s.len(),
{
    if s.len() == 0 {
        seq![]
    } else {
        let k = first_of(s, '\n') as int;
        if k >= s.len() {
            seq![s]
        } else {
            seq![without_cr(s.take(k))] + lines_of(s.skip(k + 1))
        }
    }
}

/// The texts of a sequence of borrowed texts.
pub open spec fn views(parts: Seq<&str>) -> Seq<Seq<char>> {
    parts.map_values(|t: &str| t@)
}

/// The texts of a sequence of owned texts.
pub open spec fn string_views(parts: Seq<String>) -> Seq<Seq<char>> {
    parts.map_values(|t: String| t@)
}

/// `parts` one after the other, with `sep` between them.
pub open spec fn joined(parts: Seq<Seq<char>>, sep: Seq<char>) -> Seq<char>
    decreases parts.len(),
{
    if parts.len() == 0 {
        seq![]
    } else if parts.len() == 1 {
        parts[0]
    } else {
        joined(parts.drop_last(), sep) + sep + parts.last()
    }
}

/// `s` with each occurrence of `from`, found from left to right, replaced by `to`.
pub open spec fn replaced(s: Seq<char>, from: Seq<char>, to: Seq<char>) -> Seq<char>
    decreases s.len(),
{
    if s.len() == 0 || from.len() == 0 {
        s
    } else if from.is_prefix_of(s) {
        to + replaced(s.skip(from.len() as int), from, to)
    } else {
        seq![s[0]] + replaced(s.drop_first(), from, to)
    }
}

/// `s` without one carriage return at its end.
fn strip_cr<'a>(s: &'a str) -> (r: &'a str)
    ensures
        r@ == without_cr(s@),
{
    let chars = chars_of(s);
    let n: usize = chars.len();
    if n > 0 && chars[n - 1] == '\r' {
        split_at_char(s, n - 1).0
    } else {
        s
    }
}

/// The lines of `s`.
pub fn lines<'a>(s: &'a str) -> (r: Vec<&'a str>)
    ensures
        views(r@) == lines_of(s@),
{
    let mut out: Vec<&'a str> = Vec::new();
    let mut rest: &'a str = s;
    while !rest.is_empty()
        invariant
            lines_of(s@) == views(out@) + lines_of(rest@),
        decreases rest@.len(),
    {
        match split_once(rest, '\n') {
            Some((line, tail)) => {
                let ghost before = out@;
                proof {
                    lemma_first_of_props(rest@, '\n');
                }
                let line = strip_cr(line);
                out.push(line);
                assert(views(out@) == views(before).push(line@));
                assert(views(before) + (seq![line@] + lines_of(tail@)) == views(out@) + lines_of(tail@));
                rest = tail;
            },
            None => {
                let ghost before = out@;
                out.push(rest);
                assert(views(out@) == views(before) + seq![rest@]);
                return out;
            },
        }
    }
    assert(views(out@) + lines_of(rest@) == views(out@));
    out
}

/// `parts` one after the other, with `sep` between them.
pub fn join(parts: &Vec<String>, sep: &str) -> (r: String)
    ensures
        r@ == joined(string_views(parts@), sep@),
{
    let ghost all = string_views(parts@);
    let mut out = String::new();
    for i in 0..parts.len()
        invariant
            all == string_views(parts@),
            out@ == joined(all.take(i as int), sep@),
    {
        proof {
            assert(all.take(i + 1).drop_last() == all.take(i as int));
            assert(all.take(i + 1).last() == parts@[i as int]@);
        }
        if i > 0 {
            append(&mut out, sep);
        }
        append(&mut out, parts[i].as_str());
        assert(i == 0 ==> out@ == parts@[0]@);
    }
    assert(all.take(parts@.len() as int) == all);
    out
}

/// Adds `more` at the end of `text`.
pub fn append(text: &mut String, more: &str)
    ensures
        final(text)@ == old(text)@ + more@,
{
    let chars = chars_of(more);
    let ghost start = text@;
    for i in 0..chars.len()
        invariant
            chars@ == more@,
            text@ == start + more@.take(i as int),
    {
        text.push(chars[i]);
        assert(start + more@.take(i + 1) == (start + more@.take(i as int)).push(more@[i as int]));
    }
    assert(more@.take(more@.len() as int) == more@);
}

/// `a` followed by `b`.
pub fn concat(a: &str, b: &str) -> (r: String)
    ensures
        r@ == a@ + b@,
{
    let mut out = String::new();
    append(&mut out, a);
    append(&mut out, b);
    assert(Seq::<char>::empty() + a@ == a@);
    out
}

/// `s` with each occurrence of `from`, found from left to right, replaced by `to`.
pub fn replace(s: &str, from: &str, to: &str) -> (r: String)
    requires
        from@.len() > 0,
    ensures
        r@ == replaced(s@, from@, to@),
{
    let chars = chars_of(s);
    let needle = chars_of(from);
    let mut out = String::new();
    let mut i: usize = 0;
    assert(s@.skip(0) == s@);
    while i < chars.len()
        invariant
            i <= chars@.len(),
            chars@ == s@,
            needle@ == from@,
            from@.len() > 0,
            replaced(s@, from@, to@) == out@ + replaced(s@.skip(i as int), from@, to@),
        decreases chars@.len() - i,
    {
        let ghost rest = s@.skip(i as int);
        let ghost done = out@;
        if starts_at(&chars, i, &needle) {
            append(&mut out, to);
            i = i + needle.len();
            proof {
                assert(rest.skip(from@.len() as int) == s@.skip(i as int));
                assert(done + (to@ + replaced(s@.skip(i as int), from@, to@)) == out@ + replaced(
                    s@.skip(i as int),
                    from@,
                    to@,
                ));
            }
        } else {
            out.push(chars[i]);
            i = i + 1;
            proof {
                assert(rest.drop_first() == s@.skip(i as int));
                assert(done + (seq![rest[0]] + replaced(s@.skip(i as int), from@, to@)) == out@
                    + replaced(s@.skip(i as int), from@, to@));
            }
        }
    }
    assert(out@ + replaced(s@.skip(i as int), from@, to@) == out@);
    out
}

// ---------------------------------------------------------------------------
// Laws of lines
// ---------------------------------------------------------------------------

/// Whether `s` can be a line before others: it holds no line feed, and no carriage return at its
/// end that would be taken for a part of the line break.
pub open spec fn is_line(s: Seq<char>) -> bool {
    !s.contains('\n') && (s.len() > 0 ==> s.last() != '\r')
}

/// Joining splits off its first part as well as its last one.
pub proof fn lemma_joined_first(parts: Seq<Seq<char>>, sep: Seq<char>)
    requires
        parts.len() >= 2,
    ensures
        joined(parts, sep) == parts[0] + sep + joined(parts.drop_first(), sep),
    decreases parts.len(),
{
    let rest = parts.drop_first();
    if parts.len() == 2 {
        assert(joined(parts.drop_last(), sep) == parts[0]);
        assert(joined(rest, sep) == parts[1]);
    } else {
        lemma_joined_first(parts.drop_last(), sep);
        assert(parts.drop_last().drop_first() == rest.drop_last());
        let middle = joined(rest.drop_last(), sep);
        assert((parts[0] + sep + middle) + sep + parts.last() == parts[0] + sep + (middle + sep
            + parts.last()));
    }
}

/// Lines that were joined by line feeds are read back, where the last one is not empty.
pub proof fn law_joined_lines_read_back(lines: Seq<Seq<char>>)
    requires
        forall|i: int| 0 <= i < lines.len() ==> is_line(#[trigger] lines[i]),
        lines.len() > 0 ==> lines.last().len() > 0,
    ensures
        lines_of(joined(lines, "\n"@)) == lines,
    decreases lines.len(),
{
    reveal_strlit("\n");
    let s = joined(lines, "\n"@);
    if lines.len() == 1 {
        assert(is_line(lines[0]));
        lemma_first_of_props(s, '\n');
        assert(lines == seq![s]);
    } else if lines.len() > 1 {
        let rest = lines.drop_first();
        let k = lines[0].len() as int;
        lemma_joined_first(lines, "\n"@);
        assert(is_line(lines[0]));
        assert forall|j: int| 0 <= j < k implies s[j] != '\n' by {
            assert(s[j] == lines[0][j]);
        }
        assert(s[k] == '\n');
        lemma_first_of(s, '\n', k);
        assert(s.take(k) == lines[0]);
        assert(s.skip(k + 1) == joined(rest, "\n"@));
        assert forall|i: int| 0 <= i < rest.len() implies is_line(#[trigger] rest[i]) by {
            assert(rest[i] == lines[i + 1]);
        }
        law_joined_lines_read_back(rest);
        assert(seq![lines[0]] + rest == lines);
    } else {
        assert(lines == Seq::<Seq<char>>::empty());
    }
}

/// Trimming a text without a line feed gives a line, and trimming it again changes nothing.
pub proof fn lemma_trimmed_is_line(s: Seq<char>)
    requires
        !s.contains('\n'),
    ensures
        is_line(trimmed(s)),
        trimmed(trimmed(s)) == trimmed(s),
{
    let ws = |c: char| is_white_space(c);
    let t = trimmed(s);
    lemma_trimmed_props(s, ws);
    lemma_trimmed_keeps(t, ws);
    let (i, j) = choose|i: int, j: int|
        0 <= i <= j <= s.len() && t == #[trigger] s.subrange(i, j);
    assert forall|k: int| 0 <= k < t.len() implies t[k] != '\n' by {
        assert(t[k] == s[i + k]);
    }
}

/// The lines of a text hold no line feeds.
pub proof fn lemma_lines_hold_no_feed(s: Seq<char>)
    ensures
        forall|i: int| 0 <= i < lines_of(s).len() ==> !(#[trigger] lines_of(s)[i]).contains('\n'),
    decreases s.len(),
{
    if s.len() > 0 {
        lemma_first_of_props(s, '\n');
        let k = first_of(s, '\n') as int;
        if k < s.len() {
            let rest = s.skip(k + 1);
            let first = without_cr(s.take(k));
            lemma_lines_hold_no_feed(rest);
            assert forall|j: int| 0 <= j < first.len() implies first[j] != '\n' by {
                assert(first[j] == s[j]);
            }
            assert forall|i: int| 0 <= i < lines_of(s).len() implies !(#[trigger] lines_of(
                s,
            )[i]).contains('\n') by {
                if i > 0 {
                    assert(lines_of(s)[i] == lines_of(rest)[i - 1]);
                } else {
                    assert(lines_of(s)[0] == first);
                }
            }
        }
    }
}

/// Nothing is replaced where the first character of what is sought does not occur.
pub proof fn lemma_replaced_absent(s: Seq<char>, from: Seq<char>, to: Seq<char>)
    requires
        from.len() > 0,
        !s.contains(from[0]),
    ensures
        replaced(s, from, to) == s,
    decreases s.len(),
{
    if s.len() > 0 {
        let rest = s.drop_first();
        assert(s[0] != from[0]);
        if from.is_prefix_of(s) {
            assert(s.subrange(0, from.len() as int)[0] == from[0]);
        }
        assert forall|j: int| 0 <= j < rest.len() implies rest[j] != from[0] by {
            assert(rest[j] == s[j + 1]);
        }
        lemma_replaced_absent(rest, from, to);
        assert(seq![s[0]] + rest == s);
    }
}

/// A text does not grow where what is put in is no longer than what is taken out.
pub proof fn lemma_replaced_shrinks(s: Seq<char>, from: Seq<char>, to: Seq<char>)
    requires
        to.len() <= from.len(),
    ensures
        replaced(s, from, to).len() <= s.len(),
    decreases s.len(),
{
    if s.len() > 0 && from.len() > 0 {
        if from.is_prefix_of(s) {
            lemma_replaced_shrinks(s.skip(from.len() as int), from, to);
        } else {
            lemma_replaced_shrinks(s.drop_first(), from, to);
        }
    }
}

/// A line is no longer than the text.
pub proof fn lemma_line_shorter(s: Seq<char>, i: int)
    requires
        0 <= i < lines_of(s).len(),
    ensures
        lines_of(s)[i].len() <= s.len(),
    decreases s.len(),
{
    lemma_first_of_props(s, '\n');
    let k = first_of(s, '\n') as int;
    if k < s.len() && i > 0 {
        lemma_line_shorter(s.skip(k + 1), i - 1);
        assert(lines_of(s)[i] == lines_of(s.skip(k + 1))[i - 1]);
    }
}

/// An encoding has at least one byte for each character.
pub proof fn lemma_encode_longer(s: Seq<char>)
    ensures
        encode_utf8(s).len() >= s.len(),
    decreases s.len(),
{
    if s.len() > 0 {
        lemma_encode_longer(s.drop_first());
    }
}

// ---------------------------------------------------------------------------
// Decimal numbers
// ---------------------------------------------------------------------------

/// The decimal digit of `d`.
pub open spec fn digit(d: nat) -> char {
    (48 + d) as char
}

/// `n` in decimal.
pub open spec fn decimal(n: nat) -> Seq<char>
    decreases n,
{
    if n < 10 {
        seq![digit(n)]
    } else {
        decimal(n / 10).push(digit(n % 10))
    }
}

/// Whether `c` is an ASCII digit.
pub open spec fn is_digit(c: char) -> bool {
    '0' <= c <= '9'
}

/// Whether `s` consists of ASCII digits.
pub open spec fn all_digits(s: Seq<char>) -> bool {
    forall|i: int| 0 <= i < s.len() ==> is_digit(#[trigger] s[i])
}

/// The number that the digits of `s` write in decimal.
pub open spec fn digits_value(s: Seq<char>) -> nat
    decreases s.len(),
{
    if s.len() == 0 {
        0
    } else {
        digits_value(s.drop_last()) * 10 + ((s.last() as int - 48) as nat)
    }
}

/// The number that `s` writes: digits, at least one, that an optional plus sign may precede.
/// There is none where `s` has another form or where the number exceeds `max`.
pub open spec fn number_of(s: Seq<char>, max: nat) -> Option<nat> {
    let digits = if s.len() > 0 && s[0] == '+' {
        s.drop_first()
    } else {
        s
    };
    if digits.len() > 0 && all_digits(digits) && digits_value(digits) <= max {
        Some(digits_value(digits))
    } else {
        None
    }
}

/// Writing a number and reading it gives the number back.
pub proof fn law_decimal_reads_back(n: nat, max: nat)
    requires
        n <= max,
    ensures
        number_of(decimal(n), max) == Some(n),
{
    lemma_decimal(n);
}

/// A number in decimal is made of digits, at least one.
pub proof fn lemma_decimal_digits(n: nat)
    ensures
        decimal(n).len() > 0,
        all_digits(decimal(n)),
{
    lemma_decimal(n);
}

proof fn lemma_decimal(n: nat)
    ensures
        decimal(n).len() > 0,
        all_digits(decimal(n)),
        digits_value(decimal(n)) == n,
        decimal(n)[0] != '+',
    decreases n,
{
    if n < 10 {
        assert(decimal(n).drop_last() == Seq::<char>::empty());
        assert(digits_value(Seq::<char>::empty()) == 0);
    } else {
        lemma_decimal(n / 10);
        assert(decimal(n).drop_last() == decimal(n / 10));
    }
    assert(is_digit(decimal(n)[0]));
}

/// A prefix of a digit string writes no larger a number.
proof fn lemma_digits_value_grows(s: Seq<char>, k: int)
    requires
        0 <= k <= s.len(),
        all_digits(s),
    ensures
        digits_value(s.take(k)) <= digits_value(s),
    decreases s.len(),
{
    if k < s.len() {
        assert(s.drop_last().take(k) == s.take(k));
        lemma_digits_value_grows(s.drop_last(), k);
        assert(is_digit(s.last()));
    } else {
        assert(s.take(k) == s);
    }
}

/// `n` in decimal.
pub fn to_decimal(n: u64) -> (r: String)
    ensures
        r@ == decimal(n as nat),
    decreases n,
{
    let mut out = if n < 10 {
        String::new()
    } else {
        to_decimal(n / 10)
    };
    out.push((48u8 + (n % 10) as u8) as char);
    out
}

/// The number that `s` writes, where it has the form of a number and does not exceed `max`.
pub fn parse_number(s: &str, max: u64) -> (r: Option<u64>)
    ensures
        match r {
            Some(n) => number_of(s@, max as nat) == Some(n as nat),
            None => number_of(s@, max as nat) is None,
        },
{
    let chars = chars_of(s);
    let start: usize = if chars.len() > 0 && chars[0] == '+' {
        1
    } else {
        0
    };
    let ghost digits = s@.skip(start as int);
    assert(start == 0 ==> digits == s@);
    assert(start == 1 ==> digits == s@.drop_first());
    if start == chars.len() {
        return None;
    }
    let mut value: u64 = 0;
    let mut i: usize = start;
    assert(digits.take(0) == Seq::<char>::empty());
    while i < chars.len()
        invariant
            start <= i <= chars@.len(),
            chars@ == s@,
            digits == s@.skip(start as int),
            start == 0 ==> digits == s@,
            start == 1 ==> digits == s@.drop_first(),
            start == (if s@.len() > 0 && s@[0] == '+' { 1int } else { 0int }),
            all_digits(digits.take(i - start)),
            value == digits_value(digits.take(i - start)),
            value <= max,
        decreases chars@.len() - i,
    {
        let c = chars[i];
        let ghost k = i - start;
        assert(digits[k] == c);
        if !('0' <= c && c <= '9') {
            return None;
        }
        assert(digits.take(k + 1).drop_last() == digits.take(k));
        assert(digits.take(k + 1).last() == c);
        let d: u64 = (c as u8 - 48) as u64;
        let next: u128 = value as u128 * 10 + d as u128;
        if next > max as u128 {
            proof {
                if all_digits(digits) {
                    lemma_digits_value_grows(digits, k + 1);
                }
            }
            return None;
        }
        value = next as u64;
        assert(all_digits(digits.take(k + 1))) by {
            assert forall|j: int| 0 <= j < k + 1 implies is_digit(#[trigger] digits.take(k + 1)[j]) by {
                if j < k {
                    assert(is_digit(digits.take(k)[j]));
                }
            }
        }
        i = i + 1;
    }
    assert(digits.take(digits.len() as int) == digits);
    Some(value)
}

} // verus!
