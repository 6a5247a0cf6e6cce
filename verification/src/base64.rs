//! Base64 texts, in the standard and in the URL alphabet, with or without padding.
use crate::error;
use crate::error::LauncherError;
use crate::text;
use vstd::prelude::*;
use vstd::utf8::*;

verus! {

// ---------------------------------------------------------------------------
// What a Base64 text stands for
// ---------------------------------------------------------------------------

/// Whether `x` is ASCII white space.
pub open spec fn is_ascii_ws(x: u8) -> bool {
    x == 0x20 || x == 0x09 || x == 0x0a || x == 0x0c || x == 0x0d
}

/// The padding byte.
pub open spec fn is_pad(x: u8) -> bool {
    x == '=' as u8
}

/// The number of six bits that the symbol `x` stands for.
pub open spec fn sextet(x: u8) -> Option<nat> {
    if 'A' as u8 <= x <= 'Z' as u8 {
        Some((x - 'A' as u8) as nat)
    } else if 'a' as u8 <= x <= 'z' as u8 {
        Some((x - 'a' as u8 + 26) as nat)
    } else if '0' as u8 <= x <= '9' as u8 {
        Some((x - '0' as u8 + 52) as nat)
    } else if x == '+' as u8 || x == '-' as u8 {
        Some(62)
    } else if x == '/' as u8 || x == '_' as u8 {
        Some(63)
    } else {
        None
    }
}

/// The bytes of `b` that are no white space.
pub open spec fn compact(b: Seq<u8>) -> Seq<u8>
    decreases b.len(),
{
    if b.len() == 0 {
        seq![]
    } else if is_ascii_ws(b[0]) {
        compact(b.skip(1))
    } else {
        seq![b[0]] + compact(b.skip(1))
    }
}

/// The numbers of the symbols in `d` up to the padding, behind which nothing else may stand.
pub open spec fn sextets(d: Seq<u8>) -> Result<Seq<nat>, Seq<char>>
    decreases d.len(),
{
    if d.len() == 0 {
        Ok(seq![])
    } else if is_pad(d[0]) {
        if forall|i: int| 0 <= i < d.len() ==> is_pad(#[trigger] d[i]) {
            Ok(seq![])
        } else {
            Err("base64 data after padding"@)
        }
    } else {
        match sextet(d[0]) {
            Some(v) => match sextets(d.skip(1)) {
                Ok(rest) => Ok(seq![v] + rest),
                Err(message) => Err(message),
            },
            None => Err("invalid base64 byte: "@ + seq![d[0] as char]),
        }
    }
}

/// Byte `j` of the bit string that the numbers `v` of six bits form.
pub open spec fn octet(v: Seq<nat>, j: int) -> u8 {
    let q = j / 3 * 4;
    if j % 3 == 0 {
        (v[q] * 4 + v[q + 1] / 16) as u8
    } else if j % 3 == 1 {
        (v[q + 1] % 16 * 16 + v[q + 2] / 4) as u8
    } else {
        (v[q + 2] % 4 * 64 + v[q + 3]) as u8
    }
}

/// The whole bytes in the bit string that the numbers `v` of six bits form.
pub open spec fn octets(v: Seq<nat>) -> Seq<u8> {
    Seq::new(v.len() * 3 / 4, |j: int| octet(v, j))
}

/// The bytes that the Base64 text `b` stands for.
pub open spec fn decoded(b: Seq<u8>) -> Result<Seq<u8>, Seq<char>> {
    match sextets(compact(b)) {
        Ok(v) => Ok(octets(v)),
        Err(message) => Err(message),
    }
}

/// The bytes that the Base64 text `s` stands for.
pub open spec fn base64_decoded(s: Seq<char>) -> Result<Seq<u8>, Seq<char>> {
    decoded(encode_utf8(s))
}

/// How many padding and white space characters stand at the start of `s`.
pub open spec fn padding_run(s: Seq<char>) -> nat
    decreases s.len(),
{
    if s.len() > 0 && (s[0] == '=' || is_ascii_space(s[0])) {
        1 + padding_run(s.skip(1))
    } else {
        0
    }
}

/// Whether `c` is ASCII white space.
pub open spec fn is_ascii_space(c: char) -> bool {
    c == ' ' || c == '\t' || c == '\n' || c == '\u{c}' || c == '\r'
}

/// `s` up to the end of its first padding: all of `s` where it has none.
pub open spec fn through_padding(s: Seq<char>) -> Seq<char> {
    let k = text::first_of(s, '=') as int;
    s.take(k + padding_run(s.skip(k)))
}

/// The bytes that `s` stands for; what follows the first padding is ignored where it is data.
pub open spec fn lossy_decoded(s: Seq<char>) -> Result<Seq<u8>, Seq<char>> {
    if base64_decoded(s) == Err::<Seq<u8>, Seq<char>>("base64 data after padding"@) {
        base64_decoded(through_padding(s))
    } else {
        base64_decoded(s)
    }
}

// ---------------------------------------------------------------------------
// Decoding
// ---------------------------------------------------------------------------

/// Whether `x` is ASCII white space.
fn ascii_white_space(x: u8) -> (r: bool)
    ensures
        r == is_ascii_ws(x),
{
    x == 0x20 || x == 0x09 || x == 0x0a || x == 0x0c || x == 0x0d
}

/// The number of six bits that the symbol `x` stands for.
fn symbol_value(x: u8) -> (r: Option<u8>)
    ensures
        match r {
            Some(v) => sextet(x) == Some(v as nat) && v < 64,
            None => sextet(x) is None,
        },
{
    if 'A' as u8 <= x && x <= 'Z' as u8 {
        Some(x - 'A' as u8)
    } else if 'a' as u8 <= x && x <= 'z' as u8 {
        Some(x - 'a' as u8 + 26)
    } else if '0' as u8 <= x && x <= '9' as u8 {
        Some(x - '0' as u8 + 52)
    } else if x == '+' as u8 || x == '-' as u8 {
        Some(62)
    } else if x == '/' as u8 || x == '_' as u8 {
        Some(63)
    } else {
        None
    }
}

/// What one more number of six bits adds to the whole bytes.
proof fn lemma_octets_push(v: Seq<nat>, x: nat)
    ensures
        v.len() % 4 == 0 ==> octets(v.push(x)) == octets(v),
        v.len() % 4 == 1 ==> octets(v.push(x)) == octets(v).push((v.last() * 4 + x / 16) as u8),
        v.len() % 4 == 2 ==> octets(v.push(x)) == octets(v).push((v.last() % 16 * 16 + x / 4) as u8),
        v.len() % 4 == 3 ==> octets(v.push(x)) == octets(v).push((v.last() % 4 * 64 + x) as u8),
{
    let w = v.push(x);
    assert forall|j: int| 0 <= j < octets(v).len() implies octet(v, j) == octet(w, j) by {}
    assert(octets(w).take(octets(v).len() as int) =~= octets(v));
    if v.len() % 4 == 0 {
        assert(octets(w) =~= octets(v));
    } else {
        let k = octets(v).len() as int;
        assert(octets(w) =~= octets(v).push(octet(w, k)));
    }
}

/// The numbers of a text whose first symbols are known.
spec fn after(v: Seq<nat>, rest: Result<Seq<nat>, Seq<char>>) -> Result<Seq<nat>, Seq<char>> {
    match rest {
        Ok(w) => Ok(v + w),
        Err(message) => Err(message),
    }
}

/// The bytes that the Base64 text `input` stands for.
pub fn base64_decode(input: &str) -> (r: Result<Vec<u8>, LauncherError>)
    ensures
        error::outcome(r) == base64_decoded(input@),
{
    let bytes = input.as_bytes();
    let ghost b = encode_utf8(input@);
    let ghost all = sextets(compact(b));
    let ghost mut v: Seq<nat> = seq![];
    let mut output: Vec<u8> = Vec::new();
    let mut pending: u8 = 0;
    let mut phase: u8 = 0;
    let mut seen_padding = false;
    let mut i: usize = 0;
    assert(b.skip(0) == b);
    assert(octets(v) =~= Seq::<u8>::empty());
    assert(after(v, all) == all) by {
        if let Ok(w) = all {
            assert(v + w == w);
        }
    }
    while i < bytes.len()
        invariant
            i <= bytes@.len(),
            bytes@ == b,
            all == sextets(compact(b)),
            b == encode_utf8(input@),
            !seen_padding ==> all == after(v, sextets(compact(b.skip(i as int)))),
            seen_padding ==> all == (if all_pad(compact(b.skip(i as int))) {
                Ok(v)
            } else {
                Err("base64 data after padding"@)
            }),
            output@ == octets(v),
            phase == v.len() % 4,
            phase == 0 ==> pending == 0,
            phase == 1 ==> pending == v.last() && pending < 64,
            phase == 2 ==> pending == v.last() % 16,
            phase == 3 ==> pending == v.last() % 4,
        decreases bytes@.len() - i,
    {
        let x: u8 = bytes[i];
        let ghost rest = b.skip(i as int);
        i = i + 1;
        assert(rest.skip(1) == b.skip(i as int));
        let ghost tail = compact(b.skip(i as int));
        if ascii_white_space(x) {
        } else if x == '=' as u8 {
            assert(compact(rest) == seq![x] + tail);
            assert(all_pad(compact(rest)) == all_pad(tail)) by {
                lemma_all_pad_cons(x, tail);
            }
            assert(v + Seq::<nat>::empty() == v);
            seen_padding = true;
        } else if seen_padding {
            assert(compact(rest)[0] == x);
            return Err(LauncherError::new("base64 data after padding"));
        } else {
            assert(compact(rest).skip(1) == tail);
            match symbol_value(x) {
                Some(value) => {
                    proof {
                        lemma_octets_push(v, value as nat);
                        if let Ok(w) = sextets(tail) {
                            assert(v + (seq![value as nat] + w) == v.push(value as nat) + w);
                        }
                    }
                    if phase == 0 {
                        pending = value;
                        phase = 1;
                    } else if phase == 1 {
                        output.push(pending * 4 + value / 16);
                        pending = value % 16;
                        phase = 2;
                    } else if phase == 2 {
                        output.push(pending * 16 + value / 4);
                        pending = value % 4;
                        phase = 3;
                    } else {
                        output.push(pending * 64 + value);
                        pending = 0;
                        phase = 0;
                    }
                    proof {
                        v = v.push(value as nat);
                    }
                },
                None => {
                    let mut message = "invalid base64 byte: ".to_string();
                    message.push(x as char);
                    assert(message@ == "invalid base64 byte: "@ + seq![x as char]);
                    return Err(LauncherError::Message(message));
                },
            }
        }
    }
    assert(v + Seq::<nat>::empty() == v);
    Ok(output)
}

/// Whether `d` is padding alone.
pub(crate) open spec fn all_pad(d: Seq<u8>) -> bool {
    forall|i: int| 0 <= i < d.len() ==> is_pad(#[trigger] d[i])
}

pub(crate) proof fn lemma_all_pad_cons(x: u8, tail: Seq<u8>)
    ensures
        all_pad(seq![x] + tail) == (is_pad(x) && all_pad(tail)),
{
    let d = seq![x] + tail;
    if all_pad(d) {
        assert(d[0] == x);
        assert forall|i: int| 0 <= i < tail.len() implies is_pad(#[trigger] tail[i]) by {
            assert(d[i + 1] == tail[i]);
        }
    }
}

/// `input` up to the end of its first padding: all of `input` where it has none.
pub fn trim_after_base64_padding<'a>(input: &'a str) -> (r: &'a str)
    ensures
        r@ == through_padding(input@),
{
    let chars = text::chars_of(input);
    let first: usize = text::find_char(&chars, '=');
    let mut end: usize = first;
    while end < chars.len() && (chars[end] == '=' || chars[end] == ' ' || chars[end] == '\t'
        || chars[end] == '\n' || chars[end] == '\u{c}' || chars[end] == '\r')
        invariant
            first <= end <= chars@.len(),
            chars@ == input@,
            padding_run(input@.skip(first as int)) == end - first + padding_run(
                input@.skip(end as int),
            ),
        decreases chars@.len() - end,
    {
        assert(input@.skip(end as int).skip(1) == input@.skip(end + 1));
        end = end + 1;
    }
    text::split_at_char(input, end).0
}

/// The bytes that `input` stands for; what follows the first padding is ignored where it is data.
pub fn base64_decode_lossy_tail(input: &str) -> (r: Result<Vec<u8>, LauncherError>)
    ensures
        error::outcome(r) == lossy_decoded(input@),
{
    match base64_decode(input) {
        Ok(decoded) => Ok(decoded),
        Err(LauncherError::Message(message)) => {
            if text::same_text(message.as_str(), "base64 data after padding") {
                let trimmed = trim_after_base64_padding(input);
                base64_decode(trimmed)
            } else {
                Err(LauncherError::Message(message))
            }
        },
    }
}

// ---------------------------------------------------------------------------
// Laws
// ---------------------------------------------------------------------------

/// The symbol of the standard alphabet for the number `v` of six bits.
pub open spec fn symbol(v: nat) -> char {
    if v < 26 {
        ('A' as nat + v) as char
    } else if v < 52 {
        ('a' as nat + v - 26) as char
    } else if v < 62 {
        ('0' as nat + v - 52) as char
    } else if v == 62 {
        '+'
    } else {
        '/'
    }
}

/// Byte `i` of `data`, with zero bytes behind its end.
pub open spec fn byte_or_zero(data: Seq<u8>, i: int) -> nat {
    if i < data.len() {
        data[i] as nat
    } else {
        0
    }
}

/// Number `k` of six bits in the bit string that `data` forms.
pub open spec fn six_bits(data: Seq<u8>, k: int) -> nat {
    let q = k / 4 * 3;
    if k % 4 == 0 {
        byte_or_zero(data, q) / 4
    } else if k % 4 == 1 {
        byte_or_zero(data, q) % 4 * 16 + byte_or_zero(data, q + 1) / 16
    } else if k % 4 == 2 {
        byte_or_zero(data, q + 1) % 16 * 4 + byte_or_zero(data, q + 2) / 64
    } else {
        byte_or_zero(data, q + 2) % 64
    }
}

/// The numbers of six bits in the bit string that `data` forms.
pub open spec fn all_six_bits(data: Seq<u8>) -> Seq<nat> {
    Seq::new((data.len() * 4 + 2) / 3, |k: int| six_bits(data, k))
}

/// How many padding characters the Base64 text of `n` bytes ends with.
pub open spec fn padding_of(n: nat) -> nat {
    if n % 3 == 0 {
        0
    } else {
        (3 - n % 3) as nat
    }
}

/// The Base64 text of `data`: symbols of the standard alphabet, padded to a multiple of four.
pub open spec fn encoded(data: Seq<u8>) -> Seq<char> {
    symbols(all_six_bits(data)) + Seq::new(padding_of(data.len()), |i: int| '=')
}

/// The symbols of the numbers `v`.
pub open spec fn symbols(v: Seq<nat>) -> Seq<char> {
    Seq::new(v.len(), |i: int| symbol(v[i]))
}

/// Whether `c` is a symbol of the standard alphabet or the padding character.
pub open spec fn is_symbol(c: char) -> bool {
    ||| 'A' <= c <= 'Z'
    ||| 'a' <= c <= 'z'
    ||| '0' <= c <= '9'
    ||| c == '+' || c == '/' || c == '='
}

/// A Base64 text consists of symbols of the alphabet and padding.
pub proof fn lemma_encoded_symbols(data: Seq<u8>)
    ensures
        forall|i: int| 0 <= i < encoded(data).len() ==> is_symbol(#[trigger] encoded(data)[i]),
{
    let v = all_six_bits(data);
    lemma_six_bits_bound(data);
    assert forall|i: int| 0 <= i < encoded(data).len() implies is_symbol(
        #[trigger] encoded(data)[i],
    ) by {
        if i < v.len() {
            assert(v[i] < 64);
            assert(encoded(data)[i] == symbol(v[i]));
        }
    }
}

/// Bytes come back from their Base64 text.
pub proof fn law_base64_round_trip(data: Seq<u8>)
    ensures
        base64_decoded(encoded(data)) == Ok::<Seq<u8>, Seq<char>>(data),
        lossy_decoded(encoded(data)) == Ok::<Seq<u8>, Seq<char>>(data),
{
    let none = Seq::<char>::empty();
    assert(encoded(data) + none == encoded(data));
    lemma_decoded_with_tail(data, none);
    assert(encode_utf8(none) == Seq::<u8>::empty());
}

/// What follows a padded Base64 text does not change what it stands for.
pub proof fn law_base64_tail_ignored(data: Seq<u8>, tail: Seq<char>)
    requires
        data.len() % 3 != 0,
    ensures
        lossy_decoded(encoded(data) + tail) == Ok::<Seq<u8>, Seq<char>>(data),
{
    let s = encoded(data) + tail;
    lemma_decoded_with_tail(data, tail);
    let c = compact(encode_utf8(tail));
    if !all_pad(c) {
        let run = padding_run(tail) as int;
        lemma_padding_run(tail);
        let kept = tail.take(run);
        lemma_through_padding(data, tail);
        assert(through_padding(s) == encoded(data) + kept);
        lemma_decoded_with_tail(data, kept);
        lemma_compact_padding(kept);
    }
}

/// A slash behind a Base64 text, as some programs add one to a link, does not change what the
/// text stands for.
pub proof fn law_base64_slash_ignored(data: Seq<u8>)
    ensures
        lossy_decoded(encoded(data) + seq!['/']) == Ok::<Seq<u8>, Seq<char>>(data),
{
    if data.len() % 3 != 0 {
        law_base64_tail_ignored(data, seq!['/']);
    } else {
        lemma_symbol_behind(data, 63);
        assert(base64_decoded(encoded(data) + seq!['/']) == Ok::<Seq<u8>, Seq<char>>(data));
    }
}

/// One symbol more, behind a text without padding, adds no whole byte.
proof fn lemma_symbol_behind(data: Seq<u8>, x: nat)
    requires
        data.len() % 3 == 0,
        x < 64,
    ensures
        base64_decoded(encoded(data) + seq![symbol(x)]) == Ok::<Seq<u8>, Seq<char>>(data),
{
    let v = all_six_bits(data);
    let none = Seq::<char>::empty();
    let w = v.push(x);
    lemma_six_bits_bound(data);
    assert(encoded(data) + seq![symbol(x)] =~= symbols(w) + none);
    lemma_symbols_then(w, none);
    assert(encode_utf8(none) == Seq::<u8>::empty());
    assert(compact(encode_utf8(none)) == Seq::<u8>::empty());
    assert(w + Seq::<nat>::empty() == w);
    assert(v.len() % 4 == 0);
    lemma_octets_push(v, x);
    lemma_octets_of_six_bits(data);
}

proof fn lemma_six_bits_bound(data: Seq<u8>)
    ensures
        forall|k: int| 0 <= k < all_six_bits(data).len() ==> #[trigger] all_six_bits(data)[k] < 64,
{
}

pub(crate) proof fn lemma_octets_of_six_bits(data: Seq<u8>)
    ensures
        octets(all_six_bits(data)) == data,
{
    let v = all_six_bits(data);
    assert(octets(v).len() == data.len());
    assert forall|j: int| 0 <= j < data.len() implies octets(v)[j] == data[j] by {
        let q = j / 3 * 4;
        assert(v[q] == six_bits(data, q));
        assert(v[q + 1] == six_bits(data, q + 1));
        if j % 3 >= 1 {
            assert(v[q + 2] == six_bits(data, q + 2));
        }
        if j % 3 == 2 {
            assert(v[q + 3] == six_bits(data, q + 3));
        }
    }
    assert(octets(v) =~= data);
}

/// Symbols are read one by one, then what follows them.
proof fn lemma_symbols_then(v: Seq<nat>, rest: Seq<char>)
    requires
        forall|i: int| 0 <= i < v.len() ==> #[trigger] v[i] < 64,
    ensures
        sextets(compact(encode_utf8(symbols(v) + rest))) == after(
            v,
            sextets(compact(encode_utf8(rest))),
        ),
    decreases v.len(),
{
    let all = symbols(v) + rest;
    if v.len() == 0 {
        assert(all == rest);
        if let Ok(w) = sextets(compact(encode_utf8(rest))) {
            assert(v + w == w);
        }
    } else {
        let tail = v.skip(1);
        let c = symbol(v[0]);
        let x = c as u8;
        assert(all.drop_first() == symbols(tail) + rest);
        assert(all[0] == c);
        lemma_encode_ascii_first(all);
        let b = encode_utf8(all);
        assert(b[0] == x);
        assert(b.skip(1) == encode_utf8(symbols(tail) + rest));
        assert forall|i: int| 0 <= i < tail.len() implies #[trigger] tail[i] < 64 by {
            assert(tail[i] == v[i + 1]);
        }
        assert(v[0] < 64);
        lemma_symbols_then(tail, rest);
        assert(sextet(x) == Some(v[0]));
        assert(!is_ascii_ws(x) && !is_pad(x));
        let d = compact(b);
        assert(d[0] == x);
        assert(d.skip(1) == compact(b.skip(1)));
        if let Ok(w) = sextets(compact(encode_utf8(rest))) {
            assert(seq![v[0]] + (tail + w) == v + w);
        }
    }
}

/// The encoding of a text that starts with an ASCII character.
pub(crate) proof fn lemma_encode_ascii_first(s: Seq<char>)
    requires
        s.len() > 0,
        s[0] <= '\u{7f}',
    ensures
        encode_utf8(s).len() > 0,
        encode_utf8(s)[0] == s[0] as u8,
        encode_utf8(s).skip(1) == encode_utf8(s.drop_first()),
{
    let one = seq![s[0]];
    text::lemma_char_bound(s[0]);
    is_ascii_chars_encode_utf8(one);
    assert(s == one + s.drop_first());
    text::lemma_encode_concat(one, s.drop_first());
    assert(encode_utf8(one)[0] == one[0] as u8);
}

/// Padding characters are read as padding.
proof fn lemma_padding_then(n: nat, rest: Seq<char>)
    ensures
        compact(encode_utf8(Seq::new(n, |i: int| '=') + rest)) == Seq::new(n, |i: int| '=' as u8)
            + compact(encode_utf8(rest)),
    decreases n,
{
    let all = Seq::new(n, |i: int| '=') + rest;
    if n == 0 {
        assert(all == rest);
        assert(Seq::new(n, |i: int| '=' as u8) + compact(encode_utf8(rest)) == compact(
            encode_utf8(rest),
        ));
    } else {
        let m = (n - 1) as nat;
        assert(all.drop_first() == Seq::new(m, |i: int| '=') + rest);
        lemma_encode_ascii_first(all);
        lemma_padding_then(m, rest);
        assert(Seq::new(n, |i: int| '=' as u8) + compact(encode_utf8(rest)) == seq!['=' as u8] + (
        Seq::new(m, |i: int| '=' as u8) + compact(encode_utf8(rest))));
    }
}

/// A Base64 text with something behind it stands for its bytes where nothing follows but padding
/// and white space; behind padding, anything else is a fault.
proof fn lemma_decoded_with_tail(data: Seq<u8>, tail: Seq<char>)
    ensures
        all_pad(compact(encode_utf8(tail))) ==> base64_decoded(encoded(data) + tail) == Ok::<
            Seq<u8>,
            Seq<char>,
        >(data),
        data.len() % 3 != 0 && !all_pad(compact(encode_utf8(tail))) ==> base64_decoded(
            encoded(data) + tail,
        ) == Err::<Seq<u8>, Seq<char>>("base64 data after padding"@),
{
    let v = all_six_bits(data);
    let n = padding_of(data.len());
    let pads = Seq::new(n, |i: int| '=');
    let c = compact(encode_utf8(tail));
    lemma_six_bits_bound(data);
    assert(encoded(data) + tail == symbols(v) + (pads + tail));
    lemma_symbols_then(v, pads + tail);
    lemma_padding_then(n, tail);
    let d = Seq::new(n, |i: int| '=' as u8) + c;
    lemma_all_pad_prefix(n, c);
    if n > 0 {
        assert(d[0] == '=' as u8);
        assert(sextets(d) == (if all_pad(d) {
            Ok::<Seq<nat>, Seq<char>>(seq![])
        } else {
            Err("base64 data after padding"@)
        }));
    } else {
        assert(d == c);
        if all_pad(c) && c.len() > 0 {
            assert(is_pad(c[0]));
        }
    }
    assert(v + Seq::<nat>::empty() == v);
    lemma_octets_of_six_bits(data);
}

proof fn lemma_all_pad_prefix(n: nat, c: Seq<u8>)
    ensures
        all_pad(Seq::new(n, |i: int| '=' as u8) + c) == all_pad(c),
{
    let d = Seq::new(n, |i: int| '=' as u8) + c;
    if all_pad(d) {
        assert forall|i: int| 0 <= i < c.len() implies is_pad(#[trigger] c[i]) by {
            assert(d[n + i] == c[i]);
        }
    }
}

/// What `padding_run` counts.
pub(crate) proof fn lemma_padding_run(s: Seq<char>)
    ensures
        padding_run(s) <= s.len(),
        forall|i: int|
            0 <= i < padding_run(s) ==> (#[trigger] s[i] == '=' || is_ascii_space(s[i])),
    decreases s.len(),
{
    if s.len() > 0 && (s[0] == '=' || is_ascii_space(s[0])) {
        lemma_padding_run(s.skip(1));
        assert forall|i: int| 0 <= i < padding_run(s) implies (#[trigger] s[i] == '='
            || is_ascii_space(s[i])) by {
            if i > 0 {
                assert(s[i] == s.skip(1)[i - 1]);
            }
        }
    }
}

/// Padding and white space are read as padding alone.
proof fn lemma_compact_padding(s: Seq<char>)
    requires
        forall|i: int| 0 <= i < s.len() ==> (#[trigger] s[i] == '=' || is_ascii_space(s[i])),
    ensures
        all_pad(compact(encode_utf8(s))),
    decreases s.len(),
{
    if s.len() > 0 {
        let rest = s.drop_first();
        assert(s[0] == '=' || is_ascii_space(s[0]));
        assert forall|i: int| 0 <= i < rest.len() implies (#[trigger] rest[i] == '='
            || is_ascii_space(rest[i])) by {
            assert(rest[i] == s[i + 1]);
        }
        lemma_compact_padding(rest);
        lemma_encode_ascii_first(s);
        lemma_all_pad_cons(s[0] as u8, compact(encode_utf8(rest)));
    }
}

/// Where the first padding of a padded Base64 text with something behind it ends.
proof fn lemma_through_padding(data: Seq<u8>, tail: Seq<char>)
    requires
        data.len() % 3 != 0,
    ensures
        through_padding(encoded(data) + tail) == encoded(data) + tail.take(padding_run(tail) as int),
{
    let v = all_six_bits(data);
    let n = padding_of(data.len());
    let pads = Seq::new(n, |i: int| '=');
    let s = encoded(data) + tail;
    lemma_six_bits_bound(data);
    let k = v.len() as int;
    assert forall|j: int| 0 <= j < k implies s[j] != '=' by {
        assert(s[j] == symbol(v[j]));
        assert(v[j] < 64);
    }
    assert(s[k] == '=');
    text::lemma_first_of(s, '=', k);
    assert(s.skip(k) == pads + tail);
    lemma_run_of_pads(n, tail);
    lemma_padding_run(tail);
    assert(s.take(k + n + padding_run(tail)) == encoded(data) + tail.take(padding_run(tail) as int));
}

proof fn lemma_run_of_pads(n: nat, tail: Seq<char>)
    ensures
        padding_run(Seq::new(n, |i: int| '=') + tail) == n + padding_run(tail),
    decreases n,
{
    let all = Seq::new(n, |i: int| '=') + tail;
    if n == 0 {
        assert(all == tail);
    } else {
        assert(all.skip(1) == Seq::new((n - 1) as nat, |i: int| '=') + tail);
        lemma_run_of_pads((n - 1) as nat, tail);
    }
}

} // verus!
