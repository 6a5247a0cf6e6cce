//! Percent escapes.
use crate::error;
use crate::error::LauncherError;
use crate::text;
use crate::utf;
use vstd::prelude::*;
use vstd::utf8::*;

verus! {

/// Whether `b` is an ASCII hexadecimal digit.
pub open spec fn is_hex(b: u8) -> bool {
    ||| '0' as u8 <= b <= '9' as u8
    ||| 'a' as u8 <= b <= 'f' as u8
    ||| 'A' as u8 <= b <= 'F' as u8
}

/// Whether `c` is an ASCII hexadecimal digit.
pub open spec fn is_hex_char(c: char) -> bool {
    c <= '\u{7f}' && is_hex(c as u8)
}

/// The value of a hexadecimal digit.
pub open spec fn hex_of(b: u8) -> nat {
    if '0' as u8 <= b <= '9' as u8 {
        (b - '0' as u8) as nat
    } else if 'a' as u8 <= b <= 'f' as u8 {
        (b - 'a' as u8 + 10) as nat
    } else {
        (b - 'A' as u8 + 10) as nat
    }
}

/// The message about a byte that is no hexadecimal digit.
pub open spec fn bad_hex(b: u8) -> Seq<char> {
    "bad percent escape: "@ + seq![b as char]
}

/// `b` with each percent sign and the two hexadecimal digits behind it replaced by the byte of
/// that value, or the message about the first escape that is no such one.
pub open spec fn unescaped(b: Seq<u8>) -> Result<Seq<u8>, Seq<char>>
    decreases b.len(),
{
    if b.len() == 0 {
        Ok(seq![])
    } else if b[0] != '%' as u8 {
        prepend(b[0], unescaped(b.skip(1)))
    } else if b.len() < 3 {
        Err("bad percent escape at end of input"@)
    } else if !is_hex(b[1]) {
        Err(bad_hex(b[1]))
    } else if !is_hex(b[2]) {
        Err(bad_hex(b[2]))
    } else {
        prepend((hex_of(b[1]) * 16 + hex_of(b[2])) as u8, unescaped(b.skip(3)))
    }
}

/// The bytes of `rest` with `x` before them.
pub open spec fn prepend(x: u8, rest: Result<Seq<u8>, Seq<char>>) -> Result<Seq<u8>, Seq<char>> {
    match rest {
        Ok(bytes) => Ok(seq![x] + bytes),
        Err(message) => Err(message),
    }
}

/// `s` with its percent escapes replaced by the bytes that they stand for.
pub open spec fn percent_decoded(s: Seq<char>) -> Result<Seq<char>, Seq<char>> {
    match unescaped(encode_utf8(s)) {
        Ok(bytes) => utf::decoded_text(bytes, "percent-decoded input is not UTF-8: "@),
        Err(message) => Err(message),
    }
}

/// Bytes without a percent sign stand for themselves.
pub proof fn lemma_unescaped_plain(b: Seq<u8>)
    requires
        !b.contains('%' as u8),
    ensures
        unescaped(b) == Ok::<Seq<u8>, Seq<char>>(b),
    decreases b.len(),
{
    if b.len() > 0 {
        let rest = b.skip(1);
        assert(b[0] != '%' as u8);
        assert forall|i: int| 0 <= i < rest.len() implies rest[i] != '%' as u8 by {
            assert(rest[i] == b[i + 1]);
        }
        lemma_unescaped_plain(rest);
        assert(seq![b[0]] + rest == b);
    } else {
        assert(b == Seq::<u8>::empty());
    }
}

/// The value of a hexadecimal digit.
pub fn hex_value(byte: u8) -> (r: Result<u8, LauncherError>)
    ensures
        match r {
            Ok(v) => is_hex(byte) && v == hex_of(byte) && v < 16,
            Err(e) => !is_hex(byte) && e@ == bad_hex(byte),
        },
{
    if '0' as u8 <= byte && byte <= '9' as u8 {
        Ok(byte - '0' as u8)
    } else if 'a' as u8 <= byte && byte <= 'f' as u8 {
        Ok(byte - 'a' as u8 + 10)
    } else if 'A' as u8 <= byte && byte <= 'F' as u8 {
        Ok(byte - 'A' as u8 + 10)
    } else {
        let mut message = "bad percent escape: ".to_string();
        message.push(byte as char);
        assert(message@ == bad_hex(byte));
        Err(LauncherError::Message(message))
    }
}

/// `input` with its percent escapes replaced by the bytes that they stand for.
pub fn percent_decode(input: &str) -> (r: Result<String, LauncherError>)
    ensures
        error::outcome(r) == percent_decoded(input@),
{
    let bytes = input.as_bytes();
    let ghost b = encode_utf8(input@);
    let mut output: Vec<u8> = Vec::new();
    let mut index: usize = 0;
    assert(b.skip(0) == b);
    while index < bytes.len()
        invariant
            index <= bytes@.len(),
            bytes@ == b,
            b == encode_utf8(input@),
            match unescaped(b.skip(index as int)) {
                Ok(rest) => unescaped(b) == Ok::<Seq<u8>, Seq<char>>(output@ + rest),
                Err(message) => unescaped(b) == Err::<Seq<u8>, Seq<char>>(message),
            },
        decreases bytes@.len() - index,
    {
        let ghost rest = b.skip(index as int);
        let ghost done = output@;
        if bytes[index] == '%' as u8 {
            if bytes.len() - index < 3 {
                return Err(LauncherError::new("bad percent escape at end of input"));
            }
            let hi: u8 = match hex_value(bytes[index + 1]) {
                Ok(v) => v,
                Err(e) => {
                    return Err(e);
                },
            };
            let lo: u8 = match hex_value(bytes[index + 2]) {
                Ok(v) => v,
                Err(e) => {
                    return Err(e);
                },
            };
            output.push(hi * 16 + lo);
            index = index + 3;
            assert(rest.skip(3) == b.skip(index as int));
        } else {
            output.push(bytes[index]);
            index = index + 1;
            assert(rest.skip(1) == b.skip(index as int));
        }
        proof {
            if let Ok(tail) = unescaped(b.skip(index as int)) {
                assert(output@ + tail == done + (seq![output@.last()] + tail));
            }
        }
    }
    assert(output@ + Seq::<u8>::empty() == output@);
    utf::decode_text(output, "percent-decoded input is not UTF-8: ")
}

// ---------------------------------------------------------------------------
// Laws
// ---------------------------------------------------------------------------

/// The hexadecimal digit of `n`.
pub open spec fn hex_digit(n: nat) -> u8 {
    if n < 10 {
        ('0' as nat + n) as u8
    } else {
        ('A' as nat + n - 10) as u8
    }
}

/// `b` with each percent sign, and each byte for which `chosen` holds, written as an escape.
pub open spec fn escaped(b: Seq<u8>, chosen: spec_fn(u8) -> bool) -> Seq<u8>
    decreases b.len(),
{
    if b.len() == 0 {
        seq![]
    } else if b[0] == '%' as u8 || chosen(b[0]) {
        seq!['%' as u8, hex_digit(b[0] as nat / 16), hex_digit(b[0] as nat % 16)] + escaped(
            b.skip(1),
            chosen,
        )
    } else {
        seq![b[0]] + escaped(b.skip(1), chosen)
    }
}

/// Bytes come back from their escapes.
pub proof fn law_escaped_bytes_read_back(b: Seq<u8>, chosen: spec_fn(u8) -> bool)
    ensures
        unescaped(escaped(b, chosen)) == Ok::<Seq<u8>, Seq<char>>(b),
    decreases b.len(),
{
    let e = escaped(b, chosen);
    if b.len() == 0 {
        assert(b == Seq::<u8>::empty());
    } else {
        let rest = b.skip(1);
        law_escaped_bytes_read_back(rest, chosen);
        assert(seq![b[0]] + rest == b);
        if b[0] == '%' as u8 || chosen(b[0]) {
            let hi = b[0] as nat / 16;
            let lo = b[0] as nat % 16;
            assert(e[0] == '%' as u8 && e[1] == hex_digit(hi) && e[2] == hex_digit(lo));
            assert(is_hex(e[1]) && hex_of(e[1]) == hi);
            assert(is_hex(e[2]) && hex_of(e[2]) == lo);
            assert(hi * 16 + lo == b[0]);
            assert(e.skip(3) == escaped(rest, chosen));
        } else {
            assert(e[0] == b[0]);
            assert(e.skip(1) == escaped(rest, chosen));
        }
    }
}

/// A text comes back from a text with its escapes.
pub proof fn law_percent_round_trip(s: Seq<char>, t: Seq<char>, chosen: spec_fn(u8) -> bool)
    requires
        encode_utf8(t) == escaped(encode_utf8(s), chosen),
    ensures
        percent_decoded(t) == Ok::<Seq<char>, Seq<char>>(s),
{
    law_escaped_bytes_read_back(encode_utf8(s), chosen);
    encode_utf8_valid_utf8(s);
    encode_utf8_decode_utf8(s);
}

/// A text without a percent sign stands for itself.
pub proof fn law_percent_keeps_plain_text(s: Seq<char>)
    requires
        !s.contains('%'),
    ensures
        percent_decoded(s) == Ok::<Seq<char>, Seq<char>>(s),
{
    text::lemma_encode_lacks(s, '%');
    lemma_unescaped_plain(encode_utf8(s));
    encode_utf8_valid_utf8(s);
    encode_utf8_decode_utf8(s);
}

} // verus!
