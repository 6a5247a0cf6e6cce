//! Texts from bytes and from UTF-16 words.
use crate::error;
use crate::error::LauncherError;
use vstd::prelude::*;
use vstd::utf8::*;

verus! {

/// What `std::string::FromUtf8Error` says of bytes that are not UTF-8.
pub uninterp spec fn utf8_error_text(bytes: Seq<u8>) -> Seq<char>;

/// `String::from_utf8`: the text that `bytes` encode, where they are UTF-8; elsewhere what the
/// error says, as `Display` writes it. What the error says is named, not spelled out.
#[verifier::external_body]
pub(crate) fn string_from_utf8(bytes: Vec<u8>) -> (r: Result<String, String>)
    ensures
        match r {
            Ok(s) => valid_utf8(bytes@) && s@ == decode_utf8(bytes@),
            Err(why) => !valid_utf8(bytes@) && why@ == utf8_error_text(bytes@),
        },
{
    match String::from_utf8(bytes) {
        Ok(s) => Ok(s),
        Err(err) => Err(format!("{}", err)),
    }
}

/// The text as which `String::from_utf8_lossy` reads bytes that need not be UTF-8.
pub uninterp spec fn lossy_text(bytes: Seq<u8>) -> Seq<char>;

/// `String::from_utf8_lossy`: the text that `bytes` encode, where they are UTF-8; elsewhere a text
/// with replacement characters in it, which is named, not spelled out.
#[verifier::external_body]
pub(crate) fn string_from_utf8_lossy(bytes: &[u8]) -> (r: String)
    ensures
        r@ == lossy_text(bytes@),
        valid_utf8(bytes@) ==> r@ == decode_utf8(bytes@),
{
    String::from_utf8_lossy(bytes).into_owned()
}

/// The text, or an error whose message is `what` followed by the reason why there is none.
pub fn text_or_error(decoded: Result<String, String>, what: &str) -> (r: Result<
    String,
    LauncherError,
>)
    ensures
        match decoded {
            Ok(s) => error::outcome(r) == Ok::<Seq<char>, Seq<char>>(s@),
            Err(why) => error::outcome(r) == Err::<Seq<char>, Seq<char>>(what@ + why@),
        },
{
    match decoded {
        Ok(s) => Ok(s),
        Err(why) => Err(LauncherError::about(what, why.as_str())),
    }
}

/// The text that `bytes` encode, or a message that starts with `what`.
pub open spec fn decoded_text(bytes: Seq<u8>, what: Seq<char>) -> Result<Seq<char>, Seq<char>> {
    if valid_utf8(bytes) {
        Ok(decode_utf8(bytes))
    } else {
        Err(what + utf8_error_text(bytes))
    }
}

/// The text that the UTF-16 words `words` encode: a word that is no surrogate stands for one
/// character, and so does a leading surrogate with a trailing one behind it. There is none where
/// a surrogate stands alone.
pub open spec fn utf16_decoded(words: Seq<u16>) -> Option<Seq<char>>
    decreases words.len(),
{
    if words.len() == 0 {
        Some(seq![])
    } else if words[0] < 0xd800 || words[0] > 0xdfff {
        match utf16_decoded(words.skip(1)) {
            Some(rest) => Some(seq![words[0] as char] + rest),
            None => None,
        }
    } else if words[0] < 0xdc00 && words.len() > 1 && 0xdc00 <= words[1] <= 0xdfff {
        match utf16_decoded(words.skip(2)) {
            Some(rest) => Some(
                seq![
                    (0x10000 + (words[0] - 0xd800) * 0x400 + (words[1] - 0xdc00)) as char,
                ] + rest,
            ),
            None => None,
        }
    } else {
        None
    }
}

/// What `std::string::FromUtf16Error` says of words that are not UTF-16.
pub uninterp spec fn utf16_error_text(words: Seq<u16>) -> Seq<char>;

/// `String::from_utf16`: the text that `words` encode, where they are UTF-16; elsewhere what the
/// error says, as `Display` writes it. What the error says is named, not spelled out.
#[verifier::external_body]
fn string_from_utf16(words: &[u16]) -> (r: Result<String, String>)
    ensures
        match r {
            Ok(s) => utf16_decoded(words@) == Some(s@),
            Err(why) => utf16_decoded(words@) is None && why@ == utf16_error_text(words@),
        },
{
    match String::from_utf16(words) {
        Ok(s) => Ok(s),
        Err(err) => Err(format!("{}", err)),
    }
}

/// The text that `words` encode, or a message that starts with `what`.
pub open spec fn decoded_words(words: Seq<u16>, what: Seq<char>) -> Result<Seq<char>, Seq<char>> {
    match utf16_decoded(words) {
        Some(s) => Ok(s),
        None => Err(what + utf16_error_text(words)),
    }
}

/// The text that `words` encode, or an error whose message starts with `what`.
pub fn decode_words(words: &[u16], what: &str) -> (r: Result<String, LauncherError>)
    ensures
        error::outcome(r) == decoded_words(words@, what@),
{
    text_or_error(string_from_utf16(words), what)
}

/// The text that `bytes` encode, or an error whose message starts with `what`.
pub fn decode_text(bytes: Vec<u8>, what: &str) -> (r: Result<String, LauncherError>)
    ensures
        error::outcome(r) == decoded_text(bytes@, what@),
{
    text_or_error(string_from_utf8(bytes), what)
}

// ---------------------------------------------------------------------------
// Laws
// ---------------------------------------------------------------------------

/// The UTF-16 words of the character `c`.
pub open spec fn utf16_words(c: char) -> Seq<u16> {
    let v = c as int;
    if v < 0x10000 {
        seq![v as u16]
    } else {
        seq![
            (0xd800 + (v - 0x10000) / 0x400) as u16,
            (0xdc00 + (v - 0x10000) % 0x400) as u16,
        ]
    }
}

/// The UTF-16 words of the text `s`.
pub open spec fn utf16_encoded(s: Seq<char>) -> Seq<u16>
    decreases s.len(),
{
    if s.len() == 0 {
        seq![]
    } else {
        utf16_words(s[0]) + utf16_encoded(s.drop_first())
    }
}

/// The words of a character, with others behind them, are read as the character.
proof fn lemma_words_read(c: char, rest: Seq<u16>)
    ensures
        utf16_decoded(utf16_words(c) + rest) == (match utf16_decoded(rest) {
            Some(s) => Some(seq![c] + s),
            None => None,
        }),
{
    let v = c as int;
    let words = utf16_words(c) + rest;
    char_is_scalar(c);
    char_u32_cast(c, c as u32);
    if v < 0x10000 {
        assert(words[0] == v);
        assert(words.skip(1) == rest);
        assert(words[0] as char == c);
    } else {
        let d = v - 0x10000;
        assert(words[0] == 0xd800 + d / 0x400 && words[1] == 0xdc00 + d % 0x400);
        assert(words.skip(2) == rest);
        assert(0x10000 + (words[0] - 0xd800) * 0x400 + (words[1] - 0xdc00) == v);
    }
}

/// A text comes back from its UTF-16 words.
pub proof fn law_utf16_round_trip(s: Seq<char>)
    ensures
        utf16_decoded(utf16_encoded(s)) == Some(s),
    decreases s.len(),
{
    if s.len() > 0 {
        law_utf16_round_trip(s.drop_first());
        lemma_words_read(s[0], utf16_encoded(s.drop_first()));
        assert(seq![s[0]] + s.drop_first() == s);
    } else {
        assert(s == Seq::<char>::empty());
    }
}

} // verus!
