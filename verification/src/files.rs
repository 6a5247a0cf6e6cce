//! Files: their names, and the texts in them.
use crate::error;
use crate::error::LauncherError;
use crate::settings;
use crate::text;
use crate::utf;
use vstd::prelude::*;
use vstd::utf8::*;

verus! {

// ---------------------------------------------------------------------------
// File names
// ---------------------------------------------------------------------------

/// Whether `c` is a control character.
pub open spec fn is_control(c: char) -> bool {
    c <= '\u{1f}' || '\u{7f}' <= c <= '\u{9f}'
}

/// Whether `c` may not stand in a file name.
pub open spec fn is_invalid(c: char) -> bool {
    ||| c == '<' || c == '>' || c == ':' || c == '"' || c == '/'
    ||| c == '\\' || c == '|' || c == '?' || c == '*'
    ||| is_control(c)
}

/// `c`, or an underscore where `c` may not stand in a file name.
pub open spec fn cleaned(c: char) -> char {
    if is_invalid(c) {
        '_'
    } else {
        c
    }
}

/// The cleaned characters of `name`, up to the first one with which their encoding, behind `used`
/// bytes, reaches 80 bytes.
pub open spec fn cut(name: Seq<char>, used: nat) -> Seq<char>
    decreases name.len(),
{
    if name.len() == 0 {
        seq![]
    } else {
        let c = cleaned(name[0]);
        if used + text::width(c) >= 80 {
            seq![c]
        } else {
            seq![c] + cut(name.drop_first(), used + text::width(c))
        }
    }
}

/// Whether `c` may not stand at the end of a file name.
pub open spec fn is_dot_or_space(c: char) -> bool {
    c == '.' || c == ' '
}

/// The file name, without its extension, for a connection called `name`.
pub open spec fn file_stem(name: Seq<char>) -> Seq<char> {
    let stem = text::trimmed_end(text::trimmed(cut(name, 0)), |c: char| is_dot_or_space(c));
    if stem.len() == 0 {
        "jumpserver-rdp"@
    } else {
        stem
    }
}

/// The name of the file for a connection called `name`.
pub open spec fn file_name(name: Seq<char>) -> Seq<char> {
    file_stem(name) + ".rdp"@
}

/// Whether `c` may not stand in a file name.
fn invalid(c: char) -> (r: bool)
    ensures
        r == is_invalid(c),
{
    c == '<' || c == '>' || c == ':' || c == '"' || c == '/' || c == '\\' || c == '|' || c == '?' || c
        == '*' || control(c)
}

/// Whether `c` is a control character.
pub fn control(c: char) -> (r: bool)
    ensures
        r == is_control(c),
{
    c <= '\u{1f}' || ('\u{7f}' <= c && c <= '\u{9f}')
}

/// The cleaned characters of `name`, cut off behind about 80 bytes.
fn cut_name(name: &str) -> (r: String)
    ensures
        r@ == cut(name@, 0),
{
    let chars = text::chars_of(name);
    let mut out = String::new();
    let mut used: usize = 0;
    let mut i: usize = 0;
    assert(name@.skip(0) == name@);
    assert(out@ + cut(name@, 0) == cut(name@, 0));
    while i < chars.len()
        invariant
            i <= chars@.len(),
            chars@ == name@,
            used < 80,
            cut(name@, 0) == out@ + cut(name@.skip(i as int), used as nat),
        decreases chars@.len() - i,
    {
        let ghost rest = name@.skip(i as int);
        let ghost done = out@;
        let c = if invalid(chars[i]) {
            '_'
        } else {
            chars[i]
        };
        assert(rest[0] == chars@[i as int]);
        out.push(c);
        used = used + text::char_width(c);
        i = i + 1;
        assert(done + seq![c] == out@);
        if used >= 80 {
            return out;
        }
        proof {
            assert(rest.drop_first() == name@.skip(i as int));
            assert(done + (seq![c] + cut(name@.skip(i as int), used as nat)) == out@ + cut(
                name@.skip(i as int),
                used as nat,
            ));
        }
    }
    assert(out@ + Seq::<char>::empty() == out@);
    out
}

/// `s` without dots and spaces at its end.
fn trim_dots<'a>(s: &'a str) -> (r: &'a str)
    ensures
        r@ == text::trimmed_end(s@, |c: char| is_dot_or_space(c)),
{
    let chars = text::chars_of(s);
    let n: usize = chars.len();
    let ghost p = |c: char| is_dot_or_space(c);
    let mut hi: usize = n;
    while hi > 0 && (chars[hi - 1] == '.' || chars[hi - 1] == ' ')
        invariant
            hi <= n == chars@.len(),
            p == (|c: char| is_dot_or_space(c)),
            forall|j: int| hi <= j < n ==> p(#[trigger] chars@[j]),
        decreases hi,
    {
        hi = hi - 1;
    }
    proof {
        text::lemma_trimmed_end(s@, p, hi as int);
    }
    text::split_at_char(s, hi).0
}

/// The file name, without its extension, for a connection called `name`.
pub fn sanitize_file_stem(name: &str) -> (r: String)
    ensures
        r@ == file_stem(name@),
{
    let output = cut_name(name);
    let output = trim_dots(text::trim(output.as_str()));
    if output.is_empty() {
        "jumpserver-rdp".to_string()
    } else {
        output.to_string()
    }
}

/// Whether a file with the extension `extension` holds a configuration.
pub fn is_rdp_extension(extension: Option<&str>) -> (r: bool)
    ensures
        r == (extension is Some && text::same_ignoring_case(extension->0@, "rdp"@)),
{
    match extension {
        Some(extension) => text::eq_ignoring_case(extension, "rdp"),
        None => false,
    }
}

// ---------------------------------------------------------------------------
// Line breaks
// ---------------------------------------------------------------------------

/// `content` with each line break, be it a carriage return, a line feed or both, written as a
/// carriage return and a line feed.
pub open spec fn normalized_breaks(content: Seq<char>) -> Seq<char> {
    text::replaced(
        text::replaced(text::replaced(content, "\r\n"@, "\n"@), "\r"@, "\n"@),
        "\n"@,
        "\r\n"@,
    )
}

/// `content` with each line break written as a carriage return and a line feed.
pub fn normalize_rdp_newlines(content: &str) -> (r: String)
    ensures
        r@ == normalized_breaks(content@),
{
    proof {
        reveal_strlit("\r\n");
        reveal_strlit("\r");
        reveal_strlit("\n");
    }
    let a = text::replace(content, "\r\n", "\n");
    let b = text::replace(a.as_str(), "\r", "\n");
    text::replace(b.as_str(), "\n", "\r\n")
}

/// The name and the content of the file for a connection called `name`.
pub fn rdp_file(name: &str, content: &str) -> (r: (String, String))
    ensures
        r.0@ == file_name(name@),
        r.1@ == normalized_breaks(content@),
{
    (text::concat(sanitize_file_stem(name).as_str(), ".rdp"), normalize_rdp_newlines(content))
}

// ---------------------------------------------------------------------------
// Texts in files
// ---------------------------------------------------------------------------

/// The words that pairs of bytes form, the low byte first; a single byte at the end is left out.
pub open spec fn words_le(b: Seq<u8>) -> Seq<u16> {
    Seq::new(b.len() / 2, |i: int| (b[2 * i] as nat + b[2 * i + 1] as nat * 256) as u16)
}

/// The words that pairs of bytes form, the high byte first; a single byte at the end is left out.
pub open spec fn words_be(b: Seq<u8>) -> Seq<u16> {
    Seq::new(b.len() / 2, |i: int| (b[2 * i] as nat * 256 + b[2 * i + 1] as nat) as u16)
}

/// The byte order mark of UTF-16 with the low byte first.
pub open spec fn mark_le() -> Seq<u8> {
    seq![0xffu8, 0xfeu8]
}

/// The byte order mark of UTF-16 with the high byte first.
pub open spec fn mark_be() -> Seq<u8> {
    seq![0xfeu8, 0xffu8]
}

/// The byte order mark of UTF-8.
pub open spec fn mark_utf8() -> Seq<u8> {
    seq![0xefu8, 0xbbu8, 0xbfu8]
}

/// The text of the file called `path` with the bytes `b`. A byte order mark tells UTF-16 and
/// UTF-8; without one it is UTF-8.
pub open spec fn file_text(b: Seq<u8>, path: Seq<char>) -> Result<Seq<char>, Seq<char>> {
    if mark_le().is_prefix_of(b) {
        utf::decoded_words(words_le(b.skip(2)), path + " is not valid UTF-16LE: "@)
    } else if mark_be().is_prefix_of(b) {
        utf::decoded_words(words_be(b.skip(2)), path + " is not valid UTF-16BE: "@)
    } else if mark_utf8().is_prefix_of(b) {
        utf::decoded_text(b.skip(3), path + " is not valid UTF-8: "@)
    } else {
        utf::decoded_text(b, path + " is not valid UTF-8/UTF-16 RDP text: "@)
    }
}

/// The words behind the first two bytes.
fn words_behind_mark(bytes: &Vec<u8>, low_first: bool) -> (r: Vec<u16>)
    requires
        bytes@.len() >= 2,
    ensures
        low_first ==> r@ == words_le(bytes@.skip(2)),
        !low_first ==> r@ == words_be(bytes@.skip(2)),
{
    let ghost b = bytes@.skip(2);
    let ghost wanted = if low_first {
        words_le(b)
    } else {
        words_be(b)
    };
    let mut out: Vec<u16> = Vec::new();
    let mut i: usize = 2;
    assert(out@ =~= wanted.take(0));
    while bytes.len() - i >= 2
        invariant
            2 <= i <= bytes@.len(),
            i == 2 + 2 * out@.len(),
            b == bytes@.skip(2),
            wanted == (if low_first {
                words_le(b)
            } else {
                words_be(b)
            }),
            out@ == wanted.take(out@.len() as int),
            out@.len() <= wanted.len(),
        decreases bytes@.len() - i,
    {
        let ghost k = out@.len() as int;
        let x: u16 = bytes[i] as u16;
        let y: u16 = bytes[i + 1] as u16;
        assert(b[2 * k] == bytes@[i as int] && b[2 * k + 1] == bytes@[i + 1]);
        if low_first {
            out.push(x + y * 256);
        } else {
            out.push(x * 256 + y);
        }
        assert(wanted.take(k + 1) =~= wanted.take(k).push(wanted[k]));
        i = i + 2;
    }
    assert(wanted.take(out@.len() as int) =~= wanted);
    out
}

/// Whether `bytes` start with the byte order mark `mark`.
fn has_mark(bytes: &Vec<u8>, mark: &[u8]) -> (r: bool)
    ensures
        r == mark@.is_prefix_of(bytes@),
{
    if bytes.len() < mark.len() {
        return false;
    }
    let mut i: usize = 0;
    while i < mark.len()
        invariant
            i <= mark@.len() <= bytes@.len(),
            forall|j: int| 0 <= j < i ==> bytes@[j] == mark@[j],
        decreases mark@.len() - i,
    {
        if bytes[i] != mark[i] {
            assert(bytes@.subrange(0, mark@.len() as int)[i as int] != mark@[i as int]);
            return false;
        }
        i = i + 1;
    }
    assert(bytes@.subrange(0, mark@.len() as int) =~= mark@);
    true
}

/// The text of the file called `path` with the bytes `bytes`.
pub fn read_text_file_lossy(bytes: Vec<u8>, path: &str) -> (r: Result<String, LauncherError>)
    ensures
        error::outcome(r) == file_text(bytes@, path@),
{
    if has_mark(&bytes, &[0xff, 0xfe]) {
        assert(mark_le().is_prefix_of(bytes@));
        let words = words_behind_mark(&bytes, true);
        return utf::decode_words(&words, text::concat(path, " is not valid UTF-16LE: ").as_str());
    }
    if has_mark(&bytes, &[0xfe, 0xff]) {
        assert(mark_be().is_prefix_of(bytes@));
        let words = words_behind_mark(&bytes, false);
        return utf::decode_words(&words, text::concat(path, " is not valid UTF-16BE: ").as_str());
    }
    if has_mark(&bytes, &[0xef, 0xbb, 0xbf]) {
        let mut tail: Vec<u8> = Vec::new();
        let mut i: usize = 3;
        assert(tail@ =~= bytes@.subrange(3, 3));
        while i < bytes.len()
            invariant
                3 <= i <= bytes@.len(),
                tail@ == bytes@.subrange(3, i as int),
            decreases bytes@.len() - i,
        {
            tail.push(bytes[i]);
            assert(bytes@.subrange(3, i + 1) =~= bytes@.subrange(3, i as int).push(bytes@[i as int]));
            i = i + 1;
        }
        assert(tail@ =~= bytes@.skip(3));
        return utf::decode_text(tail, text::concat(path, " is not valid UTF-8: ").as_str());
    }
    utf::decode_text(bytes, text::concat(path, " is not valid UTF-8/UTF-16 RDP text: ").as_str())
}

/// The content of the template that is taken over from `content`, the text of the file called
/// `source`.
pub open spec fn template_text(content: Seq<char>, source: Seq<char>) -> Result<
    Seq<char>,
    Seq<char>,
> {
    if settings::setting_value(content, "full address"@) is None {
        Err("template is not an RDP file with full address: "@ + source)
    } else {
        Ok(normalized_breaks(content))
    }
}

/// The content of the template that is taken over from `content`, the text of the file called
/// `source`.
pub fn install_template_rdp(content: &str, source: &str) -> (r: Result<String, LauncherError>)
    ensures
        error::outcome(r) == template_text(content@, source@),
{
    match settings::rdp_setting_value(content, "full address") {
        None => Err(
            LauncherError::about("template is not an RDP file with full address: ", source),
        ),
        Some(_) => Ok(normalize_rdp_newlines(content)),
    }
}

// ---------------------------------------------------------------------------
// Laws of file names
// ---------------------------------------------------------------------------

/// Cutting leaves characters that may stand in a file name, and not many of them.
proof fn lemma_cut(name: Seq<char>, used: nat)
    requires
        used < 80,
    ensures
        forall|i: int| 0 <= i < cut(name, used).len() ==> !is_invalid(#[trigger] cut(name, used)[i]),
        used + encode_utf8(cut(name, used)).len() <= 83,
    decreases name.len(),
{
    if name.len() > 0 {
        let c = cleaned(name[0]);
        let rest = name.drop_first();
        let n = text::width(c);
        let one = seq![c];
        text::lemma_encode_push(seq![], c);
        assert(Seq::<char>::empty().push(c) == one);
        assert(encode_utf8(Seq::<char>::empty()).len() == 0);
        assert(encode_utf8(one).len() == n);
        assert(n <= 4);
        if used + n < 80 {
            let tail = cut(rest, used + n);
            lemma_cut(rest, used + n);
            text::lemma_encode_concat(one, tail);
            assert forall|i: int| 0 <= i < (one + tail).len() implies !is_invalid(
                #[trigger] (one + tail)[i],
            ) by {
                if i > 0 {
                    assert((one + tail)[i] == tail[i - 1]);
                }
            }
        }
    }
}

/// A part of a text has no longer an encoding than the text.
proof fn lemma_part_shorter(s: Seq<char>, i: int, j: int)
    requires
        0 <= i <= j <= s.len(),
    ensures
        encode_utf8(s.subrange(i, j)).len() <= encode_utf8(s).len(),
{
    assert(s == s.take(i) + (s.subrange(i, j) + s.skip(j)));
    text::lemma_encode_concat(s.take(i), s.subrange(i, j) + s.skip(j));
    text::lemma_encode_concat(s.subrange(i, j), s.skip(j));
}

/// The file name for a connection is not empty, holds no character that may not stand in a file
/// name, ends neither with a dot nor with a space, and has at most 83 bytes.
pub proof fn law_file_stem_is_valid(name: Seq<char>)
    ensures
        file_stem(name).len() > 0,
        forall|i: int| 0 <= i < file_stem(name).len() ==> !is_invalid(#[trigger] file_stem(name)[i]),
        !is_dot_or_space(file_stem(name).last()),
        encode_utf8(file_stem(name)).len() <= 83,
{
    let c = cut(name, 0);
    let ws = |c: char| text::is_white_space(c);
    let p = |c: char| is_dot_or_space(c);
    let t = text::trimmed(c);
    let stem = text::trimmed_end(t, p);
    lemma_cut(name, 0);
    text::lemma_trimmed_props(c, ws);
    text::lemma_trimmed_end_props(t, p);
    let (i, j) = choose|i: int, j: int|
        0 <= i <= j <= c.len() && text::trimmed_by(c, ws) == #[trigger] c.subrange(i, j);
    let k = choose|k: int| 0 <= k <= t.len() && stem == #[trigger] t.take(k);
    assert(stem =~= c.subrange(i, i + k));
    lemma_part_shorter(c, i, i + k);
    if stem.len() > 0 {
        assert forall|m: int| 0 <= m < stem.len() implies !is_invalid(#[trigger] stem[m]) by {
            assert(stem[m] == c[i + m]);
        }
        assert(!p(stem.last()));
    } else {
        reveal_strlit("jumpserver-rdp");
        let fixed = "jumpserver-rdp"@;
        assert forall|m: int| 0 <= m < fixed.len() implies '\0' <= #[trigger] fixed[m] <= '\u{7f}' by {}
        is_ascii_chars_encode_utf8(fixed);
    }
}

/// Characters that may stand in a file name are not cut off while there are few of them.
pub(crate) proof fn lemma_cut_keeps(name: Seq<char>, used: nat)
    requires
        forall|i: int| 0 <= i < name.len() ==> !is_invalid(#[trigger] name[i]),
        used + encode_utf8(name).len() <= 80,
    ensures
        cut(name, used) == name,
    decreases name.len(),
{
    if name.len() > 0 {
        let rest = name.drop_first();
        assert(!is_invalid(name[0]));
        assert forall|i: int| 0 <= i < rest.len() implies !is_invalid(#[trigger] rest[i]) by {
            assert(rest[i] == name[i + 1]);
        }
        lemma_cut_keeps(rest, used + text::width(name[0]));
        assert(seq![name[0]] + rest == name);
        if rest.len() > 0 {
            char_is_scalar(rest[0]);
            assert(encode_utf8(rest).len() > 0);
        }
    } else {
        assert(name == Seq::<char>::empty());
    }
}

/// A name that can be a file name is kept.
pub proof fn law_valid_name_kept(name: Seq<char>)
    requires
        0 < name.len(),
        encode_utf8(name).len() <= 80,
        forall|i: int| 0 <= i < name.len() ==> !is_invalid(#[trigger] name[i]),
        !text::is_white_space(name[0]),
        !text::is_white_space(name.last()),
        name.last() != '.',
    ensures
        file_stem(name) == name,
{
    lemma_cut_keeps(name, 0);
    text::lemma_trimmed_keeps(name, |c: char| text::is_white_space(c));
    let p = |c: char| is_dot_or_space(c);
    assert(!p(name.last()));
}

/// Cutting an ASCII name leaves ASCII characters, and no more than 80 of them.
proof fn lemma_cut_ascii(name: Seq<char>, used: nat)
    requires
        is_ascii_chars(name),
        used < 80,
    ensures
        is_ascii_chars(cut(name, used)),
        used + cut(name, used).len() <= 80,
    decreases name.len(),
{
    if name.len() > 0 {
        let c = cleaned(name[0]);
        let rest = name.drop_first();
        assert('\0' <= name[0] <= '\u{7f}');
        text::lemma_encode_char(c);
        assert(text::width(c) == 1);
        if used + 1 < 80 {
            assert forall|i: int| 0 <= i < rest.len() implies '\0' <= #[trigger] rest[i]
                <= '\u{7f}' by {
                assert(rest[i] == name[i + 1]);
            }
            lemma_cut_ascii(rest, used + 1);
            let tail = cut(rest, used + 1);
            assert forall|i: int| 0 <= i < (seq![c] + tail).len() implies '\0' <= #[trigger] (seq![c]
                + tail)[i] <= '\u{7f}' by {
                if i > 0 {
                    assert((seq![c] + tail)[i] == tail[i - 1]);
                }
            }
        }
    }
}

/// The file name for an ASCII name, without its extension, is an ASCII text of at most 80 bytes,
/// and it is its own file name.
pub proof fn law_ascii_file_stem_is_stable(name: Seq<char>)
    requires
        is_ascii_chars(name),
    ensures
        is_ascii_chars(file_stem(name)),
        encode_utf8(file_stem(name)).len() <= 80,
        file_stem(file_stem(name)) == file_stem(name),
{
    let c = cut(name, 0);
    let ws = |c: char| text::is_white_space(c);
    let p = |c: char| is_dot_or_space(c);
    let t = text::trimmed(c);
    let stem = text::trimmed_end(t, p);
    let result = file_stem(name);
    law_file_stem_is_valid(name);
    lemma_cut_ascii(name, 0);
    text::lemma_trimmed_props(c, ws);
    text::lemma_trimmed_end_props(t, p);
    let (i, j) = choose|i: int, j: int|
        0 <= i <= j <= c.len() && text::trimmed_by(c, ws) == #[trigger] c.subrange(i, j);
    let k = choose|k: int| 0 <= k <= t.len() && stem == #[trigger] t.take(k);
    if stem.len() > 0 {
        assert forall|m: int| 0 <= m < stem.len() implies '\0' <= #[trigger] stem[m]
            <= '\u{7f}' by {
            assert(stem[m] == c[i + m]);
        }
        assert(stem[0] == t[0]);
    } else {
        reveal_strlit("jumpserver-rdp");
        assert forall|m: int| 0 <= m < result.len() implies '\0' <= #[trigger] result[m]
            <= '\u{7f}' by {}
        assert(result[0] == 'j');
    }
    is_ascii_chars_encode_utf8(result);
    assert(!text::is_white_space(result.last())) by {
        let z = result[result.len() - 1];
        assert(!is_invalid(z) && !is_dot_or_space(z) && z <= '\u{7f}');
    }
    law_valid_name_kept(result);
}

// ---------------------------------------------------------------------------
// Laws of line breaks
// ---------------------------------------------------------------------------

/// What `normalized_breaks` does, in one pass.
spec fn paired(s: Seq<char>) -> Seq<char>
    decreases s.len(),
{
    if s.len() == 0 {
        seq![]
    } else if s.len() > 1 && s[0] == '\r' && s[1] == '\n' {
        seq!['\r', '\n'] + paired(s.skip(2))
    } else if s[0] == '\r' || s[0] == '\n' {
        seq!['\r', '\n'] + paired(s.drop_first())
    } else {
        seq![s[0]] + paired(s.drop_first())
    }
}

/// Replacing one character, seen from the first one of the text.
proof fn lemma_replace_char(c: char, rest: Seq<char>, d: char, to: Seq<char>)
    ensures
        text::replaced(seq![c] + rest, seq![d], to) == (if c == d {
            to
        } else {
            seq![c]
        }) + text::replaced(rest, seq![d], to),
{
    let s = seq![c] + rest;
    assert(s.subrange(0, 1) =~= seq![c]);
    assert(s.skip(1) =~= rest);
    assert(s.drop_first() =~= rest);
    assert(seq![d].is_prefix_of(s) == (c == d)) by {
        assert(seq![c][0] == c && seq![d][0] == d);
    }
}

/// The three replacements, seen from the first character of what the first one leaves.
proof fn lemma_two_replacements(c: char, rest: Seq<char>)
    ensures
        text::replaced(
            text::replaced(seq![c] + rest, seq!['\r'], seq!['\n']),
            seq!['\n'],
            seq!['\r', '\n'],
        ) == (if c == '\r' || c == '\n' {
            seq!['\r', '\n']
        } else {
            seq![c]
        }) + text::replaced(
            text::replaced(rest, seq!['\r'], seq!['\n']),
            seq!['\n'],
            seq!['\r', '\n'],
        ),
{
    let tail = text::replaced(rest, seq!['\r'], seq!['\n']);
    let d = if c == '\r' {
        '\n'
    } else {
        c
    };
    lemma_replace_char(c, rest, '\r', seq!['\n']);
    assert(text::replaced(seq![c] + rest, seq!['\r'], seq!['\n']) =~= seq![d] + tail);
    lemma_replace_char(d, tail, '\n', seq!['\r', '\n']);
}

/// One pass gives what the three replacements give.
proof fn lemma_paired(s: Seq<char>)
    ensures
        normalized_breaks(s) == paired(s),
    decreases s.len(),
{
    reveal_strlit("\r\n");
    reveal_strlit("\r");
    reveal_strlit("\n");
    assert("\r\n"@ =~= seq!['\r', '\n']);
    assert("\r"@ =~= seq!['\r']);
    assert("\n"@ =~= seq!['\n']);
    if s.len() > 0 {
        let both = seq!['\r', '\n'];
        assert(both.is_prefix_of(s) == (s.len() > 1 && s[0] == '\r' && s[1] == '\n')) by {
            if s.len() > 1 {
                assert(s.subrange(0, 2) =~= seq![s[0], s[1]]);
                assert(both[0] == '\r' && both[1] == '\n');
                assert(seq![s[0], s[1]][0] == s[0] && seq![s[0], s[1]][1] == s[1]);
            }
        }
        if both.is_prefix_of(s) {
            lemma_paired(s.skip(2));
            lemma_two_replacements('\n', text::replaced(s.skip(2), "\r\n"@, "\n"@));
        } else {
            lemma_paired(s.drop_first());
            lemma_two_replacements(s[0], text::replaced(s.drop_first(), "\r\n"@, "\n"@));
        }
    }
}

/// Whether each carriage return stands before a line feed, and each line feed behind a carriage
/// return.
pub open spec fn breaks_are_pairs(s: Seq<char>) -> bool {
    &&& forall|i: int|
        0 <= i < s.len() && #[trigger] s[i] == '\r' ==> i + 1 < s.len() && s[i + 1] == '\n'
    &&& forall|i: int| 0 <= i < s.len() && #[trigger] s[i] == '\n' ==> i > 0 && s[i - 1] == '\r'
}

/// Putting pairs, or characters that are no line breaks, before pairs gives pairs.
proof fn lemma_pairs_concat(a: Seq<char>, b: Seq<char>)
    requires
        breaks_are_pairs(a),
        breaks_are_pairs(b),
    ensures
        breaks_are_pairs(a + b),
{
    let s = a + b;
    let n = a.len() as int;
    assert forall|i: int| 0 <= i < s.len() && #[trigger] s[i] == '\r' implies i + 1 < s.len()
        && s[i + 1] == '\n' by {
        if i < n {
            assert(a[i] == '\r');
            assert(a[i + 1] == s[i + 1]);
        } else {
            assert(b[i - n] == '\r');
            assert(b[i - n + 1] == s[i + 1]);
        }
    }
    assert forall|i: int| 0 <= i < s.len() && #[trigger] s[i] == '\n' implies i > 0 && s[i - 1]
        == '\r' by {
        if i < n {
            assert(a[i] == '\n');
            assert(a[i - 1] == s[i - 1]);
        } else {
            assert(b[i - n] == '\n');
            assert(b[i - n - 1] == s[i - 1]);
        }
    }
}

proof fn lemma_paired_are_pairs(s: Seq<char>)
    ensures
        breaks_are_pairs(paired(s)),
    decreases s.len(),
{
    if s.len() > 0 {
        if s.len() > 1 && s[0] == '\r' && s[1] == '\n' {
            lemma_paired_are_pairs(s.skip(2));
            lemma_pairs_concat(seq!['\r', '\n'], paired(s.skip(2)));
        } else {
            lemma_paired_are_pairs(s.drop_first());
            if s[0] == '\r' || s[0] == '\n' {
                lemma_pairs_concat(seq!['\r', '\n'], paired(s.drop_first()));
            } else {
                lemma_pairs_concat(seq![s[0]], paired(s.drop_first()));
            }
        }
    }
}

proof fn lemma_pairs_kept(s: Seq<char>)
    requires
        breaks_are_pairs(s),
    ensures
        paired(s) == s,
    decreases s.len(),
{
    if s.len() > 0 {
        assert(s[0] != '\n');
        if s[0] == '\r' {
            assert(s[1] == '\n');
            let rest = s.skip(2);
            assert(breaks_are_pairs(rest)) by {
                assert forall|i: int| 0 <= i < rest.len() && #[trigger] rest[i] == '\r' implies i + 1
                    < rest.len() && rest[i + 1] == '\n' by {
                    assert(s[i + 2] == '\r');
                    assert(s[i + 3] == rest[i + 1]);
                }
                assert forall|i: int| 0 <= i < rest.len() && #[trigger] rest[i] == '\n' implies i > 0
                    && rest[i - 1] == '\r' by {
                    assert(s[i + 2] == '\n');
                    assert(s[i + 1] == '\r');
                }
            }
            lemma_pairs_kept(rest);
            assert(seq!['\r', '\n'] + rest =~= s);
        } else {
            let rest = s.drop_first();
            assert(breaks_are_pairs(rest)) by {
                assert forall|i: int| 0 <= i < rest.len() && #[trigger] rest[i] == '\r' implies i + 1
                    < rest.len() && rest[i + 1] == '\n' by {
                    assert(s[i + 1] == '\r');
                    assert(s[i + 2] == rest[i + 1]);
                }
                assert forall|i: int| 0 <= i < rest.len() && #[trigger] rest[i] == '\n' implies i > 0
                    && rest[i - 1] == '\r' by {
                    assert(s[i + 1] == '\n');
                    assert(s[i] == '\r');
                }
            }
            lemma_pairs_kept(rest);
            assert(seq![s[0]] + rest =~= s);
        }
    } else {
        assert(s == Seq::<char>::empty());
    }
}

/// Line breaks are written as pairs, and pairs are kept, so that writing them again changes
/// nothing.
pub proof fn law_breaks_become_pairs(content: Seq<char>)
    ensures
        breaks_are_pairs(normalized_breaks(content)),
        breaks_are_pairs(content) ==> normalized_breaks(content) == content,
        normalized_breaks(normalized_breaks(content)) == normalized_breaks(content),
{
    lemma_paired(content);
    lemma_paired(paired(content));
    lemma_paired_are_pairs(content);
    lemma_pairs_kept(paired(content));
    if breaks_are_pairs(content) {
        lemma_pairs_kept(content);
    }
}

/// Whether each carriage return stands before a line feed.
pub open spec fn returns_are_paired(s: Seq<char>) -> bool {
    forall|i: int|
        0 <= i < s.len() && #[trigger] s[i] == '\r' ==> i + 1 < s.len() && s[i + 1] == '\n'
}

/// Characters that are no line breaks are kept, and what follows them is seen on its own.
proof fn lemma_paired_prefix(a: Seq<char>, b: Seq<char>)
    requires
        !a.contains('\r'),
        !a.contains('\n'),
    ensures
        paired(a + b) == a + paired(b),
    decreases a.len(),
{
    if a.len() > 0 {
        let rest = a.drop_first();
        assert(a[0] != '\r' && a[0] != '\n');
        assert forall|i: int| 0 <= i < rest.len() implies rest[i] != '\r' && rest[i] != '\n' by {
            assert(rest[i] == a[i + 1]);
        }
        lemma_paired_prefix(rest, b);
        assert((a + b).drop_first() =~= rest + b);
        assert(seq![a[0]] + (rest + paired(b)) =~= a + paired(b));
    } else {
        assert(a + b =~= b);
        assert(a + paired(b) =~= paired(b));
    }
}

/// The lines of a text whose carriage returns stand before line feeds stay the same.
pub proof fn law_normalizing_keeps_lines(content: Seq<char>)
    requires
        returns_are_paired(content),
    ensures
        text::lines_of(normalized_breaks(content)) == text::lines_of(content),
{
    lemma_paired(content);
    lemma_paired_lines(content);
}

proof fn lemma_paired_lines(s: Seq<char>)
    requires
        returns_are_paired(s),
    ensures
        text::lines_of(paired(s)) == text::lines_of(s),
    decreases s.len(),
{
    if s.len() > 0 {
        let k = text::first_of(s, '\n') as int;
        text::lemma_first_of_props(s, '\n');
        if k >= s.len() {
            assert forall|i: int| 0 <= i < s.len() implies s[i] != '\r' && s[i] != '\n' by {
                if s[i] == '\r' {
                    assert(s[i + 1] == '\n');
                }
            }
            assert(s + Seq::<char>::empty() =~= s);
            lemma_paired_prefix(s, seq![]);
        } else {
            let line = text::without_cr(s.take(k));
            let n = line.len() as int;
            let rest = s.skip(k + 1);
            assert forall|i: int| 0 <= i < n implies line[i] != '\r' && line[i] != '\n' by {
                assert(line[i] == s[i]);
                if s[i] == '\r' {
                    assert(s[i + 1] == '\n');
                    assert(i + 1 == k);
                    assert(s.take(k).last() == '\r');
                }
            }
            assert(returns_are_paired(rest)) by {
                assert forall|i: int| 0 <= i < rest.len() && #[trigger] rest[i] == '\r' implies i + 1
                    < rest.len() && rest[i + 1] == '\n' by {
                    assert(s[i + k + 1] == '\r');
                    assert(s[i + k + 2] == rest[i + 1]);
                }
            }
            lemma_paired_lines(rest);
            let tail = s.skip(n);
            assert(s =~= line + tail);
            lemma_paired_prefix(line, tail);
            assert(paired(tail) == seq!['\r', '\n'] + paired(rest)) by {
                if n < k {
                    assert(tail[0] == s[n] && s[n] == s.take(k).last());
                    assert(tail[1] == s[k]);
                    assert(tail.skip(2) =~= rest);
                } else {
                    assert(tail[0] == s[k]);
                    assert(tail.drop_first() =~= rest);
                }
            }
            let t = paired(s);
            assert(t =~= line + seq!['\r', '\n'] + paired(rest));
            assert forall|j: int| 0 <= j < n + 1 implies t[j] != '\n' by {
                if j < n {
                    assert(t[j] == line[j]);
                }
            }
            assert(t[n + 1] == '\n');
            text::lemma_first_of(t, '\n', n + 1);
            assert(t.take(n + 1) =~= line.push('\r'));
            assert(line.push('\r').drop_last() =~= line);
            assert(t.skip(n + 2) =~= paired(rest));
        }
    }
}

/// The texts between the line breaks of `s`: a carriage return, a line feed, or both together.
pub open spec fn split_at_breaks(s: Seq<char>) -> Seq<Seq<char>>
    decreases s.len(),
{
    if s.len() == 0 {
        seq![seq![]]
    } else if s.len() > 1 && s[0] == '\r' && s[1] == '\n' {
        seq![Seq::<char>::empty()] + split_at_breaks(s.skip(2))
    } else if s[0] == '\r' || s[0] == '\n' {
        seq![Seq::<char>::empty()] + split_at_breaks(s.drop_first())
    } else {
        let rest = split_at_breaks(s.drop_first());
        seq![seq![s[0]] + rest[0]] + rest.drop_first()
    }
}

/// Joining texts of which the first one is empty.
proof fn lemma_joined_behind_break(parts: Seq<Seq<char>>, sep: Seq<char>)
    requires
        parts.len() > 0,
    ensures
        text::joined(seq![Seq::<char>::empty()] + parts, sep) == sep + text::joined(parts, sep),
{
    let all = seq![Seq::<char>::empty()] + parts;
    text::lemma_joined_first(all, sep);
    assert(all.drop_first() =~= parts);
    assert(all[0] + sep + text::joined(parts, sep) =~= sep + text::joined(parts, sep));
}

/// Joining texts of which the first one has one more character.
proof fn lemma_joined_behind_char(c: char, parts: Seq<Seq<char>>, sep: Seq<char>)
    requires
        parts.len() > 0,
    ensures
        text::joined(seq![seq![c] + parts[0]] + parts.drop_first(), sep) == seq![c] + text::joined(
            parts,
            sep,
        ),
{
    let all = seq![seq![c] + parts[0]] + parts.drop_first();
    if parts.len() > 1 {
        text::lemma_joined_first(all, sep);
        text::lemma_joined_first(parts, sep);
        assert(all.drop_first() =~= parts.drop_first());
        let tail = text::joined(parts.drop_first(), sep);
        assert((seq![c] + parts[0]) + sep + tail =~= seq![c] + (parts[0] + sep + tail));
    }
}

/// What stands between the line breaks is kept by writing them as pairs.
proof fn lemma_paired_parts(s: Seq<char>)
    ensures
        split_at_breaks(s).len() > 0,
        paired(s) == text::joined(split_at_breaks(s), seq!['\r', '\n']),
        split_at_breaks(paired(s)) == split_at_breaks(s),
    decreases s.len(),
{
    let sep = seq!['\r', '\n'];
    let t = paired(s);
    if s.len() > 0 {
        if s[0] == '\r' || s[0] == '\n' {
            let rest = if s.len() > 1 && s[0] == '\r' && s[1] == '\n' {
                s.skip(2)
            } else {
                s.drop_first()
            };
            lemma_paired_parts(rest);
            lemma_joined_behind_break(split_at_breaks(rest), sep);
            assert(t == sep + paired(rest));
            assert(t[0] == '\r' && t[1] == '\n');
            assert(t.skip(2) =~= paired(rest));
        } else {
            let rest = s.drop_first();
            lemma_paired_parts(rest);
            lemma_joined_behind_char(s[0], split_at_breaks(rest), sep);
            assert(t == seq![s[0]] + paired(rest));
            assert(t[0] == s[0]);
            assert(t.drop_first() =~= paired(rest));
        }
    }
}

/// Writing line breaks as pairs changes nothing else: the texts between them are kept, and so is
/// the number of line breaks.
pub proof fn law_normalizing_keeps_text_between_breaks(content: Seq<char>)
    ensures
        normalized_breaks(content) == text::joined(split_at_breaks(content), "\r\n"@),
        split_at_breaks(normalized_breaks(content)) == split_at_breaks(content),
{
    reveal_strlit("\r\n");
    assert("\r\n"@ =~= seq!['\r', '\n']);
    lemma_paired(content);
    lemma_paired_parts(content);
}

// ---------------------------------------------------------------------------
// Laws of texts in files
// ---------------------------------------------------------------------------

/// The bytes of the words `words`, the low byte of each first.
pub open spec fn bytes_le(words: Seq<u16>) -> Seq<u8> {
    Seq::new(
        2 * words.len(),
        |i: int|
            if i % 2 == 0 {
                (words[i / 2] % 256) as u8
            } else {
                (words[i / 2] / 256) as u8
            },
    )
}

/// The bytes of the words `words`, the high byte of each first.
pub open spec fn bytes_be(words: Seq<u16>) -> Seq<u8> {
    Seq::new(
        2 * words.len(),
        |i: int|
            if i % 2 == 0 {
                (words[i / 2] / 256) as u8
            } else {
                (words[i / 2] % 256) as u8
            },
    )
}

/// Words come back from their bytes.
proof fn lemma_words_round_trip(words: Seq<u16>)
    ensures
        words_le(bytes_le(words)) == words,
        words_be(bytes_be(words)) == words,
{
    let l = bytes_le(words);
    let b = bytes_be(words);
    assert forall|i: int| 0 <= i < words.len() implies words_le(l)[i] == words[i] && words_be(b)[i]
        == words[i] by {
        let j = 2 * i;
        assert(j % 2 == 0 && j / 2 == i && (j + 1) % 2 == 1 && (j + 1) / 2 == i);
        assert(l[j] == words[i] % 256 && l[j + 1] == words[i] / 256);
        assert(b[j] == words[i] / 256 && b[j + 1] == words[i] % 256);
    }
    assert(words_le(l) =~= words);
    assert(words_be(b) =~= words);
}

/// A single byte behind pairs of bytes belongs to no word.
proof fn lemma_odd_byte(b: Seq<u8>, x: u8)
    requires
        b.len() % 2 == 0,
    ensures
        words_le(b.push(x)) == words_le(b),
        words_be(b.push(x)) == words_be(b),
{
    let c = b.push(x);
    assert(c.len() / 2 == b.len() / 2);
    assert forall|i: int| 0 <= i < b.len() / 2 implies words_le(c)[i] == words_le(b)[i]
        && words_be(c)[i] == words_be(b)[i] by {
        assert(c[2 * i] == b[2 * i] && c[2 * i + 1] == b[2 * i + 1]);
    }
    assert(words_le(c) =~= words_le(b));
    assert(words_be(c) =~= words_be(b));
}

/// A mark stands at the start of what it was put before, and no mark with another first byte does.
proof fn lemma_marked(mark: Seq<u8>, b: Seq<u8>, other: Seq<u8>)
    requires
        mark.len() > 0,
        other.len() > 0,
    ensures
        mark.is_prefix_of(mark + b),
        (mark + b).skip(mark.len() as int) == b,
        other[0] != mark[0] ==> !other.is_prefix_of(mark + b),
{
    let all = mark + b;
    assert(all.subrange(0, mark.len() as int) =~= mark);
    assert(all.skip(mark.len() as int) =~= b);
    if other.is_prefix_of(all) {
        assert(all.subrange(0, other.len() as int)[0] == all[0]);
    }
}

/// What is read of bytes behind the byte order mark of UTF-16 with the low byte first.
proof fn lemma_marked_le(b: Seq<u8>, path: Seq<char>)
    ensures
        file_text(mark_le() + b, path) == utf::decoded_words(
            words_le(b),
            path + " is not valid UTF-16LE: "@,
        ),
{
    lemma_marked(mark_le(), b, mark_be());
}

/// What is read of bytes behind the byte order mark of UTF-16 with the high byte first.
proof fn lemma_marked_be(b: Seq<u8>, path: Seq<char>)
    ensures
        file_text(mark_be() + b, path) == utf::decoded_words(
            words_be(b),
            path + " is not valid UTF-16BE: "@,
        ),
{
    lemma_marked(mark_be(), b, mark_le());
}

/// What is read of bytes behind the byte order mark of UTF-8.
proof fn lemma_marked_utf8(b: Seq<u8>, path: Seq<char>)
    ensures
        file_text(mark_utf8() + b, path) == utf::decoded_text(b, path + " is not valid UTF-8: "@),
{
    lemma_marked(mark_utf8(), b, mark_le());
    lemma_marked(mark_utf8(), b, mark_be());
}

/// What is read of bytes behind each byte order mark.
proof fn lemma_marked_text(b: Seq<u8>, path: Seq<char>)
    ensures
        file_text(mark_le() + b, path) == utf::decoded_words(
            words_le(b),
            path + " is not valid UTF-16LE: "@,
        ),
        file_text(mark_be() + b, path) == utf::decoded_words(
            words_be(b),
            path + " is not valid UTF-16BE: "@,
        ),
        file_text(mark_utf8() + b, path) == utf::decoded_text(b, path + " is not valid UTF-8: "@),
{
    lemma_marked_le(b, path);
    lemma_marked_be(b, path);
    lemma_marked_utf8(b, path);
}

/// The UTF-8 bytes of a text that does not start with a byte order mark start with none.
proof fn lemma_unmarked(s: Seq<char>)
    requires
        s.len() > 0 ==> s[0] != '\u{feff}',
    ensures
        !mark_le().is_prefix_of(encode_utf8(s)),
        !mark_be().is_prefix_of(encode_utf8(s)),
        !mark_utf8().is_prefix_of(encode_utf8(s)),
{
    let b = encode_utf8(s);
    if s.len() > 0 {
        encode_utf8_valid_utf8(s);
        encode_utf8_first_scalar(s);
        assert(valid_first_scalar(b));
        assert(b[0] <= 0xf7);
        if mark_le().is_prefix_of(b) {
            assert(b.subrange(0, 2)[0] == b[0]);
        }
        if mark_be().is_prefix_of(b) {
            assert(b.subrange(0, 2)[0] == b[0]);
        }
        if mark_utf8().is_prefix_of(b) {
            assert(b.subrange(0, 3)[0] == b[0]);
            assert(b.subrange(0, 3)[1] == b[1]);
            assert(b.subrange(0, 3)[2] == b[2]);
            assert((((0xefu8 & 0x0f) as u32) << 12) | (((0xbbu8 & 0x3f) as u32) << 6) | ((0xbfu8
                & 0x3f) as u32) == 0xfeffu32) by (bit_vector);
            assert(decode_first_scalar(b) == 0xfeff);
            assert(s[0] as u32 == 0xfeff);
            char_u32_cast(s[0], 0xfeff);
        }
    } else {
        assert(b.len() == 0);
    }
}

/// A text comes back from its bytes in a file: UTF-16 in either order of bytes and UTF-8 behind
/// their byte order marks, and UTF-8 without one, where the text does not itself start with the
/// character of the mark. The mark is no part of the text.
pub proof fn law_file_text_reads_back(s: Seq<char>, path: Seq<char>)
    ensures
        file_text(mark_le() + bytes_le(utf::utf16_encoded(s)), path) == Ok::<
            Seq<char>,
            Seq<char>,
        >(s),
        file_text(mark_be() + bytes_be(utf::utf16_encoded(s)), path) == Ok::<
            Seq<char>,
            Seq<char>,
        >(s),
        file_text(mark_utf8() + encode_utf8(s), path) == Ok::<Seq<char>, Seq<char>>(s),
        (s.len() > 0 ==> s[0] != '\u{feff}') ==> file_text(encode_utf8(s), path) == Ok::<
            Seq<char>,
            Seq<char>,
        >(s),
{
    let words = utf::utf16_encoded(s);
    lemma_marked_text(bytes_le(words), path);
    lemma_marked_text(bytes_be(words), path);
    lemma_marked_text(encode_utf8(s), path);
    lemma_words_round_trip(words);
    utf::law_utf16_round_trip(s);
    encode_utf8_valid_utf8(s);
    encode_utf8_decode_utf8(s);
    if s.len() > 0 ==> s[0] != '\u{feff}' {
        lemma_unmarked(s);
    }
}

/// A single byte at the end behind a mark of UTF-16 changes nothing.
pub proof fn law_odd_last_byte_ignored(b: Seq<u8>, x: u8, path: Seq<char>)
    requires
        b.len() % 2 == 0,
    ensures
        file_text(mark_le() + b.push(x), path) == file_text(mark_le() + b, path),
        file_text(mark_be() + b.push(x), path) == file_text(mark_be() + b, path),
{
    lemma_odd_byte(b, x);
    lemma_marked_text(b, path);
    lemma_marked_text(b.push(x), path);
}

/// Bytes that are not valid in the encoding that their mark tells are refused, and no others.
pub proof fn law_invalid_file_text_refused(b: Seq<u8>, path: Seq<char>)
    ensures
        file_text(mark_le() + b, path) is Err <==> utf::utf16_decoded(words_le(b)) is None,
        file_text(mark_be() + b, path) is Err <==> utf::utf16_decoded(words_be(b)) is None,
        file_text(mark_utf8() + b, path) is Err <==> !valid_utf8(b),
        !mark_le().is_prefix_of(b) && !mark_be().is_prefix_of(b) && !mark_utf8().is_prefix_of(b)
            ==> (file_text(b, path) is Err <==> !valid_utf8(b)),
{
    lemma_marked_text(b, path);
}

/// The byte order marks, and how pairs of bytes behind them form words.
pub proof fn law_marks_and_words(a: u8, b: u8, rest: Seq<u8>)
    ensures
        mark_le() == seq![255u8, 254u8],
        mark_be() == seq![254u8, 255u8],
        mark_utf8() == seq![239u8, 187u8, 191u8],
        words_le(seq![a, b] + rest) == seq![(a + 256 * b) as u16] + words_le(rest),
        words_be(seq![a, b] + rest) == seq![(256 * a + b) as u16] + words_be(rest),
        words_le(seq![a]).len() == 0 && words_le(Seq::empty()).len() == 0,
        words_be(seq![a]).len() == 0 && words_be(Seq::empty()).len() == 0,
{
    let all = seq![a, b] + rest;
    assert(all.len() / 2 == 1 + rest.len() / 2);
    assert forall|i: int| 0 <= i < all.len() / 2 implies words_le(all)[i] == (seq![
        (a + 256 * b) as u16,
    ] + words_le(rest))[i] && words_be(all)[i] == (seq![(256 * a + b) as u16] + words_be(rest))[i] by {
        if i > 0 {
            assert(all[2 * i] == rest[2 * (i - 1)] && all[2 * i + 1] == rest[2 * (i - 1) + 1]);
            assert(words_le(rest)[i - 1] == words_le(all)[i]);
        } else {
            assert(all[0] == a && all[1] == b);
        }
    }
    assert(words_le(all) =~= seq![(a + 256 * b) as u16] + words_le(rest));
    assert(words_be(all) =~= seq![(256 * a + b) as u16] + words_be(rest));
}

/// The message about a file that cannot be read names the file and the encoding that its mark
/// tells.
pub proof fn law_messages_about_files(b: Seq<u8>, path: Seq<char>)
    ensures
        utf::utf16_decoded(words_le(b)) is None ==> file_text(mark_le() + b, path) == Err::<
            Seq<char>,
            Seq<char>,
        >(path + " is not valid UTF-16LE: "@ + utf::utf16_error_text(words_le(b))),
        utf::utf16_decoded(words_be(b)) is None ==> file_text(mark_be() + b, path) == Err::<
            Seq<char>,
            Seq<char>,
        >(path + " is not valid UTF-16BE: "@ + utf::utf16_error_text(words_be(b))),
        !valid_utf8(b) ==> file_text(mark_utf8() + b, path) == Err::<Seq<char>, Seq<char>>(
            path + " is not valid UTF-8: "@ + utf::utf8_error_text(b),
        ),
        !valid_utf8(b) && !mark_le().is_prefix_of(b) && !mark_be().is_prefix_of(b)
            && !mark_utf8().is_prefix_of(b) ==> file_text(b, path) == Err::<Seq<char>, Seq<char>>(
            path + " is not valid UTF-8/UTF-16 RDP text: "@ + utf::utf8_error_text(b),
        ),
{
    lemma_marked_text(b, path);
}

} // verus!
