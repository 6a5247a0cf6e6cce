//! Reading `.rdp` files: lines of the form `name:type:value`.
use crate::text;
use vstd::prelude::*;
use vstd::utf8::*;

verus! {

// ---------------------------------------------------------------------------
// Settings
// ---------------------------------------------------------------------------

/// The name of the setting on `line`.
pub open spec fn line_key(line: Seq<char>) -> Seq<char> {
    text::trimmed(text::before(line, ':'))
}

/// The host of an address, without the port behind it.
pub open spec fn host_of(address: Seq<char>) -> Seq<char> {
    text::trimmed(text::before(address, ':'))
}

/// What stands behind the type of a setting, or all of it where it has no type.
pub open spec fn value_part(rest: Seq<char>) -> Seq<char> {
    match text::split_first(rest, ':') {
        Some((_, value)) => value,
        None => rest,
    }
}

/// The value of the first setting in `lines` with the name `key`. Reading stops at a line that is
/// no setting.
pub open spec fn setting_in(lines: Seq<Seq<char>>, key: Seq<char>) -> Option<Seq<char>>
    decreases lines.len(),
{
    if lines.len() == 0 {
        None
    } else {
        let line = text::trimmed(lines[0]);
        if line.len() == 0 {
            setting_in(lines.drop_first(), key)
        } else {
            match text::split_first(line, ':') {
                None => None,
                Some((name, rest)) => if text::same_ignoring_case(name, key) {
                    Some(value_part(rest))
                } else {
                    setting_in(lines.drop_first(), key)
                },
            }
        }
    }
}

/// The value of the setting `key` in `content`.
pub open spec fn setting_value(content: Seq<char>, key: Seq<char>) -> Option<Seq<char>> {
    setting_in(text::lines_of(content), key)
}

/// The model of an optional text.
pub open spec fn text_view(s: Option<&str>) -> Option<Seq<char>> {
    match s {
        Some(t) => Some(t@),
        None => None,
    }
}

/// The name of the setting on `line`.
pub fn rdp_line_key<'a>(line: &'a str) -> (r: &'a str)
    ensures
        r@ == line_key(line@),
{
    text::trim(text::before_char(line, ':'))
}

/// The host of an address, without the port behind it.
pub fn swift_server_address<'a>(full_address: &'a str) -> (r: &'a str)
    ensures
        r@ == host_of(full_address@),
{
    text::trim(text::before_char(full_address, ':'))
}

/// The value of the setting `wanted_key` in `content`.
pub fn rdp_setting_value<'a>(content: &'a str, wanted_key: &str) -> (r: Option<&'a str>)
    ensures
        text_view(r) == setting_value(content@, wanted_key@),
{
    let lines = text::lines(content);
    let ghost all = text::lines_of(content@);
    let mut i: usize = 0;
    assert(all.skip(0) == all);
    while i < lines.len()
        invariant
            i <= lines@.len(),
            all == text::lines_of(content@),
            text::views(lines@) == all,
            setting_in(all, wanted_key@) == setting_in(all.skip(i as int), wanted_key@),
        decreases lines@.len() - i,
    {
        assert(all[i as int] == lines@[i as int]@);
        assert(all.skip(i as int).drop_first() == all.skip(i + 1));
        let trimmed = text::trim(lines[i]);
        if !trimmed.is_empty() {
            match text::split_once(trimmed, ':') {
                None => {
                    return None;
                },
                Some((key, rest)) => {
                    if text::eq_ignoring_case(key, wanted_key) {
                        return match text::split_once(rest, ':') {
                            Some((_, value)) => Some(value),
                            None => Some(rest),
                        };
                    }
                },
            }
        }
        i = i + 1;
    }
    None
}

// ---------------------------------------------------------------------------
// Recognising a configuration
// ---------------------------------------------------------------------------

/// Whether `line` sets a user name that carries a connection token behind a bar.
pub open spec fn is_token_username(line: Seq<char>) -> bool {
    "username:s:"@.is_prefix_of(text::lowered(line)) && line.contains('|')
}

/// Whether `content` sets a user name that carries a connection token.
pub open spec fn has_token_username(content: Seq<char>) -> bool {
    exists|i: int|
        0 <= i < text::lines_of(content).len() && is_token_username(
            #[trigger] text::lines_of(content)[i],
        )
}

/// Whether `line` sets the address or the user name.
pub open spec fn is_rdp_mark(line: Seq<char>) -> bool {
    "full address:s:"@.is_prefix_of(line) || "username:s:"@.is_prefix_of(line)
}

/// Whether one of the first twelve lines of `content` sets the address or the user name.
pub open spec fn is_rdp(content: Seq<char>) -> bool {
    exists|i: int|
        0 <= i < text::lines_of(content).len() && i < 12 && is_rdp_mark(
            #[trigger] text::lines_of(content)[i],
        )
}

/// Whether `x` may stand in a Base64 text.
pub open spec fn is_base64_byte(x: u8) -> bool {
    ||| '0' as u8 <= x <= '9' as u8
    ||| 'A' as u8 <= x <= 'Z' as u8
    ||| 'a' as u8 <= x <= 'z' as u8
    ||| x == '+' as u8 || x == '/' as u8 || x == '-' as u8 || x == '_' as u8 || x == '=' as u8
    ||| x == '\r' as u8 || x == '\n' as u8 || x == '\t' as u8 || x == ' ' as u8
}

/// Whether `content`, without white space around it, has at least 16 bytes, and only such as may
/// stand in a Base64 text.
pub open spec fn is_base64(content: Seq<char>) -> bool {
    let b = encode_utf8(text::trimmed(content));
    b.len() >= 16 && forall|i: int| 0 <= i < b.len() ==> is_base64_byte(#[trigger] b[i])
}

/// `content` with the escapes of line breaks replaced by line feeds.
pub open spec fn unescaped_breaks(content: Seq<char>) -> Seq<char> {
    text::replaced(
        text::replaced(text::replaced(content, "\\r\\n"@, "\n"@), "\\n"@, "\n"@),
        "\\r"@,
        "\n"@,
    )
}

/// Whether `content` sets a user name that carries a connection token.
pub fn has_jumpserver_token_username(content: &str) -> (r: bool)
    ensures
        r == has_token_username(content@),
{
    let lines = text::lines(content);
    let ghost all = text::lines_of(content@);
    let mut i: usize = 0;
    while i < lines.len()
        invariant
            i <= lines@.len(),
            all == text::lines_of(content@),
            text::views(lines@) == all,
            forall|j: int| 0 <= j < i ==> !is_token_username(#[trigger] all[j]),
        decreases lines@.len() - i,
    {
        let lower = text::to_lower(lines[i]);
        assert(all[i as int] == lines@[i as int]@);
        if text::starts_with(lower.as_str(), "username:s:") && text::contains_char(lines[i], '|') {
            return true;
        }
        i = i + 1;
    }
    assert(all.len() == lines@.len());
    false
}

/// Whether one of the first twelve lines of `content` sets the address or the user name.
pub fn looks_like_rdp(content: &str) -> (r: bool)
    ensures
        r == is_rdp(content@),
{
    let lines = text::lines(content);
    let ghost all = text::lines_of(content@);
    let mut i: usize = 0;
    while i < lines.len() && i < 12
        invariant
            i <= lines@.len(),
            i <= 12,
            all == text::lines_of(content@),
            text::views(lines@) == all,
            forall|j: int| 0 <= j < i ==> !is_rdp_mark(#[trigger] all[j]),
        decreases lines@.len() - i,
    {
        assert(all[i as int] == lines@[i as int]@);
        if text::starts_with(lines[i], "full address:s:") || text::starts_with(
            lines[i],
            "username:s:",
        ) {
            return true;
        }
        i = i + 1;
    }
    assert(all.len() == lines@.len());
    false
}

/// Whether `content` has the form of a Base64 text of some length.
pub fn looks_like_base64(content: &str) -> (r: bool)
    ensures
        r == is_base64(content@),
{
    let trimmed = text::trim(content);
    let bytes = trimmed.as_bytes();
    if bytes.len() < 16 {
        return false;
    }
    let mut i: usize = 0;
    while i < bytes.len()
        invariant
            i <= bytes@.len(),
            bytes@ == encode_utf8(text::trimmed(content@)),
            forall|j: int| 0 <= j < i ==> is_base64_byte(#[trigger] bytes@[j]),
        decreases bytes@.len() - i,
    {
        let x: u8 = bytes[i];
        let fits = ('0' as u8 <= x && x <= '9' as u8) || ('A' as u8 <= x && x <= 'Z' as u8) || (
        'a' as u8 <= x && x <= 'z' as u8) || x == '+' as u8 || x == '/' as u8 || x == '-' as u8
            || x == '_' as u8 || x == '=' as u8 || x == '\r' as u8 || x == '\n' as u8 || x
            == '\t' as u8 || x == ' ' as u8;
        if !fits {
            return false;
        }
        i = i + 1;
    }
    true
}

/// `content` with the escapes of line breaks replaced by line feeds.
pub fn unescape_rdp_line_breaks(content: &str) -> (r: String)
    ensures
        r@ == unescaped_breaks(content@),
{
    proof {
        reveal_strlit("\\r\\n");
        reveal_strlit("\\n");
        reveal_strlit("\\r");
    }
    let a = text::replace(content, "\\r\\n", "\n");
    let b = text::replace(a.as_str(), "\\n", "\n");
    text::replace(b.as_str(), "\\r", "\n")
}

// ---------------------------------------------------------------------------
// Laws
// ---------------------------------------------------------------------------

/// A text without a backslash holds no escapes of line breaks.
pub proof fn law_text_without_escapes_kept(content: Seq<char>)
    requires
        !content.contains('\\'),
    ensures
        unescaped_breaks(content) == content,
{
    law_no_escapes_left(content);
}

/// Whether an escape of a line break stands at the start of `s`.
spec fn starts_with_escape(s: Seq<char>) -> bool {
    s.len() > 1 && s[0] == '\\' && (s[1] == 'n' || s[1] == 'r')
}

/// What `unescaped_breaks` does, in one pass.
spec fn unescaped_once(s: Seq<char>) -> Seq<char>
    decreases s.len(),
{
    if s.len() == 0 {
        seq![]
    } else if starts_with_escape(s) && s[1] == 'r' && s.len() > 3 && s[2] == '\\' && s[3] == 'n' {
        seq!['\n'] + unescaped_once(s.skip(4))
    } else if starts_with_escape(s) {
        seq!['\n'] + unescaped_once(s.skip(2))
    } else {
        seq![s[0]] + unescaped_once(s.drop_first())
    }
}

/// One step of replacing a pair of characters.
proof fn lemma_replace_pair(s: Seq<char>, a: char, b: char)
    requires
        s.len() > 0,
    ensures
        text::replaced(s, seq![a, b], seq!['\n']) == (if s.len() > 1 && s[0] == a && s[1] == b {
            seq!['\n'] + text::replaced(s.skip(2), seq![a, b], seq!['\n'])
        } else {
            seq![s[0]] + text::replaced(s.drop_first(), seq![a, b], seq!['\n'])
        }),
        text::replaced(s, seq![a, b], seq!['\n']).len() > 0,
        text::replaced(s, seq![a, b], seq!['\n'])[0] == s[0] || text::replaced(
            s,
            seq![a, b],
            seq!['\n'],
        )[0] == '\n',
{
    let from = seq![a, b];
    assert(from.is_prefix_of(s) == (s.len() > 1 && s[0] == a && s[1] == b)) by {
        if s.len() > 1 {
            assert(s.subrange(0, 2) =~= seq![s[0], s[1]]);
            assert(from[0] == a && from[1] == b);
            assert(seq![s[0], s[1]][0] == s[0] && seq![s[0], s[1]][1] == s[1]);
        }
    }
}

/// One step of replacing an escaped carriage return and line feed.
proof fn lemma_replace_four(s: Seq<char>)
    requires
        s.len() > 0,
    ensures
        ({
            let from = seq!['\\', 'r', '\\', 'n'];
            let out = text::replaced(s, from, seq!['\n']);
            &&& out == (if s.len() > 3 && s[0] == '\\' && s[1] == 'r' && s[2] == '\\' && s[3]
                == 'n' {
                seq!['\n'] + text::replaced(s.skip(4), from, seq!['\n'])
            } else {
                seq![s[0]] + text::replaced(s.drop_first(), from, seq!['\n'])
            })
            &&& out.len() > 0
            &&& out[0] == s[0] || out[0] == '\n'
        }),
{
    let from = seq!['\\', 'r', '\\', 'n'];
    assert(from.is_prefix_of(s) == (s.len() > 3 && s[0] == '\\' && s[1] == 'r' && s[2] == '\\'
        && s[3] == 'n')) by {
        if s.len() > 3 {
            let start = seq![s[0], s[1], s[2], s[3]];
            assert(s.subrange(0, 4) =~= start);
            assert(from[0] == '\\' && from[1] == 'r' && from[2] == '\\' && from[3] == 'n');
            assert(start[0] == s[0] && start[1] == s[1] && start[2] == s[2] && start[3] == s[3]);
        }
    }
}

/// The second and the third replacement, seen from the first characters of what the first one
/// leaves.
proof fn lemma_two_escapes(s: Seq<char>)
    requires
        s.len() > 0,
    ensures
        ({
            let n = seq!['\\', 'n'];
            let r = seq!['\\', 'r'];
            let f = seq!['\n'];
            text::replaced(text::replaced(s, n, f), r, f) == (if starts_with_escape(s) {
                f + text::replaced(text::replaced(s.skip(2), n, f), r, f)
            } else {
                seq![s[0]] + text::replaced(text::replaced(s.drop_first(), n, f), r, f)
            })
        }),
{
    let n = seq!['\\', 'n'];
    let r = seq!['\\', 'r'];
    let f = seq!['\n'];
    let t = text::replaced(s, n, f);
    lemma_replace_pair(s, '\\', 'n');
    lemma_replace_pair(t, '\\', 'r');
    if s.len() > 1 && s[0] == '\\' && s[1] == 'n' {
        assert(t.drop_first() =~= text::replaced(s.skip(2), n, f));
        assert(t[0] == '\n');
    } else {
        let rest = text::replaced(s.drop_first(), n, f);
        assert(t[0] == s[0]);
        assert(t.drop_first() =~= rest);
        if s.len() > 1 {
            lemma_replace_pair(s.drop_first(), '\\', 'n');
            assert(t[1] == rest[0]);
            if s[1] == 'r' {
                assert(s.drop_first().drop_first() =~= s.skip(2));
                assert(rest == seq!['r'] + text::replaced(s.skip(2), n, f));
                assert(t.skip(2) =~= text::replaced(s.skip(2), n, f));
            }
        }
    }
}

/// One pass gives what the three replacements give.
proof fn lemma_unescaped_once(s: Seq<char>)
    ensures
        unescaped_breaks(s) == unescaped_once(s),
    decreases s.len(),
{
    reveal_strlit("\\r\\n");
    reveal_strlit("\\n");
    reveal_strlit("\\r");
    reveal_strlit("\n");
    assert("\\r\\n"@ =~= seq!['\\', 'r', '\\', 'n']);
    assert("\\n"@ =~= seq!['\\', 'n']);
    assert("\\r"@ =~= seq!['\\', 'r']);
    assert("\n"@ =~= seq!['\n']);
    if s.len() > 0 {
        let four = seq!['\\', 'r', '\\', 'n'];
        let f = seq!['\n'];
        let t = text::replaced(s, four, f);
        lemma_replace_four(s);
        lemma_two_escapes(t);
        if s.len() > 3 && s[0] == '\\' && s[1] == 'r' && s[2] == '\\' && s[3] == 'n' {
            lemma_unescaped_once(s.skip(4));
            assert(t.drop_first() =~= text::replaced(s.skip(4), four, f));
        } else {
            let rest = s.drop_first();
            assert(t[0] == s[0]);
            assert(t.drop_first() =~= text::replaced(rest, four, f));
            lemma_unescaped_once(rest);
            if s.len() > 1 {
                lemma_replace_four(rest);
                assert(t[1] == text::replaced(rest, four, f)[0]);
                if starts_with_escape(s) {
                    assert(rest.drop_first() =~= s.skip(2));
                    assert(t.skip(2) =~= text::replaced(s.skip(2), four, f));
                    lemma_unescaped_once(s.skip(2));
                }
            }
        }
    }
}

/// Whether no escape of a line break stands in `s`.
pub open spec fn lacks_escapes(s: Seq<char>) -> bool {
    forall|i: int|
        0 <= i < s.len() - 1 && #[trigger] s[i] == '\\' ==> s[i + 1] != 'n' && s[i + 1] != 'r'
}

/// One pass leaves no escape.
proof fn lemma_once_lacks_escapes(s: Seq<char>)
    ensures
        lacks_escapes(unescaped_once(s)),
        unescaped_once(s).len() > 0 ==> unescaped_once(s)[0] == s[0] || unescaped_once(s)[0] == '\n',
        unescaped_once(s).len() > 0 ==> s.len() > 0,
    decreases s.len(),
{
    if s.len() > 0 {
        let out = unescaped_once(s);
        let rest = if starts_with_escape(s) && s[1] == 'r' && s.len() > 3 && s[2] == '\\' && s[3]
            == 'n' {
            s.skip(4)
        } else if starts_with_escape(s) {
            s.skip(2)
        } else {
            s.drop_first()
        };
        let tail = unescaped_once(rest);
        lemma_once_lacks_escapes(rest);
        assert(out.drop_first() =~= tail);
        assert forall|i: int| 0 <= i < out.len() - 1 && #[trigger] out[i] == '\\' implies out[i + 1]
            != 'n' && out[i + 1] != 'r' by {
            assert(out[i + 1] == tail[i]);
            if i > 0 {
                assert(out[i] == tail[i - 1]);
            } else {
                assert(!starts_with_escape(s));
                assert(rest[0] == s[1]);
            }
        }
    }
}

/// One pass keeps a text without escapes.
proof fn lemma_once_keeps(s: Seq<char>)
    requires
        lacks_escapes(s),
    ensures
        unescaped_once(s) == s,
    decreases s.len(),
{
    if s.len() > 0 {
        let rest = s.drop_first();
        assert(!starts_with_escape(s)) by {
            if s.len() > 1 && s[0] == '\\' {
                assert(s[1] != 'n' && s[1] != 'r');
            }
        }
        assert forall|i: int| 0 <= i < rest.len() - 1 && #[trigger] rest[i] == '\\' implies rest[i
            + 1] != 'n' && rest[i + 1] != 'r' by {
            assert(rest[i] == s[i + 1]);
            assert(rest[i + 1] == s[i + 2]);
        }
        lemma_once_keeps(rest);
        assert(seq![s[0]] + rest =~= s);
    } else {
        assert(s =~= Seq::<char>::empty());
    }
}

/// No escape of a line break is left, and a text without one is kept, so that replacing them again
/// changes nothing.
pub proof fn law_no_escapes_left(content: Seq<char>)
    ensures
        lacks_escapes(unescaped_breaks(content)),
        lacks_escapes(content) ==> unescaped_breaks(content) == content,
        unescaped_breaks(unescaped_breaks(content)) == unescaped_breaks(content),
{
    lemma_unescaped_once(content);
    lemma_unescaped_once(unescaped_once(content));
    lemma_once_lacks_escapes(content);
    lemma_once_keeps(unescaped_once(content));
    if lacks_escapes(content) {
        lemma_once_keeps(content);
    }
}

/// A text that is a configuration, once its escapes are replaced, has at least eleven characters.
pub proof fn lemma_rdp_length(content: Seq<char>)
    requires
        is_rdp(unescaped_breaks(content)),
    ensures
        content.len() >= 11,
{
    reveal_strlit("\\r\\n");
    reveal_strlit("\\n");
    reveal_strlit("\\r");
    reveal_strlit("\n");
    reveal_strlit("full address:s:");
    reveal_strlit("username:s:");
    let a = text::replaced(content, "\\r\\n"@, "\n"@);
    let b = text::replaced(a, "\\n"@, "\n"@);
    let c = unescaped_breaks(content);
    text::lemma_replaced_shrinks(content, "\\r\\n"@, "\n"@);
    text::lemma_replaced_shrinks(a, "\\n"@, "\n"@);
    text::lemma_replaced_shrinks(b, "\\r"@, "\n"@);
    let i = choose|i: int|
        0 <= i < text::lines_of(c).len() && i < 12 && is_rdp_mark(#[trigger] text::lines_of(c)[i]);
    text::lemma_line_shorter(c, i);
}

/// Whether the line `line`, which has no white space around it, sets `key`.
pub open spec fn line_sets(line: Seq<char>, key: Seq<char>) -> bool {
    line.len() > 0 && text::same_ignoring_case(text::before(line, ':'), key)
}

/// A setting is read where each line is one of a setting, one of them sets it, and all that do
/// give it the same value.
pub proof fn lemma_setting_read(lines: Seq<Seq<char>>, key: Seq<char>, value: Seq<char>, at: int)
    requires
        0 <= at < lines.len(),
        line_sets(lines[at], key),
        forall|i: int|
            0 <= i < lines.len() ==> (#[trigger] lines[i]).len() > 0 && text::trimmed(lines[i])
                == lines[i] && lines[i].contains(':'),
        forall|i: int|
            0 <= i < lines.len() && line_sets(#[trigger] lines[i], key) ==> (text::split_first(
                lines[i],
                ':',
            ) matches Some((_, rest)) && value_part(rest) == value),
    ensures
        setting_in(lines, key) == Some(value),
    decreases lines.len(),
{
    let line = lines[0];
    text::lemma_first_of_props(line, ':');
    if !line_sets(line, key) {
        let rest = lines.drop_first();
        assert(rest[at - 1] == lines[at]);
        assert forall|i: int| 0 <= i < rest.len() implies (#[trigger] rest[i]).len() > 0
            && text::trimmed(rest[i]) == rest[i] && rest[i].contains(':') by {
            assert(rest[i] == lines[i + 1]);
        }
        assert forall|i: int| 0 <= i < rest.len() && line_sets(#[trigger] rest[i], key) implies (
        text::split_first(rest[i], ':') matches Some((_, tail)) && value_part(tail) == value) by {
            assert(rest[i] == lines[i + 1]);
        }
        lemma_setting_read(rest, key, value, at - 1);
    }
}

/// An escaped carriage return and line feed becomes one line feed, and so does each of them alone;
/// a character that starts no such escape stays as it is. What follows is seen on its own.
pub proof fn law_escapes_become_line_feeds(c: char, rest: Seq<char>)
    ensures
        unescaped_breaks(seq!['\\', 'r', '\\', 'n'] + rest) == seq!['\n'] + unescaped_breaks(rest),
        unescaped_breaks(seq!['\\', 'n'] + rest) == seq!['\n'] + unescaped_breaks(rest),
        !(rest.len() > 1 && rest[0] == '\\' && rest[1] == 'n') ==> unescaped_breaks(
            seq!['\\', 'r'] + rest,
        ) == seq!['\n'] + unescaped_breaks(rest),
        c != '\\' || rest.len() == 0 || (rest[0] != 'n' && rest[0] != 'r') ==> unescaped_breaks(
            seq![c] + rest,
        ) == seq![c] + unescaped_breaks(rest),
        unescaped_breaks(Seq::empty()) == Seq::<char>::empty(),
{
    let four = seq!['\\', 'r', '\\', 'n'] + rest;
    let feed = seq!['\\', 'n'] + rest;
    let back = seq!['\\', 'r'] + rest;
    let one = seq![c] + rest;
    lemma_unescaped_once(rest);
    lemma_unescaped_once(four);
    lemma_unescaped_once(feed);
    lemma_unescaped_once(back);
    lemma_unescaped_once(one);
    lemma_unescaped_once(Seq::empty());
    assert(four.skip(4) =~= rest);
    assert(feed.skip(2) =~= rest);
    assert(back.skip(2) =~= rest);
    assert(one.drop_first() =~= rest);
    assert(rest.len() > 0 ==> back[2] == rest[0] && one[1] == rest[0]);
    assert(rest.len() > 1 ==> back[3] == rest[1]);
}

} // verus!
