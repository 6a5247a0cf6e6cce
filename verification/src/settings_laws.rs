//! What reading a configuration gives.
use crate::settings;
use crate::text;
use vstd::prelude::*;
use vstd::utf8::*;

verus! {

/// Whether a search for the setting `key` goes on behind `line`: the line is blank, or it sets
/// something else.
pub open spec fn is_passed(line: Seq<char>, key: Seq<char>) -> bool {
    let t = text::trimmed(line);
    t.len() == 0 || (t.contains(':') && !text::same_ignoring_case(text::before(t, ':'), key))
}

/// A search goes on behind lines that it passes.
proof fn lemma_passed(lines: Seq<Seq<char>>, key: Seq<char>, j: int)
    requires
        0 <= j <= lines.len(),
        forall|i: int| 0 <= i < j ==> is_passed(#[trigger] lines[i], key),
    ensures
        settings::setting_in(lines, key) == settings::setting_in(lines.skip(j), key),
    decreases j,
{
    if j > 0 {
        let rest = lines.drop_first();
        assert(is_passed(lines[0], key));
        assert forall|i: int| 0 <= i < j - 1 implies is_passed(#[trigger] rest[i], key) by {
            assert(rest[i] == lines[i + 1]);
        }
        text::lemma_first_of_props(text::trimmed(lines[0]), ':');
        lemma_passed(rest, key, j - 1);
        assert(rest.skip(j - 1) =~= lines.skip(j));
    } else {
        assert(lines.skip(0) =~= lines);
    }
}

/// A setting has the value on the first line with its name, in whatever case: what follows the
/// second colon, or the first one where there is no second.
pub proof fn law_setting_is_found(
    lines: Seq<Seq<char>>,
    key: Seq<char>,
    j: int,
    name: Seq<char>,
    kind: Seq<char>,
    value: Seq<char>,
)
    requires
        0 <= j < lines.len(),
        forall|i: int| 0 <= i < j ==> is_passed(#[trigger] lines[i], key),
        !name.contains(':') && text::same_ignoring_case(name, key),
    ensures
        !kind.contains(':') && text::trimmed(lines[j]) == name + seq![':'] + (kind + seq![':'] + value)
            ==> settings::setting_in(lines, key) == Some(value),
        !value.contains(':') && text::trimmed(lines[j]) == name + seq![':'] + value
            ==> settings::setting_in(lines, key) == Some(value),
{
    lemma_passed(lines, key, j);
    let t = text::trimmed(lines[j]);
    assert(lines.skip(j)[0] == lines[j]);
    let typed = kind + seq![':'] + value;
    let k = name.len() as int;
    if t == name + seq![':'] + typed || t == name + seq![':'] + value {
        assert forall|i: int| 0 <= i < k implies t[i] != ':' by {
            assert(t[i] == name[i]);
        }
        assert(t[k] == ':');
        text::lemma_first_of(t, ':', k);
        assert(t.take(k) =~= name);
    }
    if !kind.contains(':') && t == name + seq![':'] + typed {
        assert(t.skip(k + 1) =~= typed);
        let m = kind.len() as int;
        assert forall|i: int| 0 <= i < m implies typed[i] != ':' by {
            assert(typed[i] == kind[i]);
        }
        assert(typed[m] == ':');
        text::lemma_first_of(typed, ':', m);
        assert(typed.skip(m + 1) =~= value);
    }
    if !value.contains(':') && t == name + seq![':'] + value {
        assert(t.skip(k + 1) =~= value);
        text::lemma_first_of_props(value, ':');
    }
}

/// A setting that no line has is absent; so is each one behind a line that is no setting.
pub proof fn law_setting_is_absent(lines: Seq<Seq<char>>, key: Seq<char>, j: int)
    requires
        0 <= j <= lines.len(),
        forall|i: int| 0 <= i < j ==> is_passed(#[trigger] lines[i], key),
        j < lines.len() ==> text::trimmed(lines[j]).len() > 0 && !text::trimmed(lines[j]).contains(
            ':',
        ),
    ensures
        settings::setting_in(lines, key) is None,
{
    lemma_passed(lines, key, j);
    if j < lines.len() {
        assert(lines.skip(j)[0] == lines[j]);
        text::lemma_first_of_props(text::trimmed(lines[j]), ':');
    } else {
        assert(lines.skip(j).len() == 0);
    }
}

/// A configuration is searched line by line.
pub proof fn law_settings_stand_on_lines(content: Seq<char>, key: Seq<char>)
    ensures
        settings::setting_value(content, key) == settings::setting_in(text::lines_of(content), key),
{
}

/// The name of a setting is what stands before the colon, without white space around it, and the
/// host of an address likewise; where there is no colon, it is all of the text.
pub proof fn law_names_and_hosts(name: Seq<char>, rest: Seq<char>)
    requires
        !name.contains(':'),
    ensures
        settings::line_key(name + seq![':'] + rest) == text::trimmed(name),
        settings::host_of(name + seq![':'] + rest) == text::trimmed(name),
        settings::line_key(name) == text::trimmed(name),
        settings::host_of(name) == text::trimmed(name),
{
    let s = name + seq![':'] + rest;
    let k = name.len() as int;
    assert forall|i: int| 0 <= i < k implies s[i] != ':' && name[i] != ':' by {
        assert(s[i] == name[i]);
    }
    assert(s[k] == ':');
    text::lemma_first_of(s, ':', k);
    text::lemma_first_of(name, ':', k);
    assert(s.take(k) =~= name);
    assert(name.take(k) =~= name);
}

/// Whether `s` starts with `start`, whatever the case of its letters.
pub open spec fn starts_like(s: Seq<char>, start: Seq<char>) -> bool {
    s.len() >= start.len() && text::same_ignoring_case(s.take(start.len() as int), start)
}

/// Lower case turns a start in whatever case into the start itself.
pub proof fn lemma_starts_like(s: Seq<char>, start: Seq<char>)
    requires
        text::lowered(start) == start,
    ensures
        start.is_prefix_of(text::lowered(s)) == starts_like(s, start),
{
    let n = start.len() as int;
    if s.len() >= n {
        assert(text::lowered(s).subrange(0, n) =~= text::lowered(s.take(n)));
    }
}

/// A user name carries a connection token where a line starts with `username:s:`, in whatever
/// case, and holds a bar; nothing else makes one.
pub proof fn law_token_user_name(content: Seq<char>)
    ensures
        settings::has_token_username(content) <==> exists|i: int|
            0 <= i < text::lines_of(content).len() && starts_like(
                #[trigger] text::lines_of(content)[i],
                "username:s:"@,
            ) && text::lines_of(content)[i].contains('|'),
{
    reveal_strlit("username:s:");
    let start = "username:s:"@;
    let lines = text::lines_of(content);
    assert(text::lowered(start) =~= start);
    assert forall|i: int| 0 <= i < lines.len() implies settings::is_token_username(
        #[trigger] lines[i],
    ) == (starts_like(lines[i], start) && lines[i].contains('|')) by {
        lemma_starts_like(lines[i], start);
    }
}

/// A text is a configuration where one of its first twelve lines starts with `full address:s:` or
/// with `username:s:`, in small letters.
pub proof fn law_configuration_is_recognised(content: Seq<char>)
    ensures
        settings::is_rdp(content) <==> exists|i: int|
            0 <= i < text::lines_of(content).len() && i < 12 && ("full address:s:"@.is_prefix_of(
                #[trigger] text::lines_of(content)[i],
            ) || "username:s:"@.is_prefix_of(text::lines_of(content)[i])),
{
    let lines = text::lines_of(content);
    assert forall|i: int| 0 <= i < lines.len() implies settings::is_rdp_mark(#[trigger] lines[i])
        == ("full address:s:"@.is_prefix_of(lines[i]) || "username:s:"@.is_prefix_of(lines[i])) by {}
}

/// Whether `c` may stand in a Base64 text.
pub open spec fn is_base64_char(c: char) -> bool {
    ||| '0' <= c <= '9' || 'A' <= c <= 'Z' || 'a' <= c <= 'z'
    ||| c == '+' || c == '/' || c == '-' || c == '_' || c == '='
    ||| c == '\r' || c == '\n' || c == '\t' || c == ' '
}

/// A text is taken for Base64 where it has at least sixteen characters, white space around it
/// aside, and holds nothing but letters, digits, the four symbols, padding and white space.
pub proof fn law_base64_is_recognised(content: Seq<char>)
    ensures
        settings::is_base64(content) <==> text::trimmed(content).len() >= 16 && forall|i: int|
            0 <= i < text::trimmed(content).len() ==> is_base64_char(
                #[trigger] text::trimmed(content)[i],
            ),
{
    let t = text::trimmed(content);
    let b = encode_utf8(t);
    if settings::is_base64(content) {
        assert forall|i: int| 0 <= i < t.len() implies '\0' <= #[trigger] t[i] <= '\u{7f}' by {
            let c = t[i];
            lemma_base64_byte(t, i);
        }
        is_ascii_chars_encode_utf8(t);
        assert forall|i: int| 0 <= i < t.len() implies is_base64_char(#[trigger] t[i]) by {
            assert(b[i] == t[i] as u8);
            assert(settings::is_base64_byte(b[i]));
        }
    } else if t.len() >= 16 && (forall|i: int|
        0 <= i < t.len() ==> is_base64_char(#[trigger] t[i])) {
        assert forall|i: int| 0 <= i < t.len() implies '\0' <= #[trigger] t[i] <= '\u{7f}' by {
            assert(is_base64_char(t[i]));
        }
        is_ascii_chars_encode_utf8(t);
        assert forall|i: int| 0 <= i < b.len() implies settings::is_base64_byte(#[trigger] b[i]) by {
            assert(b[i] == t[i] as u8);
            assert(is_base64_char(t[i]));
        }
    }
}

/// A text whose bytes may all stand in a Base64 text is ASCII.
proof fn lemma_base64_byte(t: Seq<char>, i: int)
    requires
        0 <= i < t.len(),
        forall|k: int|
            0 <= k < encode_utf8(t).len() ==> settings::is_base64_byte(#[trigger] encode_utf8(t)[k]),
    ensures
        '\0' <= t[i] <= '\u{7f}',
{
    let c = t[i];
    char_is_scalar(c);
    text::lemma_char_bound(c);
    text::lemma_encode_char(c);
    text::lemma_encode_holds(t, i, 0);
    let b = encode_utf8(t);
    let x = encode_scalar(c as u32)[0];
    let k = choose|k: int| 0 <= k < b.len() && b[k] == x;
    assert(settings::is_base64_byte(b[k]));
}

} // verus!
