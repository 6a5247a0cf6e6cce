//! Keeping secrets out of the log.
use crate::base64;
use crate::text;
use vstd::prelude::*;
use vstd::utf8::*;

verus! {

// ---------------------------------------------------------------------------
// Lines of a configuration
// ---------------------------------------------------------------------------

/// `s` with what follows the first bar replaced by a mark.
pub open spec fn hidden_token(s: Seq<char>) -> Seq<char> {
    match text::split_first(s, '|') {
        Some((name, _)) => name + "|<redacted>"@,
        None => s,
    }
}

/// Whether `line` speaks of a secret.
pub open spec fn is_sensitive(line: Seq<char>) -> bool {
    let lower = text::lowered(line);
    ||| text::occurs("password"@, lower)
    ||| text::occurs("token"@, lower)
    ||| text::occurs("gatewaycredentialssource"@, lower)
    ||| text::occurs("gatewayaccesstoken"@, lower)
    ||| text::occurs("loadbalanceinfo"@, lower)
}

/// `line` without the secrets that it holds: the token of a user name, or the value of a
/// sensitive setting.
pub open spec fn redacted_line(line: Seq<char>) -> Seq<char> {
    if "username:s:"@.is_prefix_of(text::lowered(line)) {
        hidden_token(line)
    } else if is_sensitive(line) {
        match text::split_last(line, ':') {
            Some((setting, _)) => setting + ":<redacted>"@,
            None => "<redacted>"@,
        }
    } else {
        line
    }
}

/// `lines` without the secrets that they hold.
pub open spec fn redacted_lines(lines: Seq<Seq<char>>) -> Seq<Seq<char>> {
    Seq::new(lines.len(), |i: int| redacted_line(lines[i]))
}

/// `content` without the secrets that it holds.
pub open spec fn redacted_content(content: Seq<char>) -> Seq<char> {
    text::joined(redacted_lines(text::lines_of(content)), "\n"@)
}

/// The first `n` of `lines`, or all of them where they are fewer.
pub open spec fn first_lines(lines: Seq<Seq<char>>, n: nat) -> Seq<Seq<char>> {
    if lines.len() <= n {
        lines
    } else {
        lines.take(n as int)
    }
}

/// The first eight lines of `content` without the secrets that they hold.
pub open spec fn preview(content: Seq<char>) -> Seq<char> {
    text::joined(redacted_lines(first_lines(text::lines_of(content), 8)), " | "@)
}

/// `value` with what follows the first bar replaced by a mark.
pub fn redact_username_value(value: &str) -> (r: String)
    ensures
        r@ == hidden_token(value@),
{
    match text::split_once(value, '|') {
        Some((name, _)) => text::concat(name, "|<redacted>"),
        None => value.to_string(),
    }
}

/// The line `line`, which sets a user name, without the token.
pub fn redact_username_line(line: &str) -> (r: String)
    ensures
        r@ == hidden_token(line@),
{
    redact_username_value(line)
}

/// `line` without the secrets that it holds.
pub fn redact_rdp_line(line: &str) -> (r: String)
    ensures
        r@ == redacted_line(line@),
{
    let lower = text::to_lower(line);
    let lower = lower.as_str();
    if text::starts_with(lower, "username:s:") {
        return redact_username_line(line);
    }
    let sensitive = text::contains(lower, "password") || text::contains(lower, "token")
        || text::contains(lower, "gatewaycredentialssource") || text::contains(
        lower,
        "gatewayaccesstoken",
    ) || text::contains(lower, "loadbalanceinfo");
    if sensitive {
        match text::rsplit_once(line, ':') {
            Some((setting, _)) => text::concat(setting, ":<redacted>"),
            None => "<redacted>".to_string(),
        }
    } else {
        line.to_string()
    }
}

/// The first `n` of `lines` without the secrets that they hold.
fn redact_first_lines(lines: &Vec<&str>, n: usize) -> (r: Vec<String>)
    requires
        n <= lines@.len(),
    ensures
        text::string_views(r@) == redacted_lines(text::views(lines@).take(n as int)),
{
    let ghost wanted = redacted_lines(text::views(lines@).take(n as int));
    let mut out: Vec<String> = Vec::new();
    assert(text::string_views(out@) =~= wanted.take(0));
    for i in 0..n
        invariant
            n <= lines@.len(),
            wanted == redacted_lines(text::views(lines@).take(n as int)),
            text::string_views(out@) == wanted.take(i as int),
    {
        let ghost done = text::string_views(out@);
        let line = redact_rdp_line(lines[i]);
        out.push(line);
        assert(text::string_views(out@) =~= done.push(line@));
        assert(wanted.take(i + 1) =~= wanted.take(i as int).push(wanted[i as int]));
    }
    assert(wanted.take(n as int) =~= wanted);
    out
}

/// `content` without the secrets that it holds.
pub fn redact_rdp_content(content: &str) -> (r: String)
    ensures
        r@ == redacted_content(content@),
{
    let lines = text::lines(content);
    let out = redact_first_lines(&lines, lines.len());
    assert(text::views(lines@).take(lines@.len() as int) =~= text::lines_of(content@));
    text::join(&out, "\n")
}

/// The first eight lines of `content` without the secrets that they hold.
pub fn rdp_preview(content: &str) -> (r: String)
    ensures
        r@ == preview(content@),
{
    let lines = text::lines(content);
    let n: usize = if lines.len() < 8 {
        lines.len()
    } else {
        8
    };
    let out = redact_first_lines(&lines, n);
    assert(text::views(lines@).take(n as int) =~= first_lines(text::lines_of(content@), 8));
    text::join(&out, " | ")
}

// ---------------------------------------------------------------------------
// Event logs
// ---------------------------------------------------------------------------

/// Whether `c` ends a token in an event log.
pub open spec fn ends_token(c: char) -> bool {
    base64::is_ascii_space(c) || c == '"' || c == '\'' || c == ')' || c == ']' || c == ',' || c == ';'
}

/// The length of the token that `s` starts with.
pub open spec fn token_length(s: Seq<char>) -> nat
    decreases s.len(),
{
    if s.len() == 0 || ends_token(s[0]) {
        0
    } else {
        1 + token_length(s.drop_first())
    }
}

/// `line` with the token behind its first bar replaced by a mark.
pub open spec fn redacted_segment(line: Seq<char>) -> Seq<char> {
    match text::split_first(line, '|') {
        Some((before, after)) => before + "|"@ + "<redacted>"@ + after.skip(
            token_length(after) as int,
        ),
        None => line,
    }
}

/// The lines of `events` with the token behind the first bar of each replaced by a mark.
pub open spec fn redacted_events(events: Seq<char>) -> Seq<char> {
    let lines = text::lines_of(events);
    text::joined(Seq::new(lines.len(), |i: int| redacted_segment(lines[i])), "\n"@)
}

/// `token_length` is the position `k` where a token ends for the first time.
proof fn lemma_token_length(s: Seq<char>, k: int)
    requires
        0 <= k <= s.len(),
        forall|j: int| 0 <= j < k ==> !ends_token(#[trigger] s[j]),
        k < s.len() ==> ends_token(s[k]),
    ensures
        token_length(s) == k,
    decreases k,
{
    if k > 0 {
        let rest = s.drop_first();
        assert(!ends_token(s[0]));
        assert forall|j: int| 0 <= j < k - 1 implies !ends_token(#[trigger] rest[j]) by {
            assert(rest[j] == s[j + 1]);
        }
        lemma_token_length(rest, k - 1);
    }
}

/// `line` with the token behind its first bar replaced by a mark.
pub fn redact_pipe_token_segment(line: &str) -> (r: String)
    ensures
        r@ == redacted_segment(line@),
{
    match text::split_once(line, '|') {
        None => line.to_string(),
        Some((before, after)) => {
            let mut output = before.to_string();
            text::append(&mut output, "|");
            text::append(&mut output, "<redacted>");
            let chars = text::chars_of(after);
            let mut k: usize = 0;
            while k < chars.len() && !token_end(chars[k])
                invariant
                    k <= chars@.len(),
                    forall|j: int| 0 <= j < k ==> !ends_token(#[trigger] chars@[j]),
                decreases chars@.len() - k,
            {
                k = k + 1;
            }
            proof {
                lemma_token_length(after@, k as int);
            }
            text::append(&mut output, text::split_at_char(after, k).1);
            output
        },
    }
}

/// Whether `c` ends a token in an event log.
fn token_end(c: char) -> (r: bool)
    ensures
        r == ends_token(c),
{
    c == ' ' || c == '\t' || c == '\n' || c == '\u{c}' || c == '\r' || c == '"' || c == '\'' || c
        == ')' || c == ']' || c == ',' || c == ';'
}

/// The lines of `events` with the token behind the first bar of each replaced by a mark.
pub fn redact_event_log(events: &str) -> (r: String)
    ensures
        r@ == redacted_events(events@),
{
    let lines = text::lines(events);
    let ghost all = text::lines_of(events@);
    let ghost wanted = Seq::new(all.len(), |i: int| redacted_segment(all[i]));
    let mut out: Vec<String> = Vec::new();
    let mut i: usize = 0;
    assert(text::string_views(out@) =~= wanted.take(0));
    while i < lines.len()
        invariant
            i <= lines@.len(),
            text::views(lines@) == all,
            wanted == Seq::new(all.len(), |i: int| redacted_segment(all[i])),
            text::string_views(out@) == wanted.take(i as int),
        decreases lines@.len() - i,
    {
        let ghost done = text::string_views(out@);
        let line = redact_pipe_token_segment(lines[i]);
        assert(all[i as int] == lines@[i as int]@);
        out.push(line);
        assert(text::string_views(out@) =~= done.push(line@));
        assert(wanted.take(i + 1) =~= wanted.take(i as int).push(wanted[i as int]));
        i = i + 1;
    }
    assert(all.len() == lines@.len());
    assert(wanted.take(i as int) =~= wanted);
    text::join(&out, "\n")
}

// ---------------------------------------------------------------------------
// Long texts
// ---------------------------------------------------------------------------

/// `value`, or its first `max` bytes and its length in bytes where it is longer.
pub open spec fn shortened(value: Seq<char>, max: nat) -> Seq<char> {
    let bytes = encode_utf8(value);
    if bytes.len() <= max {
        value
    } else {
        decode_utf8(bytes.take(max as int)) + "...<"@ + text::decimal(bytes.len()) + " chars total>"@
    }
}

/// `value`, or its first `max` bytes and its length in bytes where it is longer. A longer text
/// must not be cut inside a character.
pub fn redact_long(value: &str, max: usize) -> (r: String)
    requires
        encode_utf8(value@).len() > max ==> is_char_boundary(encode_utf8(value@), max as int),
    ensures
        r@ == shortened(value@, max as nat),
{
    let length: usize = value.as_bytes().len();
    if length <= max {
        value.to_string()
    } else {
        let head = value.split_at(max).0;
        proof {
            encode_utf8_decode_utf8(head@);
            assert(encode_utf8(value@).take(max as int) == encode_utf8(value@).subrange(
                0,
                max as int,
            ));
        }
        let mut output = head.to_string();
        text::append(&mut output, "...<");
        text::append(&mut output, text::to_decimal(length as u64).as_str());
        text::append(&mut output, " chars total>");
        output
    }
}

// ---------------------------------------------------------------------------
// Laws
// ---------------------------------------------------------------------------

/// The token behind the bar of a user name leaves no trace.
pub proof fn law_token_hidden(name: Seq<char>, token: Seq<char>)
    requires
        !name.contains('|'),
    ensures
        hidden_token(name + seq!['|'] + token) == name + "|<redacted>"@,
{
    let s = name + seq!['|'] + token;
    let k = name.len() as int;
    assert forall|j: int| 0 <= j < k implies s[j] != '|' by {
        assert(s[j] == name[j]);
    }
    text::lemma_first_of(s, '|', k);
    assert(s.take(k) == name);
}

/// The token on a line that sets a user name leaves no trace.
pub proof fn law_username_line_hides_token(setting: Seq<char>, token: Seq<char>)
    requires
        "username:s:"@.is_prefix_of(text::lowered(setting)),
        !setting.contains('|'),
    ensures
        redacted_line(setting + seq!['|'] + token) == setting + "|<redacted>"@,
{
    reveal_strlit("username:s:");
    let line = setting + seq!['|'] + token;
    law_token_hidden(setting, token);
    assert(text::lowered(line).subrange(0, 11) =~= text::lowered(setting).subrange(0, 11));
}

/// What occurs in a part of a text occurs in the text.
proof fn lemma_occurs_in_part(needle: Seq<char>, a: Seq<char>, b: Seq<char>)
    requires
        text::occurs(needle, a),
    ensures
        text::occurs(needle, a + b),
{
    let at = choose|at: int| #[trigger] text::stands_at(a, at, needle);
    assert((a + b).subrange(at, at + needle.len()) =~= a.subrange(at, at + needle.len()));
    assert(text::stands_at(a + b, at, needle));
}

/// The value of a setting whose name speaks of a secret leaves no trace.
pub proof fn law_sensitive_value_hidden(setting: Seq<char>, value: Seq<char>)
    requires
        is_sensitive(setting),
        !value.contains(':'),
        !"username:s:"@.is_prefix_of(text::lowered(setting + seq![':'] + value)),
    ensures
        redacted_line(setting + seq![':'] + value) == setting + ":<redacted>"@,
{
    let line = setting + seq![':'] + value;
    let k = setting.len() as int;
    let lower = text::lowered(setting);
    let tail = text::lowered(seq![':'] + value);
    assert(text::lowered(line) =~= lower + tail);
    if text::occurs("password"@, lower) {
        lemma_occurs_in_part("password"@, lower, tail);
    } else if text::occurs("token"@, lower) {
        lemma_occurs_in_part("token"@, lower, tail);
    } else if text::occurs("gatewaycredentialssource"@, lower) {
        lemma_occurs_in_part("gatewaycredentialssource"@, lower, tail);
    } else if text::occurs("gatewayaccesstoken"@, lower) {
        lemma_occurs_in_part("gatewayaccesstoken"@, lower, tail);
    } else {
        lemma_occurs_in_part("loadbalanceinfo"@, lower, tail);
    }
    assert forall|j: int| k < j < line.len() implies line[j] != ':' by {
        assert(line[j] == value[j - k - 1]);
    }
    text::lemma_last_of(line, ':', k);
    assert(line.take(k) == setting);
}

/// The token behind the first bar on a line of an event log leaves no trace; what follows it is
/// kept.
pub proof fn law_event_token_hidden(before: Seq<char>, token: Seq<char>, rest: Seq<char>)
    requires
        !before.contains('|'),
        forall|i: int| 0 <= i < token.len() ==> !ends_token(#[trigger] token[i]),
        rest.len() > 0 ==> ends_token(rest[0]),
    ensures
        redacted_segment(before + seq!['|'] + token + rest) == before + "|"@ + "<redacted>"@ + rest,
{
    let line = before + seq!['|'] + token + rest;
    let k = before.len() as int;
    let after = token + rest;
    assert forall|j: int| 0 <= j < k implies line[j] != '|' by {
        assert(line[j] == before[j]);
    }
    text::lemma_first_of(line, '|', k);
    assert(line.take(k) == before);
    assert(line.skip(k + 1) == after);
    assert forall|j: int| 0 <= j < token.len() implies !ends_token(#[trigger] after[j]) by {
        assert(after[j] == token[j]);
    }
    lemma_token_length(after, token.len() as int);
    assert(after.skip(token.len() as int) == rest);
}

/// What stands before the first bar, and the mark behind it, hide to themselves.
proof fn lemma_mark_kept(name: Seq<char>)
    requires
        !name.contains('|'),
    ensures
        hidden_token(name + "|<redacted>"@) == name + "|<redacted>"@,
{
    reveal_strlit("|<redacted>");
    let mark = "|<redacted>"@;
    assert(name + mark =~= name + seq!['|'] + mark.skip(1));
    law_token_hidden(name, mark.skip(1));
}

/// Hiding the secrets of a line that holds none any more changes nothing.
pub proof fn law_redacted_line_is_stable(line: Seq<char>)
    ensures
        hidden_token(hidden_token(line)) == hidden_token(line),
        redacted_line(redacted_line(line)) == redacted_line(line),
{
    reveal_strlit("username:s:");
    reveal_strlit("|<redacted>");
    reveal_strlit(":<redacted>");
    reveal_strlit("<redacted>");
    let start = "username:s:"@;
    let k = text::first_of(line, '|') as int;
    text::lemma_first_of_props(line, '|');
    if k < line.len() {
        let name = line.take(k);
        assert forall|i: int| 0 <= i < name.len() implies name[i] != '|' by {
            assert(name[i] == line[i]);
        }
        lemma_mark_kept(name);
    }
    let out = redacted_line(line);
    let lower = text::lowered(line);
    if start.is_prefix_of(lower) {
        if k < line.len() {
            assert(start == lower.subrange(0, 11));
            assert(k >= 11) by {
                if k < 11 {
                    assert(lower.subrange(0, 11)[k] == text::lower(line[k]));
                }
            }
            assert(text::lowered(out).subrange(0, 11) =~= lower.subrange(0, 11));
        }
    } else if is_sensitive(line) {
        lemma_sensitive_stable(line);
    }
}

/// A line whose value was hidden stays as it is.
proof fn lemma_sensitive_stable(line: Seq<char>)
    requires
        !"username:s:"@.is_prefix_of(text::lowered(line)),
        is_sensitive(line),
    ensures
        redacted_line(redacted_line(line)) == redacted_line(line),
{
    reveal_strlit("username:s:");
    reveal_strlit(":<redacted>");
    reveal_strlit("<redacted>");
    let start = "username:s:"@;
    let out = redacted_line(line);
    match text::split_last(line, ':') {
        Some((setting, _)) => {
            let k = setting.len() as int;
            let mark = ":<redacted>"@;
            text::lemma_last_of_props(line, ':');
            assert(out == setting + mark);
            assert forall|j: int| k < j < out.len() implies out[j] != ':' by {
                assert(out[j] == mark[j - k]);
            }
            assert(out[k] == ':');
            text::lemma_last_of(out, ':', k);
            assert(out.take(k) =~= setting);
            let lower = text::lowered(out);
            if start.is_prefix_of(lower) {
                assert(start == lower.subrange(0, 11));
                if k + 1 < 11 {
                    assert(lower.subrange(0, 11)[k + 1] == text::lower(out[k + 1]));
                    assert(out[k + 1] == mark[1]);
                    assert(start[k + 1] == '<');
                } else {
                    assert(text::lowered(line).subrange(0, 11) =~= lower.subrange(0, 11));
                }
            }
        },
        None => {
            assert(out == "<redacted>"@);
            if start.is_prefix_of(text::lowered(out)) {
                assert(text::lowered(out).len() == 10);
            }
            assert forall|j: int| 0 <= j < out.len() implies out[j] != ':' by {}
            text::lemma_last_of(out, ':', -1);
        },
    }
}

/// Hiding the token on a line of an event log on which it is hidden already changes nothing.
pub proof fn law_redacted_event_is_stable(line: Seq<char>)
    ensures
        redacted_segment(redacted_segment(line)) == redacted_segment(line),
{
    reveal_strlit("|");
    reveal_strlit("<redacted>");
    match text::split_first(line, '|') {
        Some((before, after)) => {
            let k = text::first_of(line, '|') as int;
            let mark = "<redacted>"@;
            text::lemma_first_of_props(line, '|');
            assert forall|i: int| 0 <= i < before.len() implies before[i] != '|' by {
                assert(before[i] == line[i]);
            }
            lemma_token_length_props(after);
            let rest = after.skip(token_length(after) as int);
            assert(rest.len() > 0 ==> rest[0] == after[token_length(after) as int]);
            assert("|"@ =~= seq!['|']);
            law_event_token_hidden(before, mark, rest);
        },
        None => {},
    }
}

/// What `token_length` counts.
proof fn lemma_token_length_props(s: Seq<char>)
    ensures
        token_length(s) <= s.len(),
        token_length(s) < s.len() ==> ends_token(s[token_length(s) as int]),
    decreases s.len(),
{
    if s.len() > 0 && !ends_token(s[0]) {
        lemma_token_length_props(s.drop_first());
    }
}

} // verus!
