//! What the files are called, and what stands in them.
use crate::files;
use crate::paths;
use crate::paths::Base;
use crate::settings;
use crate::steps;
use crate::template;
use crate::text;
use vstd::prelude::*;
use vstd::utf8::*;

verus! {

// ---------------------------------------------------------------------------
// Names
// ---------------------------------------------------------------------------

/// Whether `c` is one of the nine characters that may not stand in a file name, or a control
/// character.
pub open spec fn is_forbidden(c: char) -> bool {
    ||| (c as int) < 32 || 127 <= (c as int) <= 159
    ||| c == '<' || c == '>' || c == ':' || c == '"' || c == '/'
    ||| c == '\\' || c == '|' || c == '?' || c == '*'
}

/// Whether `clean` is `name` with an underscore in place of each forbidden character.
pub open spec fn is_cleaned(clean: Seq<char>, name: Seq<char>) -> bool {
    clean.len() == name.len() && forall|i: int|
        0 <= i < name.len() ==> #[trigger] clean[i] == (if is_forbidden(name[i]) {
            '_'
        } else {
            name[i]
        })
}

/// Cutting sees the cleaned characters alone.
proof fn lemma_cut_cleaned(clean: Seq<char>, name: Seq<char>, used: nat)
    requires
        is_cleaned(clean, name),
    ensures
        files::cut(name, used) == files::cut(clean, used),
        forall|i: int| 0 <= i < clean.len() ==> !files::is_invalid(#[trigger] clean[i]),
    decreases name.len(),
{
    assert forall|i: int| 0 <= i < clean.len() implies !files::is_invalid(#[trigger] clean[i]) by {
        text::lemma_char_bound(name[i]);
        text::lemma_char_bound(clean[i]);
    }
    if name.len() > 0 {
        let x = name.drop_first();
        let y = clean.drop_first();
        assert(clean[0] == files::cleaned(name[0])) by {
            text::lemma_char_bound(name[0]);
        }
        assert forall|i: int| 0 <= i < x.len() implies #[trigger] y[i] == (if is_forbidden(x[i]) {
            '_'
        } else {
            x[i]
        }) by {
            assert(y[i] == clean[i + 1] && x[i] == name[i + 1]);
        }
        lemma_cut_cleaned(y, x, used + text::width(clean[0]));
    }
}

/// A file has the name of the connection, with an underscore in place of each forbidden character,
/// and the extension `rdp`.
pub proof fn law_file_is_called_like_connection(name: Seq<char>, clean: Seq<char>)
    requires
        is_cleaned(clean, name),
        clean.len() > 0,
        encode_utf8(clean).len() <= 80,
        !text::is_white_space(clean[0]),
        !text::is_white_space(clean.last()),
        clean.last() != '.',
    ensures
        files::file_stem(name) == clean,
        files::file_name(name) == clean + ".rdp"@,
{
    lemma_cut_cleaned(clean, name, 0);
    files::law_valid_name_kept(clean);
}

/// White space around the cleaned name, and dots and spaces behind it, are left out.
pub proof fn law_file_name_is_trimmed(
    name: Seq<char>,
    white: Seq<char>,
    clean: Seq<char>,
    tail: Seq<char>,
)
    requires
        is_cleaned(white + clean + tail, name),
        clean.len() > 0,
        encode_utf8(white + clean + tail).len() <= 80,
        !text::is_white_space(clean[0]),
        !text::is_white_space(clean.last()),
        clean.last() != '.',
        forall|i: int| 0 <= i < white.len() ==> text::is_white_space(#[trigger] white[i]),
        forall|i: int| 0 <= i < tail.len() ==> (#[trigger] tail[i] == '.' || tail[i] == ' '),
    ensures
        files::file_stem(name) == clean,
{
    let all = white + clean + tail;
    let ws = |c: char| text::is_white_space(c);
    let dots = |c: char| files::is_dot_or_space(c);
    lemma_cut_cleaned(all, name, 0);
    files::lemma_cut_keeps(all, 0);
    let t = text::trimmed(all);
    lemma_trimmed_tail(white, clean, tail);
    let k = choose|k: int| 0 <= k <= tail.len() && t == #[trigger] (clean + tail.take(k));
    let cut = clean + tail.take(k);
    assert forall|j: int| clean.len() <= j < cut.len() implies dots(#[trigger] cut[j]) by {
        assert(cut[j] == tail[j - clean.len()]);
    }
    assert(cut[clean.len() - 1] == clean.last());
    text::lemma_trimmed_end(cut, dots, clean.len() as int);
    assert(cut.take(clean.len() as int) =~= clean);
}

/// Trimming takes off the white space before a text, and some of the dots and spaces behind it.
proof fn lemma_trimmed_tail(white: Seq<char>, clean: Seq<char>, tail: Seq<char>)
    requires
        clean.len() > 0,
        !text::is_white_space(clean[0]),
        !text::is_white_space(clean.last()),
        forall|i: int| 0 <= i < white.len() ==> text::is_white_space(#[trigger] white[i]),
        forall|i: int| 0 <= i < tail.len() ==> (#[trigger] tail[i] == '.' || tail[i] == ' '),
    ensures
        exists|k: int|
            0 <= k <= tail.len() && text::trimmed(white + clean + tail) == #[trigger] (clean
                + tail.take(k)),
    decreases tail.len(),
{
    let ws = |c: char| text::is_white_space(c);
    if tail.len() > 0 && tail.last() == ' ' {
        let less = tail.drop_last();
        assert forall|i: int| 0 <= i < less.len() implies (#[trigger] less[i] == '.' || less[i]
            == ' ') by {
            assert(less[i] == tail[i]);
        }
        lemma_trimmed_tail(white, clean, less);
        let k = choose|k: int|
            0 <= k <= less.len() && text::trimmed(white + clean + less) == #[trigger] (clean
                + less.take(k));
        assert(less.take(k) =~= tail.take(k));
        let m = clean + less;
        let s = white + clean + tail;
        let r = white + clean + less;
        assert forall|j: int| 0 <= j < white.len() implies ws(#[trigger] s[j]) && ws(r[j]) by {
            assert(s[j] == white[j] && r[j] == white[j]);
        }
        assert(s[white.len() as int] == clean[0] && r[white.len() as int] == clean[0]);
        text::lemma_trimmed_start(s, ws, white.len() as int);
        text::lemma_trimmed_start(r, ws, white.len() as int);
        assert(s.skip(white.len() as int) =~= m.push(' '));
        assert(r.skip(white.len() as int) =~= m);
        assert(m.push(' ').drop_last() =~= m);
        assert(text::trimmed(s) == text::trimmed(r));
        assert(text::trimmed(s) == clean + tail.take(k));
    } else {
        let m = clean + tail;
        let none = Seq::<char>::empty();
        assert(m[0] == clean[0]);
        if tail.len() > 0 {
            assert(m.last() == tail.last());
            assert(tail[tail.len() - 1] == '.');
        } else {
            assert(m =~= clean);
        }
        text::lemma_trimmed_around(white, m, none, ws);
        assert(white + m + none =~= white + clean + tail);
        assert(tail.take(tail.len() as int) =~= tail);
        assert(text::trimmed(white + clean + tail) == clean + tail.take(tail.len() as int));
    }
}

/// A connection whose name leaves nothing gets a fixed file name.
pub proof fn law_nameless_connection_gets_a_name(name: Seq<char>)
    requires
        name.len() < 80,
        forall|i: int| 0 <= i < name.len() ==> #[trigger] name[i] == ' ' || name[i] == '.',
    ensures
        files::file_name(name) == "jumpserver-rdp"@ + ".rdp"@,
{
    let dots = |c: char| files::is_dot_or_space(c);
    let ws = |c: char| text::is_white_space(c);
    assert forall|i: int| 0 <= i < name.len() implies '\0' <= #[trigger] name[i] <= '\u{7f}'
        && !files::is_invalid(name[i]) by {
        assert(name[i] == ' ' || name[i] == '.');
    }
    is_ascii_chars_encode_utf8(name);
    files::lemma_cut_keeps(name, 0);
    text::lemma_trimmed_props(name, ws);
    let t = text::trimmed(name);
    let (i, j) = choose|i: int, j: int|
        0 <= i <= j <= name.len() && text::trimmed_by(name, ws) == #[trigger] name.subrange(i, j);
    assert forall|m: int| 0 <= m < t.len() implies dots(#[trigger] t[m]) by {
        assert(t[m] == name[i + m]);
    }
    text::lemma_trimmed_end(t, dots, 0);
}

/// A file is called like the connection, cleaned, up to the character with which the name reaches
/// eighty bytes, without white space around that, and without dots and spaces behind it; a name of
/// which nothing is left is replaced by a fixed one.
pub proof fn law_name_of_file(
    name: Seq<char>,
    start: Seq<char>,
    rest: Seq<char>,
    stem: Seq<char>,
    tail: Seq<char>,
)
    requires
        is_cleaned(start + rest, name),
        rest.len() > 0 ==> encode_utf8(start).len() >= 80,
        start.len() > 0 ==> encode_utf8(start.drop_last()).len() < 80,
        text::trimmed(start) == stem + tail,
        forall|i: int| 0 <= i < tail.len() ==> (#[trigger] tail[i] == '.' || tail[i] == ' '),
        stem.len() > 0 ==> stem.last() != '.' && stem.last() != ' ',
    ensures
        files::file_stem(name) == (if stem.len() > 0 {
            stem
        } else {
            "jumpserver-rdp"@
        }),
        files::file_name(name) == files::file_stem(name) + ".rdp"@,
{
    let all = start + rest;
    let dots = |c: char| files::is_dot_or_space(c);
    lemma_cut_cleaned(all, name, 0);
    assert forall|i: int| 0 <= i < start.len() implies !files::is_invalid(#[trigger] start[i]) by {
        assert(all[i] == start[i]);
    }
    if start.len() == 0 {
        assert(encode_utf8(start).len() == 0);
        assert(rest.len() == 0);
        assert(all =~= start);
        assert(files::cut(all, 0) =~= start);
    } else {
        lemma_cut_at(start, rest, 0);
    }
    let t = stem + tail;
    assert forall|j: int| stem.len() <= j < t.len() implies dots(#[trigger] t[j]) by {
        assert(t[j] == tail[j - stem.len()]);
    }
    if stem.len() > 0 {
        assert(t[stem.len() - 1] == stem.last());
    }
    text::lemma_trimmed_end(t, dots, stem.len() as int);
    assert(t.take(stem.len() as int) =~= stem);
}

/// Nothing is taken behind the character with which eighty bytes are reached.
proof fn lemma_cut_at(start: Seq<char>, rest: Seq<char>, used: nat)
    requires
        start.len() > 0,
        used + encode_utf8(start.drop_last()).len() < 80,
        rest.len() > 0 ==> used + encode_utf8(start).len() >= 80,
        forall|i: int| 0 <= i < start.len() ==> !files::is_invalid(#[trigger] start[i]),
    ensures
        files::cut(start + rest, used) == start,
    decreases start.len(),
{
    let all = start + rest;
    let tail = start.drop_first();
    let c = start[0];
    assert(all[0] == c);
    assert(!files::is_invalid(c));
    assert(all.drop_first() =~= tail + rest);
    if tail.len() > 0 {
        let most = start.drop_last();
        assert(most[0] == c);
        assert(most.drop_first() =~= tail.drop_last());
        assert forall|i: int| 0 <= i < tail.len() implies !files::is_invalid(#[trigger] tail[i]) by {
            assert(tail[i] == start[i + 1]);
        }
        lemma_cut_at(tail, rest, used + text::width(c));
        assert(seq![c] + tail =~= start);
    } else {
        assert(encode_utf8(tail).len() == 0);
        assert(start =~= seq![c]);
        assert(tail + rest =~= rest);
        if rest.len() == 0 {
            assert(files::cut(rest, used + text::width(c)) =~= Seq::<char>::empty());
            assert(seq![c] + Seq::<char>::empty() =~= start);
        }
    }
}

// ---------------------------------------------------------------------------
// Templates
// ---------------------------------------------------------------------------

/// A template needs an address; it is saved with its line breaks as pairs, and otherwise as it is.
pub proof fn law_template_needs_an_address(content: Seq<char>, source: Seq<char>)
    ensures
        settings::setting_value(content, "full address"@) is Some ==> files::template_text(
            content,
            source,
        ) == Ok::<Seq<char>, Seq<char>>(files::normalized_breaks(content)),
        settings::setting_value(content, "full address"@) is None ==> files::template_text(
            content,
            source,
        ) == Err::<Seq<char>, Seq<char>>(
            "template is not an RDP file with full address: "@ + source,
        ),
{
}

/// Where the program keeps its files: in its own directory, under the first of the directories that
/// is set.
pub proof fn law_places_of_files(windows: bool, second_set: bool, name: Seq<char>)
    ensures
        paths::config_location(windows, true, second_set) == (Base::First, seq!["jms-rdp-launcher"@]),
        paths::config_location(true, false, true) == (
            Base::Second,
            seq!["AppData"@, "Roaming"@, "jms-rdp-launcher"@],
        ),
        paths::config_location(false, false, true) == (
            Base::Second,
            seq![".config"@, "jms-rdp-launcher"@],
        ),
        paths::config_location(windows, false, false) == (
            Base::Current,
            seq!["jms-rdp-launcher"@],
        ),
        forall|first: bool, second: bool| #[trigger]
            paths::config_file(windows, first, second, name) == (
                paths::config_location(windows, first, second).0,
                paths::config_location(windows, first, second).1.push(name),
            ),
        template::TEMPLATE_RDP_FILE_NAME@ == "mstsc-success-template.rdp"@,
{
}

// ---------------------------------------------------------------------------
// The log
// ---------------------------------------------------------------------------

/// Each entry of the log has the time before it; each line of a block does, behind the title, and
/// is indented.
pub proof fn law_log_entries(time: Seq<char>, title: Seq<char>, body: Seq<char>, i: int, n: nat)
    ensures
        steps::log_line_of(time, title) == "["@ + time + "] "@ + title,
        steps::log_block_of(time, title, body).len() == 1 + text::lines_of(body).len(),
        steps::log_block_of(time, title, body)[0] == "["@ + time + "] "@ + (title + ":"@),
        0 <= i < text::lines_of(body).len() ==> steps::log_block_of(time, title, body)[i + 1]
            == "["@ + time + "] "@ + ("  "@ + text::lines_of(body)[i]),
        steps::time_name(Some(n)) == "unix:"@ + text::decimal(n),
        steps::time_name(None) == "unix:"@ + text::decimal(0),
{
}

} // verus!
