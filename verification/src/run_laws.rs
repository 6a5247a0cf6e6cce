//! What the program does with a connection, and what it says of it.
use crate::cli::Options;
use crate::files;
use crate::link::Launch;
use crate::redact;
use crate::run;
use crate::run::Task;
use crate::settings_laws;
use crate::steps::Act;
use crate::text;
use vstd::prelude::*;
use vstd::utf8::*;

verus! {

// ---------------------------------------------------------------------------
// The task
// ---------------------------------------------------------------------------

/// Of what is asked for, registering comes first, then taking the registration back, saving a
/// template, removing it, opening a file, and opening a link; without any of them the link is
/// missing. What comes later has no influence.
pub proof fn law_order_of_tasks(o: Options, path: Seq<char>)
    ensures
        o.register ==> run::selected(o) == Ok::<Task, Seq<char>>(Task::Register),
        !o.register && o.unregister ==> run::selected(o) == Ok::<Task, Seq<char>>(Task::Unregister),
        !o.register && !o.unregister && o.set_template == Some(path) ==> run::selected(o) == Ok::<
            Task,
            Seq<char>,
        >(Task::SetTemplate(path)),
        !o.register && !o.unregister && o.set_template is None && o.clear_template
            ==> run::selected(o) == Ok::<Task, Seq<char>>(Task::ClearTemplate),
        !o.register && !o.unregister && o.set_template is None && !o.clear_template && o.rdp_file
            == Some(path) ==> run::selected(o) == Ok::<Task, Seq<char>>(Task::OpenFile(path)),
        !o.register && !o.unregister && o.set_template is None && !o.clear_template
            && o.rdp_file is None && o.input == Some(path) ==> run::selected(o) == Ok::<
            Task,
            Seq<char>,
        >(Task::OpenLink(path)),
        !o.register && !o.unregister && o.set_template is None && !o.clear_template
            && o.rdp_file is None && o.input is None ==> run::selected(o) == Err::<Task, Seq<char>>(
            "missing jms:// input"@,
        ),
{
}

// ---------------------------------------------------------------------------
// The connection
// ---------------------------------------------------------------------------

/// A connection of the protocol `rdp` is written to the file of its name, whether or not it has a
/// password; the file has the configuration, and is written once, behind four entries in the log.
pub proof fn law_connection_is_written(launch: Launch)
    requires
        launch.protocol == "rdp"@,
    ensures
        run::launch_steps(launch, false).len() == 5,
        run::launch_steps(launch, false).last() == Act::Write(
            files::file_stem(launch.name) + ".rdp"@,
            files::normalized_breaks(launch.content),
        ),
        forall|i: int|
            0 <= i < 4 ==> #[trigger] run::launch_steps(launch, false)[i] is Log
                || run::launch_steps(launch, false)[i] is LogBlock,
{
}

/// A connection of another protocol is refused, whatever else was asked, and nothing is written.
pub proof fn law_only_rdp_is_handled(launch: Launch, inspect: bool)
    requires
        launch.protocol != "rdp"@,
    ensures
        run::launch_steps(launch, inspect).len() == 5,
        run::launch_steps(launch, inspect).last() == Act::Fail(
            "unsupported protocol '"@ + launch.protocol + "'; this launcher only handles rdp"@,
        ),
        forall|i: int|
            0 <= i < 4 ==> #[trigger] run::launch_steps(launch, inspect)[i] is Log
                || run::launch_steps(launch, inspect)[i] is LogBlock,
{
}

/// An inspection prints what the connection is, and up to twenty lines of its configuration as they
/// stand there; it writes and starts nothing.
pub proof fn law_inspection_shows_connection(launch: Launch, i: int)
    requires
        launch.protocol == "rdp"@,
    ensures
        ({
            let steps = run::launch_steps(launch, true);
            let lines = text::lines_of(launch.content);
            let n = if lines.len() < 20 {
                lines.len() as int
            } else {
                20
            };
            &&& steps.len() == 11 + n
            &&& steps[4] == Act::Print("protocol: "@ + launch.protocol)
            &&& steps[5] == Act::Print("name: "@ + launch.name)
            &&& steps[6] == Act::Print(
                "inner_config_base64: "@ + (if launch.inner_config_base64 {
                    "true"@
                } else {
                    "false"@
                }),
            )
            &&& steps[7] == Act::Print("config_strategy: "@ + launch.config_strategy)
            &&& steps[8] == Act::Print(
                "compat_patches: "@ + (if launch.compat_patches.len() == 0 {
                    "none"@
                } else {
                    text::joined(launch.compat_patches, ", "@)
                }),
            )
            &&& steps[9] == Act::Print(
                "rdp bytes: "@ + text::decimal(encode_utf8(launch.content).len()),
            )
            &&& steps[10] == Act::Print("rdp preview:"@)
            &&& 0 <= i < n ==> steps[11 + i] == Act::Print(lines[i])
        }),
{
    let steps = run::launch_steps(launch, true);
    let shown = run::inspection(launch);
    assert(shown[0] == "protocol: "@ + launch.protocol);
    assert(steps[4] == run::printed(shown)[0]);
    assert(steps[5] == run::printed(shown)[1]);
    assert(steps[6] == run::printed(shown)[2]);
    assert(steps[7] == run::printed(shown)[3]);
    assert(steps[8] == run::printed(shown)[4]);
    assert(steps[9] == run::printed(shown)[5]);
    assert(steps[10] == run::printed(shown)[6]);
    if 0 <= i < text::lines_of(launch.content).len() && i < 20 {
        assert(steps[11 + i] == run::printed(shown)[7 + i]);
    }
}

/// What the log says of each connection: what it is, how large its configuration is, how it came
/// about, a preview and the configuration with the secrets hidden, and whether there is a secret.
pub proof fn law_log_of_connection(launch: Launch, inspect: bool)
    ensures
        ({
            let steps = run::launch_steps(launch, inspect);
            &&& steps.len() >= 4
            &&& steps[0] == Act::Log(
                "decoded payload: protocol="@ + launch.protocol + ", name="@ + launch.name
                    + ", rdp_bytes="@ + text::decimal(encode_utf8(launch.content).len()),
            )
            &&& steps[1] == Act::Log(
                "rdp content: inner_config_base64="@ + (if launch.inner_config_base64 {
                    "true"@
                } else {
                    "false"@
                }) + ", config_strategy="@ + launch.config_strategy + ", compat_patches="@ + (
                if launch.compat_patches.len() == 0 {
                    "none"@
                } else {
                    text::joined(launch.compat_patches, ", "@)
                }) + ", preview="@ + redact::preview(launch.content),
            )
            &&& steps[2] == Act::LogBlock(
                "rdp file content redacted"@,
                redact::redacted_content(launch.content),
            )
            &&& launch.password is Some ==> steps[3] == Act::Log(
                "token secret: "@ + "present (payload token.value) -> used as RDP password"@,
            )
            &&& launch.password is None ==> steps[3] == Act::Log(
                "token secret: "@
                    + "absent (payload has no token.value); JumpServer gateway will reject the login"@,
            )
        }),
{
}

/// Once the file is written, its path is logged and printed, and the client is started unless
/// writing is all that was asked.
pub proof fn law_written_file_is_launched(path: Seq<char>)
    ensures
        run::written_steps(path, false) == seq![
            Act::Log("wrote rdp file: "@ + path),
            Act::Print("RDP file: "@ + path),
            Act::Launch,
        ],
        run::written_steps(path, true) == seq![
            Act::Log("wrote rdp file: "@ + path),
            Act::Print("RDP file: "@ + path),
        ],
{
}

// ---------------------------------------------------------------------------
// Secrets
// ---------------------------------------------------------------------------

/// What follows the first bar is hidden; a text without a bar is shown as it is.
pub proof fn law_what_follows_the_bar_is_hidden(a: Seq<char>, b: Seq<char>)
    requires
        !a.contains('|'),
    ensures
        redact::hidden_token(a + seq!['|'] + b) == a + "|<redacted>"@,
        redact::hidden_token(a) == a,
{
    redact::law_token_hidden(a, b);
    text::lemma_first_of_props(a, '|');
}

/// Whether `line` holds, in whatever case, one of the words for which its value is a secret.
pub open spec fn speaks_of_secret(line: Seq<char>) -> bool {
    ||| text::occurs("password"@, text::lowered(line))
    ||| text::occurs("token"@, text::lowered(line))
    ||| text::occurs("gatewaycredentialssource"@, text::lowered(line))
    ||| text::occurs("gatewayaccesstoken"@, text::lowered(line))
    ||| text::occurs("loadbalanceinfo"@, text::lowered(line))
}

/// On the line of a user name the token is hidden; on a line that speaks of a secret, what follows
/// the last colon, or all of it where there is none; each other line is shown as it is.
pub proof fn law_hidden_parts_of_lines(a: Seq<char>, b: Seq<char>, line: Seq<char>)
    ensures
        settings_laws::starts_like(line, "username:s:"@) && line == a + seq!['|'] + b
            && !a.contains('|') ==> redact::redacted_line(line) == a + "|<redacted>"@,
        settings_laws::starts_like(line, "username:s:"@) && !line.contains('|')
            ==> redact::redacted_line(line) == line,
        !settings_laws::starts_like(line, "username:s:"@) && speaks_of_secret(line) && line == a
            + seq![':'] + b && !b.contains(':') ==> redact::redacted_line(line) == a
            + ":<redacted>"@,
        !settings_laws::starts_like(line, "username:s:"@) && speaks_of_secret(line)
            && !line.contains(':') ==> redact::redacted_line(line) == "<redacted>"@,
        !settings_laws::starts_like(line, "username:s:"@) && !speaks_of_secret(line)
            ==> redact::redacted_line(line) == line,
{
    reveal_strlit("username:s:");
    assert(text::lowered("username:s:"@) =~= "username:s:"@);
    settings_laws::lemma_starts_like(line, "username:s:"@);
    if !a.contains('|') {
        redact::law_token_hidden(a, b);
    }
    text::lemma_first_of_props(line, '|');
    if line == a + seq![':'] + b && !b.contains(':') {
        let k = a.len() as int;
        assert(line[k] == ':');
        assert forall|j: int| k < j < line.len() implies line[j] != ':' by {
            assert(line[j] == b[j - k - 1]);
        }
        text::lemma_last_of(line, ':', k);
        assert(line.take(k) =~= a);
    }
    if !line.contains(':') {
        assert forall|j: int| -1 < j < line.len() implies line[j] != ':' by {}
        text::lemma_last_of(line, ':', -1);
    }
}

/// A configuration in the log has its lines, each with its secrets hidden; a preview has the first
/// eight of them.
pub proof fn law_redaction_goes_line_by_line(content: Seq<char>, hidden: Seq<Seq<char>>)
    requires
        hidden.len() <= text::lines_of(content).len(),
        forall|i: int|
            0 <= i < hidden.len() ==> #[trigger] hidden[i] == redact::redacted_line(
                text::lines_of(content)[i],
            ),
    ensures
        hidden.len() == text::lines_of(content).len() ==> redact::redacted_content(content)
            == text::joined(hidden, seq!['\n']),
        hidden.len() == 8 || (hidden.len() < 8 && hidden.len() == text::lines_of(content).len())
            ==> redact::preview(content) == text::joined(hidden, seq![' ', '|', ' ']),
{
    reveal_strlit("\n");
    reveal_strlit(" | ");
    assert("\n"@ =~= seq!['\n']);
    assert(" | "@ =~= seq![' ', '|', ' ']);
    let lines = text::lines_of(content);
    if hidden.len() == lines.len() {
        assert(redact::redacted_lines(lines) =~= hidden);
    }
    if hidden.len() == 8 || (hidden.len() < 8 && hidden.len() == lines.len()) {
        assert(redact::redacted_lines(redact::first_lines(lines, 8)) =~= hidden);
    }
}

/// Whether `c` ends a token in an event log: white space, a quote, a closing bracket, a comma or a
/// semicolon.
pub open spec fn is_end_of_token(c: char) -> bool {
    ||| c as int == 32 || c as int == 9 || c as int == 10 || c as int == 12 || c as int == 13
    ||| c as int == 34 || c as int == 39 || c as int == 41 || c as int == 93
    ||| c as int == 44 || c as int == 59
}

/// In an event log the token behind the first bar of a line is hidden, up to where it ends; a line
/// without a bar is shown as it is.
pub proof fn law_token_in_event_is_hidden(before: Seq<char>, token: Seq<char>, rest: Seq<char>)
    requires
        !before.contains('|'),
        forall|i: int| 0 <= i < token.len() ==> !is_end_of_token(#[trigger] token[i]),
        rest.len() > 0 ==> is_end_of_token(rest[0]),
    ensures
        redact::redacted_segment(before + seq!['|'] + token + rest) == before + seq!['|']
            + "<redacted>"@ + rest,
        redact::redacted_segment(before) == before,
{
    reveal_strlit("|");
    assert("|"@ =~= seq!['|']);
    assert forall|i: int| 0 <= i < token.len() implies !redact::ends_token(#[trigger] token[i]) by {
        assert(!is_end_of_token(token[i]));
    }
    redact::law_event_token_hidden(before, token, rest);
    text::lemma_first_of_props(before, '|');
}

/// Event logs are shown line by line.
pub proof fn law_events_go_line_by_line(events: Seq<char>, hidden: Seq<Seq<char>>)
    requires
        hidden.len() == text::lines_of(events).len(),
        forall|i: int|
            0 <= i < hidden.len() ==> #[trigger] hidden[i] == redact::redacted_segment(
                text::lines_of(events)[i],
            ),
    ensures
        redact::redacted_events(events) == text::joined(hidden, seq!['\n']),
{
    reveal_strlit("\n");
    assert("\n"@ =~= seq!['\n']);
    let lines = text::lines_of(events);
    assert(Seq::new(lines.len(), |i: int| redact::redacted_segment(lines[i])) =~= hidden);
}

/// A long text is shown up to a number of bytes, and its length is told; a text that is not longer
/// is shown as it is.
pub proof fn law_long_texts_are_cut(a: Seq<char>, b: Seq<char>, max: nat)
    ensures
        encode_utf8(a).len() <= max ==> redact::shortened(a, max) == a,
        encode_utf8(a).len() == max && b.len() > 0 ==> redact::shortened(a + b, max) == a
            + "...<"@ + text::decimal(encode_utf8(a + b).len()) + " chars total>"@,
{
    text::lemma_encode_concat(a, b);
    if encode_utf8(a).len() == max && b.len() > 0 {
        encode_utf8_decode_utf8(a);
        assert(encode_utf8(a + b).take(max as int) =~= encode_utf8(a));
        char_is_scalar(b[0]);
        assert(encode_utf8(b).len() > 0);
    }
}

} // verus!
