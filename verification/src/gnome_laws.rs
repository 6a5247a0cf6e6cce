//! What becomes of a configuration for the profile `gnome`.
use crate::choice_laws;
use crate::profile_laws;
use crate::profiles;
use crate::rewriting;
use crate::settings;
use crate::settings_laws;
use crate::template;
use crate::text;
use vstd::prelude::*;

verus! {

/// The lines that the profile `gnome` sets, for the address `address` and the user name `username`.
#[verifier::opaque]
pub open spec fn gnome_lines(address: Seq<char>, username: Seq<char>) -> Seq<Seq<char>> {
    seq![
        "full address:s:"@ + address,
        "username:s:"@ + username,
        "desktopwidth:i:1920"@,
        "desktopheight:i:1080"@,
        "screen mode id:i:1"@,
        "session bpp:i:32"@,
        "compression:i:1"@,
        "networkautodetect:i:1"@,
        "bandwidthautodetect:i:1"@,
        "smart sizing:i:1"@,
        "dynamic resolution:i:1"@,
        "use multimon:i:0"@,
        "use multitransport:i:0"@,
        "audiomode:i:2"@,
        "audiocapturemode:i:0"@,
        "redirectclipboard:i:0"@,
        "redirectprinters:i:0"@,
        "redirectcomports:i:0"@,
        "redirectsmartcards:i:0"@,
        "redirectdrives:i:0"@,
        "redirectwebauthn:i:0"@,
        "devicestoredirect:s:"@,
        "drivestoredirect:s:"@,
        "camerastoredirect:s:"@,
        "usbdevicestoredirect:s:"@,
        "authentication level:i:2"@,
        "enablecredsspsupport:i:1"@,
        "negotiate security layer:i:1"@,
        "prompt for credentials on client:i:0"@,
        "disableconnectionsharing:i:1"@,
        "autoreconnection enabled:i:0"@,
    ]
}

/// The names of the settings that the profile `gnome` sets or leaves out.
#[verifier::opaque]
pub open spec fn gnome_names() -> Seq<Seq<char>> {
    seq![
        "full address"@,
        "username"@,
        "desktopwidth"@,
        "desktopheight"@,
        "screen mode id"@,
        "session bpp"@,
        "compression"@,
        "networkautodetect"@,
        "bandwidthautodetect"@,
        "smart sizing"@,
        "dynamic resolution"@,
        "use multimon"@,
        "use multitransport"@,
        "audiomode"@,
        "audiocapturemode"@,
        "redirectclipboard"@,
        "redirectprinters"@,
        "redirectcomports"@,
        "redirectsmartcards"@,
        "redirectdrives"@,
        "redirectwebauthn"@,
        "devicestoredirect"@,
        "drivestoredirect"@,
        "camerastoredirect"@,
        "usbdevicestoredirect"@,
        "authentication level"@,
        "enablecredsspsupport"@,
        "negotiate security layer"@,
        "prompt for credentials on client"@,
        "disableconnectionsharing"@,
        "autoreconnection enabled"@,
        "alternate shell"@,
        "shell working directory"@,
        "connect to console"@,
        "bookmarktype"@,
        "use redirection server name"@,
        "forcehidpioptimizations"@,
        "desktopscalefactor"@,
        "devicescalefactor"@,
        "hidef color depth"@,
        "selectedmonitors"@,
        "span monitors"@,
    ]
}

/// Whether the setting on the trimmed line `line` is none of those that the profile `gnome` sets or
/// leaves out.
pub open spec fn is_unrelated(line: Seq<char>) -> bool {
    line.len() > 0 && forall|i: int|
        0 <= i < gnome_names().len() ==> !text::same_ignoring_case(
            settings::line_key(line),
            #[trigger] gnome_names()[i],
        )
}

/// The unrelated lines of `lines`, trimmed and in their order.
pub open spec fn unrelated(lines: Seq<Seq<char>>) -> Seq<Seq<char>>
    decreases lines.len(),
{
    if lines.len() == 0 {
        seq![]
    } else {
        let line = text::trimmed(lines[0]);
        let rest = unrelated(lines.drop_first());
        if is_unrelated(line) {
            seq![line] + rest
        } else {
            rest
        }
    }
}

/// A line is unrelated where its setting is neither overridden nor left out.
proof fn lemma_unrelated(line: Seq<char>, address: Seq<char>, username: Seq<char>)
    ensures
        is_unrelated(line) == rewriting::stays(
            line,
            profiles::gnome_overrides(address, username),
            profiles::gnome_dropped(),
        ),
{
    let ov = profiles::gnome_overrides(address, username);
    let dropped = profiles::gnome_dropped();
    let key = settings::line_key(line);
    let names = gnome_names();
    reveal(gnome_names);
    rewriting::lemma_override_for(ov, key);
    assert(ov.len() == 31 && dropped.len() == 11 && names.len() == 42);
    assert forall|i: int| 0 <= i < ov.len() implies (#[trigger] ov[i]).0 == names[i] by {}
    assert forall|i: int| 0 <= i < dropped.len() implies #[trigger] dropped[i] == names[31 + i] by {}
    if is_unrelated(line) {
        let k = rewriting::override_for(ov, key) as int;
        if k < ov.len() {
            assert(text::same_ignoring_case(key, ov[k].0));
            assert(ov[k].0 == names[k]);
        }
        if rewriting::is_among(key, dropped) {
            let i = choose|i: int|
                0 <= i < dropped.len() && text::same_ignoring_case(key, #[trigger] dropped[i]);
            assert(dropped[i] == names[31 + i]);
        }
    } else if rewriting::stays(line, ov, dropped) {
        let i = choose|i: int|
            0 <= i < names.len() && text::same_ignoring_case(key, #[trigger] names[i]);
        if i < 31 {
            assert(ov[i].0 == names[i]);
        } else {
            assert(dropped[i - 31] == names[i]);
        }
    }
}

/// The unrelated lines are those that rewriting keeps.
proof fn lemma_unrelated_stay(lines: Seq<Seq<char>>, address: Seq<char>, username: Seq<char>)
    ensures
        unrelated(lines) == rewriting::staying(
            lines,
            profiles::gnome_overrides(address, username),
            profiles::gnome_dropped(),
        ),
    decreases lines.len(),
{
    if lines.len() > 0 {
        lemma_unrelated(text::trimmed(lines[0]), address, username);
        lemma_unrelated_stay(lines.drop_first(), address, username);
    }
}

/// Beside its own lines, a rewritten configuration has unrelated lines alone.
proof fn lemma_unrelated_left(lines: Seq<Seq<char>>, address: Seq<char>, username: Seq<char>)
    requires
        forall|p: int|
            0 <= p < lines.len() ==> {
                let line = #[trigger] lines[p];
                &&& line.len() > 0
                &&& text::trimmed(line) == line
                &&& !rewriting::is_among(settings::line_key(line), profiles::gnome_dropped())
            },
    ensures
        unrelated(lines) == rewriting::not_overridden(
            lines,
            profiles::gnome_overrides(address, username),
        ),
    decreases lines.len(),
{
    if lines.len() > 0 {
        let rest = lines.drop_first();
        assert(lines[0].len() > 0);
        lemma_unrelated(lines[0], address, username);
        assert forall|p: int| 0 <= p < rest.len() implies {
            let line = #[trigger] rest[p];
            &&& line.len() > 0
            &&& text::trimmed(line) == line
            &&& !rewriting::is_among(settings::line_key(line), profiles::gnome_dropped())
        } by {
            assert(rest[p] == lines[p + 1]);
        }
        lemma_unrelated_left(rest, address, username);
    }
}

/// The lines `own` of the overrides stand in the rewritten text once each; the setting on each
/// other line is not overridden.
proof fn lemma_own_lines(
    content: Seq<char>,
    ov: Seq<(Seq<char>, Seq<char>)>,
    dropped: Seq<Seq<char>>,
    own: Seq<Seq<char>>,
)
    requires
        rewriting::are_lasting(ov, dropped),
        own.len() == ov.len(),
        forall|i: int| 0 <= i < ov.len() ==> (#[trigger] ov[i]).1 == own[i],
    ensures
        ({
            let lines = text::lines_of(rewriting::rewritten_text(content, ov, dropped));
            &&& forall|i: int| 0 <= i < own.len() ==> lines.contains(#[trigger] own[i])
            &&& forall|p: int|
                0 <= p < lines.len() ==> own.contains(#[trigger] lines[p])
                    || rewriting::override_for(ov, settings::line_key(lines[p])) >= ov.len()
            &&& forall|p: int, q: int|
                0 <= p < q < lines.len() && own.contains(#[trigger] lines[p]) ==> lines[p]
                    != #[trigger] lines[q]
            &&& forall|p: int|
                0 <= p < lines.len() ==> {
                    let line = #[trigger] lines[p];
                    &&& line.len() > 0
                    &&& text::trimmed(line) == line
                    &&& !rewriting::is_among(settings::line_key(line), dropped)
                }
        }),
{
    let lines = text::lines_of(rewriting::rewritten_text(content, ov, dropped));
    rewriting::law_rewritten_text_lines(content, ov, dropped);
    rewriting::lemma_rewritten_lines(content, ov, dropped);
    assert forall|i: int| 0 <= i < own.len() implies lines.contains(#[trigger] own[i]) by {
        assert(lines.contains(ov[i].1));
    }
    assert forall|p: int| 0 <= p < lines.len() implies own.contains(#[trigger] lines[p])
        || rewriting::override_for(ov, settings::line_key(lines[p])) >= ov.len() by {
        let k = rewriting::override_for(ov, settings::line_key(lines[p])) as int;
        if k < ov.len() {
            assert(lines[p] == ov[k].1);
            assert(own[k] == lines[p]);
        }
    }
    assert forall|p: int, q: int|
        0 <= p < q < lines.len() && own.contains(#[trigger] lines[p]) implies lines[p]
        != #[trigger] lines[q] by {
        let i = choose|i: int| 0 <= i < own.len() && own[i] == lines[p];
        assert(ov[i].1 == lines[p]);
        assert(rewriting::override_for(ov, settings::line_key(ov[i].1)) == i);
    }
    assert forall|p: int| 0 <= p < lines.len() implies {
        let line = #[trigger] lines[p];
        &&& line.len() > 0
        &&& text::trimmed(line) == line
        &&& !rewriting::is_among(settings::line_key(line), dropped)
    } by {
        assert(rewriting::is_settled(lines[p], ov, dropped));
    }
}

/// The lines of the profile are those of its overrides.
proof fn lemma_gnome_tables(address: Seq<char>, username: Seq<char>)
    ensures
        gnome_lines(address, username).len() == profiles::gnome_overrides(address, username).len(),
        forall|i: int|
            0 <= i < gnome_lines(address, username).len() ==> (
            #[trigger] profiles::gnome_overrides(address, username)[i]).1 == gnome_lines(
                address,
                username,
            )[i],
{
    reveal(gnome_lines);
}

/// What `gnome_config` makes of a configuration.
proof fn lemma_gnome_made(content: Seq<char>, address: Seq<char>, username: Seq<char>)
    requires
        profile_laws::is_value(address),
        profile_laws::is_value(username),
    ensures
        ({
            let ov = profiles::gnome_overrides(address, username);
            let lines = text::lines_of(
                rewriting::rewritten_text(content, ov, profiles::gnome_dropped()),
            );
            let own = gnome_lines(address, username);
            &&& forall|i: int| 0 <= i < own.len() ==> lines.contains(#[trigger] own[i])
            &&& forall|p: int|
                0 <= p < lines.len() ==> own.contains(#[trigger] lines[p]) || is_unrelated(lines[p])
            &&& forall|p: int, q: int|
                0 <= p < q < lines.len() && own.contains(#[trigger] lines[p]) ==> lines[p]
                    != #[trigger] lines[q]
            &&& unrelated(lines) == unrelated(text::lines_of(content))
        }),
{
    let ov = profiles::gnome_overrides(address, username);
    let dropped = profiles::gnome_dropped();
    let lines = text::lines_of(rewriting::rewritten_text(content, ov, dropped));
    let own = gnome_lines(address, username);
    profile_laws::lemma_gnome_overrides_last(address, username);
    lemma_gnome_tables(address, username);
    lemma_own_lines(content, ov, dropped, own);
    rewriting::law_rewritten_text_lines(content, ov, dropped);
    assert forall|p: int| 0 <= p < lines.len() implies own.contains(#[trigger] lines[p])
        || is_unrelated(lines[p]) by {
        lemma_unrelated(lines[p], address, username);
    }
    lemma_unrelated_left(lines, address, username);
    lemma_unrelated_stay(text::lines_of(content), address, username);
}

/// The profile `gnome` sets each of its lines once, keeps the unrelated lines in their order, and
/// writes nothing else.
pub proof fn law_gnome_profile_writes_these_lines(
    content: Seq<char>,
    saved: Option<Seq<char>>,
    host: Seq<char>,
    rest: Seq<char>,
    username: Seq<char>,
)
    requires
        choice_laws::carries_token(content),
        choice_laws::has_account(content, host, rest, username),
        (host + rest).len() > 0 && username.len() > 0,
    ensures
        ({
            let made = template::normalized(content, "gnome"@, saved);
            let lines = text::lines_of(made.content);
            let own = gnome_lines(host + rest, username);
            &&& made.strategy == "mstsc_gnome_compatible"@
            &&& made.patches.len() == 0
            &&& forall|i: int| 0 <= i < own.len() ==> lines.contains(#[trigger] own[i])
            &&& forall|p: int|
                0 <= p < lines.len() ==> own.contains(#[trigger] lines[p]) || is_unrelated(lines[p])
            &&& forall|p: int, q: int|
                0 <= p < q < lines.len() && own.contains(#[trigger] lines[p]) ==> lines[p]
                    != #[trigger] lines[q]
            &&& unrelated(lines) == unrelated(text::lines_of(content))
        }),
{
    settings_laws::law_token_user_name(content);
    choice_laws::lemma_profile_names();
    choice_laws::lemma_account_read(content, host, rest, username);
    profile_laws::lemma_account(content, true);
    lemma_gnome_made(content, host + rest, username);
}

} // verus!
