//! Laws of the connection profiles.
use crate::profiles;
use crate::rewriting;
use crate::settings;
use crate::text;
use vstd::prelude::*;

verus! {

// ---------------------------------------------------------------------------
// Configurations that are written anew
// ---------------------------------------------------------------------------

/// Whether `lines` are lines, of which the last one is not empty.
pub open spec fn are_lines(lines: Seq<Seq<char>>) -> bool {
    &&& forall|i: int| 0 <= i < lines.len() ==> text::is_line(#[trigger] lines[i])
    &&& lines.len() > 0 ==> lines.last().len() > 0
}

/// The further settings of the profile `legacy` are lines.
pub(crate) proof fn lemma_legacy_settings_are_lines()
    ensures
        are_lines(profiles::legacy_settings()),
{
    reveal_strlit("desktopwidth:i:1280");
    reveal_strlit("desktopheight:i:720");
    reveal_strlit("screen mode id:i:1");
    reveal_strlit("session bpp:i:16");
    reveal_strlit("compression:i:1");
    reveal_strlit("connection type:i:1");
    reveal_strlit("networkautodetect:i:0");
    reveal_strlit("bandwidthautodetect:i:0");
    reveal_strlit("smart sizing:i:1");
    reveal_strlit("dynamic resolution:i:0");
    reveal_strlit("use multimon:i:0");
    reveal_strlit("use multitransport:i:0");
    reveal_strlit("bitmapcachepersistenable:i:0");
    reveal_strlit("font smoothing:i:0");
    reveal_strlit("disable wallpaper:i:1");
    reveal_strlit("disable full window drag:i:1");
    reveal_strlit("disable menu anims:i:1");
    reveal_strlit("disable themes:i:1");
    reveal_strlit("audiomode:i:2");
    reveal_strlit("audiocapturemode:i:0");
    reveal_strlit("videoplaybackmode:i:0");
    reveal_strlit("redirectclipboard:i:0");
    reveal_strlit("redirectprinters:i:0");
    reveal_strlit("redirectcomports:i:0");
    reveal_strlit("redirectsmartcards:i:0");
    reveal_strlit("redirectdrives:i:0");
    reveal_strlit("devicestoredirect:s:");
    reveal_strlit("drivestoredirect:s:");
    reveal_strlit("camerastoredirect:s:");
    reveal_strlit("usbdevicestoredirect:s:");
    reveal_strlit("authentication level:i:2");
    reveal_strlit("enablecredsspsupport:i:1");
    reveal_strlit("negotiate security layer:i:1");
    reveal_strlit("prompt for credentials on client:i:0");
    reveal_strlit("disableconnectionsharing:i:1");
    reveal_strlit("autoreconnection enabled:i:0");
}

/// The further settings of the profile `mac` are lines.
pub(crate) proof fn lemma_mac_settings_are_lines()
    ensures
        are_lines(profiles::mac_settings()),
{
    reveal_strlit("desktopwidth:i:2880");
    reveal_strlit("desktopheight:i:1620");
    reveal_strlit("session bpp:i:32");
    reveal_strlit("forcehidpioptimizations:i:1");
    reveal_strlit("desktopscalefactor:i:150");
    reveal_strlit("hidef color depth:i:32");
    reveal_strlit("compression:i:1");
    reveal_strlit("font smoothing:i:1");
    reveal_strlit("disable wallpaper:i:0");
    reveal_strlit("disable menu anims:i:1");
    reveal_strlit("disable themes:i:0");
    reveal_strlit("audiomode:i:0");
    reveal_strlit("smart sizing:i:1");
    reveal_strlit("screen mode id:i:2");
}

/// The further settings of the profile `swift` are lines.
pub(crate) proof fn lemma_swift_settings_are_lines()
    ensures
        are_lines(profiles::swift_settings()),
{
    reveal_strlit("desktopwidth:i:2880");
    reveal_strlit("desktopheight:i:1620");
    reveal_strlit("session bpp:i:24");
    reveal_strlit("forcehidpioptimizations:i:1");
    reveal_strlit("desktopscalefactor:i:150");
    reveal_strlit("hidef color depth:i:24");
    reveal_strlit("compression:i:1");
    reveal_strlit("font smoothing:i:1");
    reveal_strlit("disable wallpaper:i:0");
    reveal_strlit("disable menu anims:i:1");
    reveal_strlit("disable themes:i:0");
    reveal_strlit("audiomode:i:0");
    reveal_strlit("smart sizing:i:1");
    reveal_strlit("screen mode id:i:2");
}

/// Whether `value` is the value of a setting as an account holds it: not empty, without white
/// space around it, and on one line.
pub open spec fn is_value(value: Seq<char>) -> bool {
    &&& value.len() > 0
    &&& !text::is_white_space(value[0])
    &&& !text::is_white_space(value.last())
    &&& !value.contains('\n')
}

/// A part of a text without `c` is without `c`.
proof fn lemma_part_lacks(s: Seq<char>, i: int, j: int, c: char)
    requires
        0 <= i <= j <= s.len(),
        !s.contains(c),
    ensures
        !s.subrange(i, j).contains(c),
{
    assert forall|k: int| 0 <= k < j - i implies s.subrange(i, j)[k] != c by {
        assert(s.subrange(i, j)[k] == s[i + k]);
    }
}

/// A trimmed text without `c` is without `c`.
pub proof fn lemma_trimmed_lacks(s: Seq<char>, c: char)
    requires
        !s.contains(c),
    ensures
        !text::trimmed(s).contains(c),
{
    let p = |c: char| text::is_white_space(c);
    text::lemma_trimmed_props(s, p);
    let (i, j) = choose|i: int, j: int|
        0 <= i <= j <= s.len() && text::trimmed_by(s, p) == #[trigger] s.subrange(i, j);
    lemma_part_lacks(s, i, j, c);
}

/// What a setting is set to stands on one line.
proof fn lemma_setting_on_one_line(lines: Seq<Seq<char>>, key: Seq<char>)
    requires
        forall|i: int| 0 <= i < lines.len() ==> !(#[trigger] lines[i]).contains('\n'),
    ensures
        settings::setting_in(lines, key) matches Some(value) ==> !value.contains('\n'),
    decreases lines.len(),
{
    if lines.len() > 0 {
        let line = text::trimmed(lines[0]);
        let rest = lines.drop_first();
        assert forall|i: int| 0 <= i < rest.len() implies !(#[trigger] rest[i]).contains('\n') by {
            assert(rest[i] == lines[i + 1]);
        }
        lemma_setting_on_one_line(rest, key);
        assert(!lines[0].contains('\n'));
        lemma_trimmed_lacks(lines[0], '\n');
        text::lemma_first_of_props(line, ':');
        if let Some((name, tail)) = text::split_first(line, ':') {
            assert(tail == line.subrange(line.len() - tail.len(), line.len() as int));
            lemma_part_lacks(line, line.len() - tail.len(), line.len() as int, '\n');
            text::lemma_first_of_props(tail, ':');
            let value = settings::value_part(tail);
            assert(value == tail.subrange(tail.len() - value.len(), tail.len() as int));
            lemma_part_lacks(tail, tail.len() - value.len(), tail.len() as int, '\n');
        }
    }
}

/// What is left of a text on one line after trimming is a value, where anything is left.
pub proof fn lemma_trimmed_is_value(s: Seq<char>)
    requires
        !s.contains('\n'),
    ensures
        text::trimmed(s).len() > 0 ==> is_value(text::trimmed(s)),
{
    text::lemma_trimmed_props(s, |c: char| text::is_white_space(c));
    lemma_trimmed_lacks(s, '\n');
}

/// An account consists of values; the host of an address holds no colon.
pub proof fn lemma_account(content: Seq<char>, with_port: bool)
    ensures
        profiles::account_of(content, with_port) matches Some((address, username)) ==> is_value(address)
            && is_value(username) && (!with_port ==> !address.contains(':')),
{
    if let Some((address, username)) = profiles::account_of(content, with_port) {
        let a = settings::setting_value(content, "full address"@)->0;
        let u = settings::setting_value(content, "username"@)->0;
        text::lemma_lines_hold_no_feed(content);
        lemma_setting_on_one_line(text::lines_of(content), "full address"@);
        lemma_setting_on_one_line(text::lines_of(content), "username"@);
        lemma_trimmed_is_value(u);
        lemma_trimmed_is_value(a);
        if !with_port {
            let t = text::trimmed(a);
            let host = text::before(t, ':');
            lemma_trimmed_lacks(a, '\n');
            text::lemma_first_of_props(t, ':');
            assert(host == t.subrange(0, host.len() as int));
            lemma_part_lacks(t, 0, host.len() as int, '\n');
            assert forall|i: int| 0 <= i < host.len() implies host[i] != ':' by {
                assert(host[i] == t[i]);
            }
            lemma_trimmed_is_value(host);
            lemma_trimmed_lacks(host, ':');
        }
    }
}

/// A line made of a name, the type of texts and a value is read as what it was made of.
proof fn lemma_setting_line(name: Seq<char>, value: Seq<char>)
    requires
        name.len() > 0,
        !text::is_white_space(name[0]),
        !name.contains(':'),
        !name.contains('\n'),
        is_value(value),
    ensures
        text::is_line(name + ":s:"@ + value),
        text::trimmed(name + ":s:"@ + value) == name + ":s:"@ + value,
        text::split_first(name + ":s:"@ + value, ':') == Some((name, "s:"@ + value)),
        settings::value_part("s:"@ + value) == value,
{
    reveal_strlit(":s:");
    reveal_strlit("s:");
    let line = name + ":s:"@ + value;
    let tail = "s:"@ + value;
    let n = name.len() as int;
    assert(line.last() == value.last());
    text::lemma_trimmed_keeps(line, |c: char| text::is_white_space(c));
    assert forall|i: int| 0 <= i < n implies line[i] != ':' by {
        assert(line[i] == name[i]);
    }
    text::lemma_first_of(line, ':', n);
    assert(line.take(n) == name);
    assert(line.skip(n + 1) == tail);
    text::lemma_first_of(tail, ':', 1);
    assert(tail.skip(2) == value);
    assert forall|i: int| 0 <= i < line.len() implies line[i] != '\n' by {
        if i < n {
            assert(line[i] == name[i]);
        } else if i >= n + 3 {
            assert(line[i] == value[i - n - 3]);
        }
    }
}

/// The lines of an address and of a user name.
pub proof fn lemma_account_lines(address: Seq<char>, username: Seq<char>)
    requires
        is_value(address),
        is_value(username),
    ensures
        text::is_line(profiles::address_line(address)),
        text::is_line(profiles::username_line(username)),
        text::trimmed(profiles::address_line(address)) == profiles::address_line(address),
        text::trimmed(profiles::username_line(username)) == profiles::username_line(username),
        text::split_first(profiles::address_line(address), ':') == Some(("full address"@, "s:"@ + address)),
        text::split_first(profiles::username_line(username), ':') == Some(("username"@, "s:"@ + username)),
        settings::value_part("s:"@ + address) == address,
        settings::value_part("s:"@ + username) == username,
        !text::same_ignoring_case("full address"@, "username"@),
        !text::same_ignoring_case("username"@, "full address"@),
{
    reveal_strlit("full address");
    reveal_strlit("username");
    reveal_strlit("full address:s:");
    reveal_strlit("username:s:");
    reveal_strlit(":s:");
    lemma_setting_line("full address"@, address);
    lemma_setting_line("username"@, username);
    assert("full address"@ + ":s:"@ =~= "full address:s:"@);
    assert("username"@ + ":s:"@ =~= "username:s:"@);
    assert(text::lowered("full address"@).len() == 12);
    assert(text::lowered("username"@).len() == 8);
}

/// A configuration that is written anew sets the address and the user name with which it was
/// written.
pub proof fn law_written_config_reads_back(
    address: Seq<char>,
    username: Seq<char>,
    further: Seq<Seq<char>>,
)
    requires
        is_value(address),
        is_value(username),
        are_lines(further),
    ensures
        text::lines_of(profiles::config_of(address, username, further)) == seq![
            profiles::address_line(address),
            profiles::username_line(username),
        ] + further,
        settings::setting_value(profiles::config_of(address, username, further), "full address"@) == Some(
            address,
        ),
        settings::setting_value(profiles::config_of(address, username, further), "username"@) == Some(
            username,
        ),
        profiles::account_of(profiles::config_of(address, username, further), true) == Some((address, username)),
        !address.contains(':') ==> profiles::account_of(profiles::config_of(address, username, further), false) == Some(
            (address, username),
        ),
{
    let lines = seq![profiles::address_line(address), profiles::username_line(username)] + further;
    lemma_account_lines(address, username);
    assert forall|i: int| 0 <= i < lines.len() implies text::is_line(#[trigger] lines[i]) by {
        if i >= 2 {
            assert(lines[i] == further[i - 2]);
        }
    }
    assert(lines.last().len() > 0) by {
        if further.len() > 0 {
            assert(lines.last() == further.last());
        } else {
            assert(lines.last() == profiles::username_line(username));
        }
    }
    text::law_joined_lines_read_back(lines);
    assert(lines[0] == profiles::address_line(address));
    assert(lines.drop_first()[0] == profiles::username_line(username));
    assert(profiles::address_line(address).len() > 0 && profiles::username_line(username).len() > 0);
    assert(settings::setting_in(lines.drop_first(), "username"@) == Some(username));
    text::lemma_trimmed_keeps(address, |c: char| text::is_white_space(c));
    text::lemma_trimmed_keeps(username, |c: char| text::is_white_space(c));
    if !address.contains(':') {
        text::lemma_first_of_props(address, ':');
        assert(text::before(address, ':') == address);
    }
}

/// The configurations of the profiles `mac`, `swift` and `legacy` set the account of the
/// configuration from which they were made; only `legacy` keeps the port.
pub proof fn law_profiles_keep_account(content: Seq<char>)
    ensures
        profiles::mac_config(content) matches Some(config) ==> profiles::account_of(config, false) == profiles::account_of(
            content,
            false,
        ) && profiles::account_of(config, true) == profiles::account_of(content, false),
        profiles::swift_config(content) matches Some(config) ==> profiles::account_of(config, false) == profiles::account_of(
            content,
            false,
        ) && profiles::account_of(config, true) == profiles::account_of(content, false),
        profiles::legacy_config(content) matches Some(config) ==> profiles::account_of(config, true) == profiles::account_of(
            content,
            true,
        ),
{
    lemma_account(content, true);
    lemma_account(content, false);
    lemma_mac_settings_are_lines();
    lemma_swift_settings_are_lines();
    lemma_legacy_settings_are_lines();
    if let Some((address, username)) = profiles::account_of(content, false) {
        law_written_config_reads_back(address, username, profiles::mac_settings());
        law_written_config_reads_back(address, username, profiles::swift_settings());
    }
    if let Some((address, username)) = profiles::account_of(content, true) {
        law_written_config_reads_back(address, username, profiles::legacy_settings());
    }
}

/// The configuration of the profile `mac`, `swift` or `legacy` is its own configuration of that
/// profile.
pub proof fn law_profiles_are_stable(content: Seq<char>)
    ensures
        profiles::mac_config(content) matches Some(config) ==> profiles::mac_config(config) == Some(
            config,
        ),
        profiles::swift_config(content) matches Some(config) ==> profiles::swift_config(config)
            == Some(config),
        profiles::legacy_config(content) matches Some(config) ==> profiles::legacy_config(config)
            == Some(config),
{
    law_profiles_keep_account(content);
}

// ---------------------------------------------------------------------------
// The configuration that is rewritten line by line
// ---------------------------------------------------------------------------

/// The names of the overrides of the profile `gnome` differ.
proof fn lemma_gnome_names_differ(address: Seq<char>, username: Seq<char>)
    ensures
        forall|i: int, j: int|
            0 <= i < j < profiles::gnome_overrides(address, username).len() ==> !text::same_ignoring_case(
                (#[trigger] profiles::gnome_overrides(address, username)[i]).0,
                (#[trigger] profiles::gnome_overrides(address, username)[j]).0,
            ),
{
    reveal_strlit("full address");
    reveal_strlit("username");
    reveal_strlit("desktopwidth");
    reveal_strlit("desktopheight");
    reveal_strlit("screen mode id");
    reveal_strlit("session bpp");
    reveal_strlit("compression");
    reveal_strlit("networkautodetect");
    reveal_strlit("bandwidthautodetect");
    reveal_strlit("smart sizing");
    reveal_strlit("dynamic resolution");
    reveal_strlit("use multimon");
    reveal_strlit("use multitransport");
    reveal_strlit("audiomode");
    reveal_strlit("audiocapturemode");
    reveal_strlit("redirectclipboard");
    reveal_strlit("redirectprinters");
    reveal_strlit("redirectcomports");
    reveal_strlit("redirectsmartcards");
    reveal_strlit("redirectdrives");
    reveal_strlit("redirectwebauthn");
    reveal_strlit("devicestoredirect");
    reveal_strlit("drivestoredirect");
    reveal_strlit("camerastoredirect");
    reveal_strlit("usbdevicestoredirect");
    reveal_strlit("authentication level");
    reveal_strlit("enablecredsspsupport");
    reveal_strlit("negotiate security layer");
    reveal_strlit("prompt for credentials on client");
    reveal_strlit("disableconnectionsharing");
    reveal_strlit("autoreconnection enabled");
    let all = profiles::gnome_overrides(address, username);
    assert forall|i: int, j: int| 0 <= i < j < all.len() implies !text::same_ignoring_case(
        (#[trigger] all[i]).0,
        (#[trigger] all[j]).0,
    ) by {
        let a = all[i].0;
        let b = all[j].0;
        if text::same_ignoring_case(a, b) {
            assert(text::lowered(a).len() == text::lowered(b).len());
            assert(text::lowered(a)[0] == text::lower(a[0]));
            assert(text::lowered(b)[0] == text::lower(b[0]));
            let k = a.len() - 2;
            assert(text::lowered(a)[k] == text::lower(a[k]));
            assert(text::lowered(b)[k] == text::lower(b[k]));
        }
    }
}

/// Whether the override `o` is a line that sets its name, as readers and rewriters take it.
#[verifier::opaque]
spec fn is_proper(o: (Seq<char>, Seq<char>)) -> bool {
    &&& rewriting::sets_its_name(o)
    &&& text::is_line(o.1)
    &&& settings::line_key(o.1) == o.0
}

/// A line that starts with a name and a colon sets the name.
proof fn lemma_proper(name: Seq<char>, line: Seq<char>)
    requires
        0 < name.len() < line.len(),
        !text::is_white_space(name[0]),
        !text::is_white_space(name.last()),
        !name.contains(':'),
        line.take(name.len() as int) == name,
        line[name.len() as int] == ':',
        !line.contains('\n'),
        !text::is_white_space(line.last()),
    ensures
        is_proper((name, line)),
{
    reveal(is_proper);
    let n = name.len() as int;
    assert(line[0] == name[0]);
    text::lemma_trimmed_keeps(line, |c: char| text::is_white_space(c));
    text::lemma_trimmed_keeps(name, |c: char| text::is_white_space(c));
    assert forall|j: int| 0 <= j < n implies line[j] != ':' by {
        assert(line[j] == line.take(n)[j]);
    }
    text::lemma_first_of(line, ':', n);
}

/// The fixed overrides of the profile `gnome` are lines that set their names.
proof fn lemma_gnome_settings_proper()
    ensures
        forall|i: int| 0 <= i < profiles::gnome_settings().len() ==> is_proper(#[trigger] profiles::gnome_settings()[i]),
{
    assert(is_proper(("desktopwidth"@, "desktopwidth:i:1920"@))) by {
        reveal_strlit("desktopwidth");
        reveal_strlit("desktopwidth:i:1920");
        assert("desktopwidth:i:1920"@.take(12) =~= "desktopwidth"@);
        lemma_proper("desktopwidth"@, "desktopwidth:i:1920"@);
    }
    assert(is_proper(("desktopheight"@, "desktopheight:i:1080"@))) by {
        reveal_strlit("desktopheight");
        reveal_strlit("desktopheight:i:1080");
        assert("desktopheight:i:1080"@.take(13) =~= "desktopheight"@);
        lemma_proper("desktopheight"@, "desktopheight:i:1080"@);
    }
    assert(is_proper(("screen mode id"@, "screen mode id:i:1"@))) by {
        reveal_strlit("screen mode id");
        reveal_strlit("screen mode id:i:1");
        assert("screen mode id:i:1"@.take(14) =~= "screen mode id"@);
        lemma_proper("screen mode id"@, "screen mode id:i:1"@);
    }
    assert(is_proper(("session bpp"@, "session bpp:i:32"@))) by {
        reveal_strlit("session bpp");
        reveal_strlit("session bpp:i:32");
        assert("session bpp:i:32"@.take(11) =~= "session bpp"@);
        lemma_proper("session bpp"@, "session bpp:i:32"@);
    }
    assert(is_proper(("compression"@, "compression:i:1"@))) by {
        reveal_strlit("compression");
        reveal_strlit("compression:i:1");
        assert("compression:i:1"@.take(11) =~= "compression"@);
        lemma_proper("compression"@, "compression:i:1"@);
    }
    assert(is_proper(("networkautodetect"@, "networkautodetect:i:1"@))) by {
        reveal_strlit("networkautodetect");
        reveal_strlit("networkautodetect:i:1");
        assert("networkautodetect:i:1"@.take(17) =~= "networkautodetect"@);
        lemma_proper("networkautodetect"@, "networkautodetect:i:1"@);
    }
    assert(is_proper(("bandwidthautodetect"@, "bandwidthautodetect:i:1"@))) by {
        reveal_strlit("bandwidthautodetect");
        reveal_strlit("bandwidthautodetect:i:1");
        assert("bandwidthautodetect:i:1"@.take(19) =~= "bandwidthautodetect"@);
        lemma_proper("bandwidthautodetect"@, "bandwidthautodetect:i:1"@);
    }
    assert(is_proper(("smart sizing"@, "smart sizing:i:1"@))) by {
        reveal_strlit("smart sizing");
        reveal_strlit("smart sizing:i:1");
        assert("smart sizing:i:1"@.take(12) =~= "smart sizing"@);
        lemma_proper("smart sizing"@, "smart sizing:i:1"@);
    }
    assert(is_proper(("dynamic resolution"@, "dynamic resolution:i:1"@))) by {
        reveal_strlit("dynamic resolution");
        reveal_strlit("dynamic resolution:i:1");
        assert("dynamic resolution:i:1"@.take(18) =~= "dynamic resolution"@);
        lemma_proper("dynamic resolution"@, "dynamic resolution:i:1"@);
    }
    assert(is_proper(("use multimon"@, "use multimon:i:0"@))) by {
        reveal_strlit("use multimon");
        reveal_strlit("use multimon:i:0");
        assert("use multimon:i:0"@.take(12) =~= "use multimon"@);
        lemma_proper("use multimon"@, "use multimon:i:0"@);
    }
    assert(is_proper(("use multitransport"@, "use multitransport:i:0"@))) by {
        reveal_strlit("use multitransport");
        reveal_strlit("use multitransport:i:0");
        assert("use multitransport:i:0"@.take(18) =~= "use multitransport"@);
        lemma_proper("use multitransport"@, "use multitransport:i:0"@);
    }
    assert(is_proper(("audiomode"@, "audiomode:i:2"@))) by {
        reveal_strlit("audiomode");
        reveal_strlit("audiomode:i:2");
        assert("audiomode:i:2"@.take(9) =~= "audiomode"@);
        lemma_proper("audiomode"@, "audiomode:i:2"@);
    }
    assert(is_proper(("audiocapturemode"@, "audiocapturemode:i:0"@))) by {
        reveal_strlit("audiocapturemode");
        reveal_strlit("audiocapturemode:i:0");
        assert("audiocapturemode:i:0"@.take(16) =~= "audiocapturemode"@);
        lemma_proper("audiocapturemode"@, "audiocapturemode:i:0"@);
    }
    assert(is_proper(("redirectclipboard"@, "redirectclipboard:i:0"@))) by {
        reveal_strlit("redirectclipboard");
        reveal_strlit("redirectclipboard:i:0");
        assert("redirectclipboard:i:0"@.take(17) =~= "redirectclipboard"@);
        lemma_proper("redirectclipboard"@, "redirectclipboard:i:0"@);
    }
    assert(is_proper(("redirectprinters"@, "redirectprinters:i:0"@))) by {
        reveal_strlit("redirectprinters");
        reveal_strlit("redirectprinters:i:0");
        assert("redirectprinters:i:0"@.take(16) =~= "redirectprinters"@);
        lemma_proper("redirectprinters"@, "redirectprinters:i:0"@);
    }
    assert(is_proper(("redirectcomports"@, "redirectcomports:i:0"@))) by {
        reveal_strlit("redirectcomports");
        reveal_strlit("redirectcomports:i:0");
        assert("redirectcomports:i:0"@.take(16) =~= "redirectcomports"@);
        lemma_proper("redirectcomports"@, "redirectcomports:i:0"@);
    }
    assert(is_proper(("redirectsmartcards"@, "redirectsmartcards:i:0"@))) by {
        reveal_strlit("redirectsmartcards");
        reveal_strlit("redirectsmartcards:i:0");
        assert("redirectsmartcards:i:0"@.take(18) =~= "redirectsmartcards"@);
        lemma_proper("redirectsmartcards"@, "redirectsmartcards:i:0"@);
    }
    assert(is_proper(("redirectdrives"@, "redirectdrives:i:0"@))) by {
        reveal_strlit("redirectdrives");
        reveal_strlit("redirectdrives:i:0");
        assert("redirectdrives:i:0"@.take(14) =~= "redirectdrives"@);
        lemma_proper("redirectdrives"@, "redirectdrives:i:0"@);
    }
    assert(is_proper(("redirectwebauthn"@, "redirectwebauthn:i:0"@))) by {
        reveal_strlit("redirectwebauthn");
        reveal_strlit("redirectwebauthn:i:0");
        assert("redirectwebauthn:i:0"@.take(16) =~= "redirectwebauthn"@);
        lemma_proper("redirectwebauthn"@, "redirectwebauthn:i:0"@);
    }
    assert(is_proper(("devicestoredirect"@, "devicestoredirect:s:"@))) by {
        reveal_strlit("devicestoredirect");
        reveal_strlit("devicestoredirect:s:");
        assert("devicestoredirect:s:"@.take(17) =~= "devicestoredirect"@);
        lemma_proper("devicestoredirect"@, "devicestoredirect:s:"@);
    }
    assert(is_proper(("drivestoredirect"@, "drivestoredirect:s:"@))) by {
        reveal_strlit("drivestoredirect");
        reveal_strlit("drivestoredirect:s:");
        assert("drivestoredirect:s:"@.take(16) =~= "drivestoredirect"@);
        lemma_proper("drivestoredirect"@, "drivestoredirect:s:"@);
    }
    assert(is_proper(("camerastoredirect"@, "camerastoredirect:s:"@))) by {
        reveal_strlit("camerastoredirect");
        reveal_strlit("camerastoredirect:s:");
        assert("camerastoredirect:s:"@.take(17) =~= "camerastoredirect"@);
        lemma_proper("camerastoredirect"@, "camerastoredirect:s:"@);
    }
    assert(is_proper(("usbdevicestoredirect"@, "usbdevicestoredirect:s:"@))) by {
        reveal_strlit("usbdevicestoredirect");
        reveal_strlit("usbdevicestoredirect:s:");
        assert("usbdevicestoredirect:s:"@.take(20) =~= "usbdevicestoredirect"@);
        lemma_proper("usbdevicestoredirect"@, "usbdevicestoredirect:s:"@);
    }
    assert(is_proper(("authentication level"@, "authentication level:i:2"@))) by {
        reveal_strlit("authentication level");
        reveal_strlit("authentication level:i:2");
        assert("authentication level:i:2"@.take(20) =~= "authentication level"@);
        lemma_proper("authentication level"@, "authentication level:i:2"@);
    }
    assert(is_proper(("enablecredsspsupport"@, "enablecredsspsupport:i:1"@))) by {
        reveal_strlit("enablecredsspsupport");
        reveal_strlit("enablecredsspsupport:i:1");
        assert("enablecredsspsupport:i:1"@.take(20) =~= "enablecredsspsupport"@);
        lemma_proper("enablecredsspsupport"@, "enablecredsspsupport:i:1"@);
    }
    assert(is_proper(("negotiate security layer"@, "negotiate security layer:i:1"@))) by {
        reveal_strlit("negotiate security layer");
        reveal_strlit("negotiate security layer:i:1");
        assert("negotiate security layer:i:1"@.take(24) =~= "negotiate security layer"@);
        lemma_proper("negotiate security layer"@, "negotiate security layer:i:1"@);
    }
    assert(is_proper(("prompt for credentials on client"@, "prompt for credentials on client:i:0"@))) by {
        reveal_strlit("prompt for credentials on client");
        reveal_strlit("prompt for credentials on client:i:0");
        assert("prompt for credentials on client:i:0"@.take(32) =~= "prompt for credentials on client"@);
        lemma_proper("prompt for credentials on client"@, "prompt for credentials on client:i:0"@);
    }
    assert(is_proper(("disableconnectionsharing"@, "disableconnectionsharing:i:1"@))) by {
        reveal_strlit("disableconnectionsharing");
        reveal_strlit("disableconnectionsharing:i:1");
        assert("disableconnectionsharing:i:1"@.take(24) =~= "disableconnectionsharing"@);
        lemma_proper("disableconnectionsharing"@, "disableconnectionsharing:i:1"@);
    }
    assert(is_proper(("autoreconnection enabled"@, "autoreconnection enabled:i:0"@))) by {
        reveal_strlit("autoreconnection enabled");
        reveal_strlit("autoreconnection enabled:i:0");
        assert("autoreconnection enabled:i:0"@.take(24) =~= "autoreconnection enabled"@);
        lemma_proper("autoreconnection enabled"@, "autoreconnection enabled:i:0"@);
    }
}

/// The profile `gnome` leaves none of its overrides out.
proof fn lemma_gnome_keeps_overrides(address: Seq<char>, username: Seq<char>)
    ensures
        forall|i: int|
            0 <= i < profiles::gnome_overrides(address, username).len() ==> !rewriting::is_among(
                (#[trigger] profiles::gnome_overrides(address, username)[i]).0,
                profiles::gnome_dropped(),
            ),
{
    reveal_strlit("full address");
    reveal_strlit("username");
    reveal_strlit("desktopwidth");
    reveal_strlit("desktopheight");
    reveal_strlit("screen mode id");
    reveal_strlit("session bpp");
    reveal_strlit("compression");
    reveal_strlit("networkautodetect");
    reveal_strlit("bandwidthautodetect");
    reveal_strlit("smart sizing");
    reveal_strlit("dynamic resolution");
    reveal_strlit("use multimon");
    reveal_strlit("use multitransport");
    reveal_strlit("audiomode");
    reveal_strlit("audiocapturemode");
    reveal_strlit("redirectclipboard");
    reveal_strlit("redirectprinters");
    reveal_strlit("redirectcomports");
    reveal_strlit("redirectsmartcards");
    reveal_strlit("redirectdrives");
    reveal_strlit("redirectwebauthn");
    reveal_strlit("devicestoredirect");
    reveal_strlit("drivestoredirect");
    reveal_strlit("camerastoredirect");
    reveal_strlit("usbdevicestoredirect");
    reveal_strlit("authentication level");
    reveal_strlit("enablecredsspsupport");
    reveal_strlit("negotiate security layer");
    reveal_strlit("prompt for credentials on client");
    reveal_strlit("disableconnectionsharing");
    reveal_strlit("autoreconnection enabled");
    reveal_strlit("alternate shell");
    reveal_strlit("shell working directory");
    reveal_strlit("connect to console");
    reveal_strlit("bookmarktype");
    reveal_strlit("use redirection server name");
    reveal_strlit("forcehidpioptimizations");
    reveal_strlit("desktopscalefactor");
    reveal_strlit("devicescalefactor");
    reveal_strlit("hidef color depth");
    reveal_strlit("selectedmonitors");
    reveal_strlit("span monitors");
    let all = profiles::gnome_overrides(address, username);
    let names = profiles::gnome_dropped();
    assert forall|i: int, j: int| 0 <= i < all.len() && 0 <= j < names.len() implies !text::same_ignoring_case(
        (#[trigger] all[i]).0,
        #[trigger] names[j],
    ) by {
        let a = all[i].0;
        let b = names[j];
        if text::same_ignoring_case(a, b) {
            assert(text::lowered(a).len() == text::lowered(b).len());
            assert(text::lowered(a)[0] == text::lower(a[0]));
            assert(text::lowered(b)[0] == text::lower(b[0]));
            assert(text::lowered(a)[1] == text::lower(a[1]));
            assert(text::lowered(b)[1] == text::lower(b[1]));
            let k = a.len() - 2;
            assert(text::lowered(a)[k] == text::lower(a[k]));
            assert(text::lowered(b)[k] == text::lower(b[k]));
        }
    }
}

/// The overrides of the profile `gnome` are lines that set their names.
proof fn lemma_gnome_overrides_proper(address: Seq<char>, username: Seq<char>)
    requires
        is_value(address),
        is_value(username),
    ensures
        forall|i: int|
            0 <= i < profiles::gnome_overrides(address, username).len() ==> is_proper(
                #[trigger] profiles::gnome_overrides(address, username)[i],
            ),
{
    let all = profiles::gnome_overrides(address, username);
    lemma_gnome_settings_proper();
    assert(is_proper(("full address"@, profiles::address_line(address))) && is_proper(
        ("username"@, profiles::username_line(username)),
    )) by {
        reveal(is_proper);
        reveal_strlit("full address");
        reveal_strlit("username");
        lemma_account_lines(address, username);
        text::lemma_trimmed_keeps("full address"@, |c: char| text::is_white_space(c));
        text::lemma_trimmed_keeps("username"@, |c: char| text::is_white_space(c));
        assert(text::before(profiles::address_line(address), ':') == "full address"@);
        assert(text::before(profiles::username_line(username), ':') == "username"@);
    }
    let fixed = profiles::gnome_settings();
    assert forall|i: int| 0 <= i < all.len() implies is_proper(#[trigger] all[i]) by {
        if i >= 2 {
            assert(all[i] == fixed[i - 2]);
        }
    }
}

/// The lines of a configuration with the overrides of the profile `gnome`.
pub open spec fn gnome_rewritten(
    content: Seq<char>,
    address: Seq<char>,
    username: Seq<char>,
) -> Seq<Seq<char>> {
    let overrides = profiles::gnome_overrides(address, username);
    rewriting::rewritten(
        text::lines_of(content),
        overrides,
        profiles::gnome_dropped(),
        rewriting::none_applied(overrides.len()),
    )
}

/// The rewritten lines are lines, and hold none of the settings that are left out.
proof fn lemma_gnome_lines(content: Seq<char>, address: Seq<char>, username: Seq<char>)
    requires
        is_value(address),
        is_value(username),
    ensures
        forall|p: int|
            0 <= p < gnome_rewritten(content, address, username).len() ==> {
                let line = #[trigger] gnome_rewritten(content, address, username)[p];
                &&& text::is_line(line)
                &&& line.len() > 0
                &&& !rewriting::is_among(settings::line_key(line), profiles::gnome_dropped())
            },
{
    let overrides = profiles::gnome_overrides(address, username);
    let dropped = profiles::gnome_dropped();
    let old = text::lines_of(content);
    let start = rewriting::none_applied(overrides.len());
    let out = gnome_rewritten(content, address, username);
    lemma_gnome_overrides_proper(address, username);
    lemma_gnome_keeps_overrides(address, username);
    text::lemma_lines_hold_no_feed(content);
    assert forall|p: int| 0 <= p < out.len() implies {
        let line = #[trigger] out[p];
        &&& text::is_line(line)
        &&& line.len() > 0
        &&& !rewriting::is_among(settings::line_key(line), dropped)
    } by {
        rewriting::law_rewriting_keeps_nothing_else(old, overrides, dropped, start, p);
        if rewriting::is_override_line(out[p], overrides) {
            let i = choose|i: int| 0 <= i < overrides.len() && out[p] == (#[trigger] overrides[i]).1;
            assert(is_proper(overrides[i]));
            reveal(is_proper);
        } else {
            let j = choose|j: int| 0 <= j < old.len() && out[p] == text::trimmed(#[trigger] old[j]);
            lemma_trimmed_is_value(old[j]);
        }
    }
}

/// The rewritten lines set the address and the user name, where the old ones did.
proof fn lemma_gnome_account(content: Seq<char>, address: Seq<char>, username: Seq<char>)
    requires
        is_value(address),
        is_value(username),
        settings::setting_value(content, "full address"@) is Some,
        settings::setting_value(content, "username"@) is Some,
    ensures
        settings::setting_in(gnome_rewritten(content, address, username), "full address"@) == Some(
            address,
        ),
        settings::setting_in(gnome_rewritten(content, address, username), "username"@) == Some(
            username,
        ),
{
    let overrides = profiles::gnome_overrides(address, username);
    let dropped = profiles::gnome_dropped();
    let old = text::lines_of(content);
    let start = rewriting::none_applied(overrides.len());
    lemma_gnome_overrides_proper(address, username);
    lemma_gnome_names_differ(address, username);
    lemma_gnome_keeps_overrides(address, username);
    lemma_account_lines(address, username);
    assert forall|i: int| 0 <= i < overrides.len() implies rewriting::sets_its_name(
        #[trigger] overrides[i],
    ) by {
        assert(is_proper(overrides[i]));
        reveal(is_proper);
    }
    reveal_strlit("full address");
    reveal_strlit("username");
    assert(overrides[0] == ("full address"@, profiles::address_line(address)));
    assert(overrides[1] == ("username"@, profiles::username_line(username)));
    rewriting::law_rewritten_setting_reads_back(old, overrides, dropped, start, 0);
    rewriting::law_rewritten_setting_reads_back(old, overrides, dropped, start, 1);
}

/// Each override stands in the rewritten lines.
proof fn lemma_gnome_applies_overrides(
    content: Seq<char>,
    address: Seq<char>,
    username: Seq<char>,
)
    ensures
        forall|i: int|
            0 <= i < profiles::gnome_overrides(address, username).len() ==> gnome_rewritten(
                content,
                address,
                username,
            ).contains((#[trigger] profiles::gnome_overrides(address, username)[i]).1),
{
    let overrides = profiles::gnome_overrides(address, username);
    let start = rewriting::none_applied(overrides.len());
    let out = gnome_rewritten(content, address, username);
    assert forall|i: int| 0 <= i < overrides.len() implies out.contains(
        (#[trigger] overrides[i]).1,
    ) by {
        rewriting::law_rewriting_applies_overrides(
            text::lines_of(content),
            overrides,
            profiles::gnome_dropped(),
            start,
            i,
        );
    }
}

/// Rewriting neither changes nor leaves out the overrides of the profile `gnome`.
pub(crate) proof fn lemma_gnome_overrides_last(address: Seq<char>, username: Seq<char>)
    requires
        is_value(address),
        is_value(username),
    ensures
        rewriting::are_lasting(
            profiles::gnome_overrides(address, username),
            profiles::gnome_dropped(),
        ),
{
    let overrides = profiles::gnome_overrides(address, username);
    let dropped = profiles::gnome_dropped();
    lemma_gnome_overrides_proper(address, username);
    lemma_gnome_names_differ(address, username);
    lemma_gnome_keeps_overrides(address, username);
    assert forall|i: int| 0 <= i < overrides.len() implies settings::line_key(
        (#[trigger] overrides[i]).1,
    ) == overrides[i].0 && rewriting::is_lasting(overrides[i].1, dropped) by {
        assert(is_proper(overrides[i]));
        reveal(is_proper);
    }
    rewriting::lemma_are_overrides(overrides);
}

/// The configuration of the profile `gnome` consists of the rewritten lines, and sets the account
/// of the configuration from which it was made.
pub proof fn law_gnome_config_keeps_account(content: Seq<char>)
    ensures
        profiles::gnome_config(content) matches Some(config) ==> {
            let (address, username) = profiles::account_of(content, true)->Some_0;
            &&& text::lines_of(config) == gnome_rewritten(content, address, username)
            &&& profiles::account_of(config, true) == profiles::account_of(content, true)
        },
{
    if profiles::gnome_config(content) is Some {
        let (address, username) = profiles::account_of(content, true)->Some_0;
        let out = gnome_rewritten(content, address, username);
        lemma_account(content, true);
        lemma_gnome_lines(content, address, username);
        lemma_gnome_applies_overrides(content, address, username);
        assert(profiles::gnome_overrides(address, username).len() > 0);
        assert(out.contains(profiles::gnome_overrides(address, username)[0].1));
        text::law_joined_lines_read_back(out);
        lemma_gnome_account(content, address, username);
        text::lemma_trimmed_keeps(address, |c: char| text::is_white_space(c));
        text::lemma_trimmed_keeps(username, |c: char| text::is_white_space(c));
    }
}

/// The configuration of the profile `gnome` holds each of its overrides, sets none of the
/// overridden settings twice, and holds none of the settings that it leaves out.
pub proof fn law_gnome_config_lines(content: Seq<char>)
    ensures
        profiles::gnome_config(content) matches Some(config) ==> {
            let (address, username) = profiles::account_of(content, true)->Some_0;
            let overrides = profiles::gnome_overrides(address, username);
            let lines = text::lines_of(config);
            &&& forall|i: int| 0 <= i < overrides.len() ==> lines.contains(
                (#[trigger] overrides[i]).1,
            )
            &&& forall|p: int, q: int|
                0 <= p < q < lines.len() && rewriting::override_for(
                    overrides,
                    settings::line_key(#[trigger] lines[p]),
                ) < overrides.len() ==> rewriting::override_for(
                    overrides,
                    settings::line_key(lines[p]),
                ) != rewriting::override_for(overrides, settings::line_key(#[trigger] lines[q]))
            &&& forall|p: int|
                0 <= p < lines.len() ==> !rewriting::is_among(
                    settings::line_key(#[trigger] lines[p]),
                    profiles::gnome_dropped(),
                )
        },
{
    if profiles::gnome_config(content) is Some {
        let (address, username) = profiles::account_of(content, true)->Some_0;
        let overrides = profiles::gnome_overrides(address, username);
        let start = rewriting::none_applied(overrides.len());
        let old = text::lines_of(content);
        let out = gnome_rewritten(content, address, username);
        law_gnome_config_keeps_account(content);
        lemma_account(content, true);
        lemma_gnome_lines(content, address, username);
        lemma_gnome_applies_overrides(content, address, username);
        lemma_gnome_overrides_last(address, username);
        assert forall|p: int, q: int|
            0 <= p < q < out.len() && rewriting::override_for(
                overrides,
                settings::line_key(#[trigger] out[p]),
            ) < overrides.len() implies rewriting::override_for(
            overrides,
            settings::line_key(out[p]),
        ) != rewriting::override_for(overrides, settings::line_key(#[trigger] out[q])) by {
            rewriting::law_rewriting_sets_once(old, overrides, profiles::gnome_dropped(), start, p, q);
        }
    }
}

/// The configuration of the profile `gnome` is its own configuration of the profile `gnome`.
pub proof fn law_gnome_config_is_stable(content: Seq<char>)
    ensures
        profiles::gnome_config(content) matches Some(config) ==> profiles::gnome_config(config)
            == Some(config),
{
    if profiles::gnome_config(content) is Some {
        let (address, username) = profiles::account_of(content, true)->Some_0;
        let overrides = profiles::gnome_overrides(address, username);
        let dropped = profiles::gnome_dropped();
        law_gnome_config_keeps_account(content);
        lemma_account(content, true);
        lemma_gnome_overrides_last(address, username);
        rewriting::law_rewriting_again_changes_nothing(content, overrides, dropped);
    }
}

// ---------------------------------------------------------------------------
// The connection token
// ---------------------------------------------------------------------------

/// A configuration with the line of a user name that carries a token is recognised.
proof fn lemma_token_line(config: Seq<char>, username: Seq<char>)
    requires
        text::lines_of(config).contains(profiles::username_line(username)),
        username.contains('|'),
    ensures
        settings::has_token_username(config),
{
    reveal_strlit("username:s:");
    let line = profiles::username_line(username);
    let lines = text::lines_of(config);
    let k = choose|k: int| 0 <= k < username.len() && username[k] == '|';
    assert(line[k + 11] == '|');
    assert(text::lowered(line).subrange(0, 11) =~= "username:s:"@);
    let i = choose|i: int| 0 <= i < lines.len() && lines[i] == line;
    assert(settings::is_token_username(lines[i]));
}

/// The configurations of the profiles carry the connection token in the user name, where the
/// account from which they were made does.
pub proof fn law_profiles_keep_token(content: Seq<char>)
    requires
        profiles::account_of(content, false) matches Some((_, username)) && username.contains('|'),
    ensures
        profiles::mac_config(content) matches Some(config) ==> settings::has_token_username(config),
        profiles::swift_config(content) matches Some(config) ==> settings::has_token_username(
            config,
        ),
        profiles::legacy_config(content) matches Some(config) ==> settings::has_token_username(
            config,
        ),
        profiles::gnome_config(content) matches Some(config) ==> settings::has_token_username(
            config,
        ),
{
    let (host, username) = profiles::account_of(content, false)->0;
    lemma_account(content, false);
    lemma_account(content, true);
    lemma_mac_settings_are_lines();
    lemma_swift_settings_are_lines();
    lemma_legacy_settings_are_lines();
    lemma_written_config_keeps_token(host, username, profiles::mac_settings());
    lemma_written_config_keeps_token(host, username, profiles::swift_settings());
    if let Some((address, _)) = profiles::account_of(content, true) {
        lemma_written_config_keeps_token(address, username, profiles::legacy_settings());
        law_gnome_config_keeps_account(content);
        lemma_gnome_applies_overrides(content, address, username);
        let overrides = profiles::gnome_overrides(address, username);
        assert(overrides[1] == ("username"@, profiles::username_line(username)));
        lemma_token_line(profiles::gnome_config(content)->0, username);
    }
}

/// A configuration that is written anew carries the connection token in its user name.
proof fn lemma_written_config_keeps_token(
    address: Seq<char>,
    username: Seq<char>,
    further: Seq<Seq<char>>,
)
    requires
        is_value(address),
        is_value(username),
        are_lines(further),
        username.contains('|'),
    ensures
        settings::has_token_username(profiles::config_of(address, username, further)),
{
    let config = profiles::config_of(address, username, further);
    law_written_config_reads_back(address, username, further);
    assert(text::lines_of(config)[1] == profiles::username_line(username));
    lemma_token_line(config, username);
}

} // verus!
