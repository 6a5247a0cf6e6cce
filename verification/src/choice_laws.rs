//! What becomes of a configuration for each profile.
use crate::credentials;
use crate::profile_laws;
use crate::profiles;
use crate::settings;
use crate::settings_laws;
use crate::template;
use crate::text;
use vstd::prelude::*;

verus! {

// ---------------------------------------------------------------------------
// Configurations that are left alone
// ---------------------------------------------------------------------------

/// A configuration in which no line holds a bar carries no connection token: it stays as it is,
/// whatever the profile, and no credentials are written for it.
pub proof fn law_configuration_without_bar_is_left_alone(
    content: Seq<char>,
    profile: Seq<char>,
    saved: Option<Seq<char>>,
    secret: Option<Seq<char>>,
)
    requires
        forall|i: int|
            0 <= i < text::lines_of(content).len() ==> !(#[trigger] text::lines_of(
                content,
            )[i]).contains('|'),
    ensures
        template::normalized(content, profile, saved).content == content,
        template::normalized(content, profile, saved).strategy == "raw"@,
        template::normalized(content, profile, saved).patches.len() == 0,
        credentials::planned_credentials(Some(content), secret) is Nothing,
        credentials::disabled_credentials(Some(content)) is Nothing,
{
    settings_laws::law_token_user_name(content);
}

/// A configuration in which no line starts with `username:s:`, in whatever case, is left alone
/// likewise, wherever else it holds a bar.
pub proof fn law_configuration_without_user_is_left_alone(
    content: Seq<char>,
    profile: Seq<char>,
    saved: Option<Seq<char>>,
    secret: Option<Seq<char>>,
)
    requires
        forall|i: int|
            0 <= i < text::lines_of(content).len() ==> !settings_laws::starts_like(
                #[trigger] text::lines_of(content)[i],
                "username:s:"@,
            ),
    ensures
        template::normalized(content, profile, saved).content == content,
        template::normalized(content, profile, saved).strategy == "raw"@,
        template::normalized(content, profile, saved).patches.len() == 0,
        credentials::planned_credentials(Some(content), secret) is Nothing,
        credentials::disabled_credentials(Some(content)) is Nothing,
{
    settings_laws::law_token_user_name(content);
}

/// Whether one of the lines of `content` starts with `username:s:`, in whatever case, and holds a
/// bar.
pub open spec fn carries_token(content: Seq<char>) -> bool {
    exists|i: int|
        0 <= i < text::lines_of(content).len() && settings_laws::starts_like(
            #[trigger] text::lines_of(content)[i],
            "username:s:"@,
        ) && text::lines_of(content)[i].contains('|')
}

/// The profile `raw` leaves a configuration with a connection token alone and says so; a profile
/// that is not known leaves it alone too.
pub proof fn law_raw_profile_changes_nothing(
    content: Seq<char>,
    profile: Seq<char>,
    saved: Option<Seq<char>>,
)
    requires
        carries_token(content),
    ensures
        template::normalized(content, "raw"@, saved).content == content,
        template::normalized(content, "raw"@, saved).strategy == "raw_jumpserver"@,
        template::normalized(content, "raw"@, saved).patches.len() == 0,
        profile != "raw"@ && profile != "mac"@ && profile != "gnome"@ && profile != "template"@
            && profile != "swift"@ && profile != "legacy"@ ==> template::normalized(
            content,
            profile,
            saved,
        ).content == content && template::normalized(content, profile, saved).strategy == "raw"@,
{
    settings_laws::law_token_user_name(content);
}

/// The names of the profiles differ.
pub(crate) proof fn lemma_profile_names()
    ensures
        "mac"@ != "raw"@ && "mac"@ != "template"@,
        "gnome"@ != "raw"@ && "gnome"@ != "template"@ && "gnome"@ != "mac"@,
        "swift"@ != "raw"@ && "swift"@ != "template"@ && "swift"@ != "mac"@ && "swift"@ != "gnome"@,
        "legacy"@ != "raw"@ && "legacy"@ != "template"@ && "legacy"@ != "mac"@ && "legacy"@
            != "gnome"@ && "legacy"@ != "swift"@,
        "template"@ != "raw"@,
{
    reveal_strlit("mac");
    reveal_strlit("raw");
    reveal_strlit("gnome");
    reveal_strlit("swift");
    reveal_strlit("legacy");
    reveal_strlit("template");
    assert("mac"@[0] == 'm' && "raw"@[0] == 'r' && "gnome"@[0] == 'g' && "swift"@[0] == 's');
    assert("mac"@.len() == 3 && "raw"@.len() == 3 && "gnome"@.len() == 5 && "swift"@.len() == 5);
    assert("legacy"@.len() == 6 && "template"@.len() == 8);
}

// ---------------------------------------------------------------------------
// The account
// ---------------------------------------------------------------------------

/// Whether the first settings `full address` and `username` of `content` are, white space around
/// them aside, `host` with `rest` behind it and `username`. The host ends at the first colon.
pub open spec fn has_account(
    content: Seq<char>,
    host: Seq<char>,
    rest: Seq<char>,
    username: Seq<char>,
) -> bool {
    &&& settings::setting_value(content, "full address"@) matches Some(a) && text::trimmed(a) == host
        + rest
    &&& settings::setting_value(content, "username"@) matches Some(u) && text::trimmed(u) == username
    &&& !host.contains(':')
    &&& rest.len() > 0 ==> rest[0] == ':'
}

/// The account that is read is the one that the configuration has.
pub(crate) proof fn lemma_account_read(
    content: Seq<char>,
    host: Seq<char>,
    rest: Seq<char>,
    username: Seq<char>,
)
    requires
        has_account(content, host, rest, username),
    ensures
        profiles::account_of(content, true) == (if (host + rest).len() > 0 && username.len() > 0 {
            Some((host + rest, username))
        } else {
            None
        }),
        profiles::account_of(content, false) == (if text::trimmed(host).len() > 0 && username.len()
            > 0 {
            Some((text::trimmed(host), username))
        } else {
            None
        }),
{
    let address = host + rest;
    if rest.len() > 0 {
        assert(address =~= host + seq![':'] + rest.skip(1));
        settings_laws::law_names_and_hosts(host, rest.skip(1));
    } else {
        assert(address =~= host);
        settings_laws::law_names_and_hosts(host, rest);
    }
}

/// A configuration without an address or without a user name stays as it is, whatever the profile.
pub proof fn law_incomplete_account_changes_nothing(
    content: Seq<char>,
    profile: Seq<char>,
    saved: Option<Seq<char>>,
)
    requires
        settings::setting_value(content, "full address"@) is None || settings::setting_value(
            content,
            "username"@,
        ) is None || (settings::setting_value(content, "full address"@) matches Some(a)
            && text::trimmed(a).len() == 0) || (settings::setting_value(content, "username"@) matches Some(
            u,
        ) && text::trimmed(u).len() == 0),
    ensures
        template::normalized(content, profile, saved).content == content,
        profile != "raw"@ ==> template::normalized(content, profile, saved).strategy == "raw"@,
{
    if let Some(a) = settings::setting_value(content, "full address"@) {
        if text::trimmed(a).len() == 0 {
            let t = text::trimmed(a);
            assert(!t.contains(':'));
            settings_laws::law_names_and_hosts(t, t);
            text::lemma_trimmed_keeps(t, |c: char| text::is_white_space(c));
        }
    }
}

/// The profiles that leave the port out change nothing where the address has no host.
pub proof fn law_missing_host_changes_nothing(
    content: Seq<char>,
    saved: Option<Seq<char>>,
    host: Seq<char>,
    rest: Seq<char>,
    username: Seq<char>,
)
    requires
        has_account(content, host, rest, username),
        text::trimmed(host).len() == 0,
    ensures
        template::normalized(content, "mac"@, saved).content == content,
        template::normalized(content, "mac"@, saved).strategy == "raw"@,
        template::normalized(content, "swift"@, saved).content == content,
        template::normalized(content, "swift"@, saved).strategy == "raw"@,
{
    lemma_profile_names();
    lemma_account_read(content, host, rest, username);
}

// ---------------------------------------------------------------------------
// Configurations that are written anew
// ---------------------------------------------------------------------------

/// The profile `mac` writes the account, without the port, and these settings, and nothing else.
pub proof fn law_mac_profile_writes_these_lines(
    content: Seq<char>,
    saved: Option<Seq<char>>,
    host: Seq<char>,
    rest: Seq<char>,
    username: Seq<char>,
)
    requires
        carries_token(content),
        has_account(content, host, rest, username),
        text::trimmed(host).len() > 0 && username.len() > 0,
    ensures
        text::lines_of(template::normalized(content, "mac"@, saved).content) == seq![
            "full address:s:"@ + text::trimmed(host),
            "username:s:"@ + username,
            "desktopwidth:i:2880"@,
            "desktopheight:i:1620"@,
            "session bpp:i:32"@,
            "forcehidpioptimizations:i:1"@,
            "desktopscalefactor:i:150"@,
            "hidef color depth:i:32"@,
            "compression:i:1"@,
            "font smoothing:i:1"@,
            "disable wallpaper:i:0"@,
            "disable menu anims:i:1"@,
            "disable themes:i:0"@,
            "audiomode:i:0"@,
            "smart sizing:i:1"@,
            "screen mode id:i:2"@,
        ],
        template::normalized(content, "mac"@, saved).strategy == "mac_microsoft_remote_desktop_compatible"@,
        template::normalized(content, "mac"@, saved).patches.len() == 0,
{
    settings_laws::law_token_user_name(content);
    lemma_profile_names();
    lemma_account_read(content, host, rest, username);
    profile_laws::lemma_account(content, false);
    profile_laws::lemma_mac_settings_are_lines();
    let address = profiles::account_of(content, false)->Some_0.0;
    profile_laws::law_written_config_reads_back(address, username, profiles::mac_settings());
    assert(seq![profiles::address_line(address), profiles::username_line(username)]
        + profiles::mac_settings() =~= seq![
        "full address:s:"@ + address,
        "username:s:"@ + username,
        "desktopwidth:i:2880"@,
        "desktopheight:i:1620"@,
        "session bpp:i:32"@,
        "forcehidpioptimizations:i:1"@,
        "desktopscalefactor:i:150"@,
        "hidef color depth:i:32"@,
        "compression:i:1"@,
        "font smoothing:i:1"@,
        "disable wallpaper:i:0"@,
        "disable menu anims:i:1"@,
        "disable themes:i:0"@,
        "audiomode:i:0"@,
        "smart sizing:i:1"@,
        "screen mode id:i:2"@,
    ]);
}

/// The profile `swift` writes the account, without the port, and these settings, and nothing else.
pub proof fn law_swift_profile_writes_these_lines(
    content: Seq<char>,
    saved: Option<Seq<char>>,
    host: Seq<char>,
    rest: Seq<char>,
    username: Seq<char>,
)
    requires
        carries_token(content),
        has_account(content, host, rest, username),
        text::trimmed(host).len() > 0 && username.len() > 0,
    ensures
        text::lines_of(template::normalized(content, "swift"@, saved).content) == seq![
            "full address:s:"@ + text::trimmed(host),
            "username:s:"@ + username,
            "desktopwidth:i:2880"@,
            "desktopheight:i:1620"@,
            "session bpp:i:24"@,
            "forcehidpioptimizations:i:1"@,
            "desktopscalefactor:i:150"@,
            "hidef color depth:i:24"@,
            "compression:i:1"@,
            "font smoothing:i:1"@,
            "disable wallpaper:i:0"@,
            "disable menu anims:i:1"@,
            "disable themes:i:0"@,
            "audiomode:i:0"@,
            "smart sizing:i:1"@,
            "screen mode id:i:2"@,
        ],
        template::normalized(content, "swift"@, saved).strategy == "swift_compatible_mstsc"@,
        template::normalized(content, "swift"@, saved).patches.len() == 0,
{
    settings_laws::law_token_user_name(content);
    lemma_profile_names();
    lemma_account_read(content, host, rest, username);
    profile_laws::lemma_account(content, false);
    profile_laws::lemma_swift_settings_are_lines();
    let address = profiles::account_of(content, false)->Some_0.0;
    profile_laws::law_written_config_reads_back(address, username, profiles::swift_settings());
    assert(seq![profiles::address_line(address), profiles::username_line(username)]
        + profiles::swift_settings() =~= seq![
        "full address:s:"@ + address,
        "username:s:"@ + username,
        "desktopwidth:i:2880"@,
        "desktopheight:i:1620"@,
        "session bpp:i:24"@,
        "forcehidpioptimizations:i:1"@,
        "desktopscalefactor:i:150"@,
        "hidef color depth:i:24"@,
        "compression:i:1"@,
        "font smoothing:i:1"@,
        "disable wallpaper:i:0"@,
        "disable menu anims:i:1"@,
        "disable themes:i:0"@,
        "audiomode:i:0"@,
        "smart sizing:i:1"@,
        "screen mode id:i:2"@,
    ]);
}

/// The profile `legacy` writes the account and these settings, and nothing else.
pub proof fn law_legacy_profile_writes_these_lines(
    content: Seq<char>,
    saved: Option<Seq<char>>,
    host: Seq<char>,
    rest: Seq<char>,
    username: Seq<char>,
)
    requires
        carries_token(content),
        has_account(content, host, rest, username),
        (host + rest).len() > 0 && username.len() > 0,
    ensures
        text::lines_of(template::normalized(content, "legacy"@, saved).content) == seq![
            "full address:s:"@ + (host + rest),
            "username:s:"@ + username,
            "desktopwidth:i:1280"@,
            "desktopheight:i:720"@,
            "screen mode id:i:1"@,
            "session bpp:i:16"@,
            "compression:i:1"@,
            "connection type:i:1"@,
            "networkautodetect:i:0"@,
            "bandwidthautodetect:i:0"@,
            "smart sizing:i:1"@,
            "dynamic resolution:i:0"@,
            "use multimon:i:0"@,
            "use multitransport:i:0"@,
            "bitmapcachepersistenable:i:0"@,
            "font smoothing:i:0"@,
            "disable wallpaper:i:1"@,
            "disable full window drag:i:1"@,
            "disable menu anims:i:1"@,
            "disable themes:i:1"@,
            "audiomode:i:2"@,
            "audiocapturemode:i:0"@,
            "videoplaybackmode:i:0"@,
            "redirectclipboard:i:0"@,
            "redirectprinters:i:0"@,
            "redirectcomports:i:0"@,
            "redirectsmartcards:i:0"@,
            "redirectdrives:i:0"@,
            "devicestoredirect:s:"@,
            "drivestoredirect:s:"@,
            "camerastoredirect:s:"@,
            "usbdevicestoredirect:s:"@,
            "authentication level:i:2"@,
            "enablecredsspsupport:i:1"@,
            "negotiate security layer:i:1"@,
            "prompt for credentials on client:i:0"@,
            "disableconnectionsharing:i:1"@,
            "autoreconnection enabled:i:0"@,
        ],
        template::normalized(content, "legacy"@, saved).strategy == "mstsc_legacy_graphics"@,
        template::normalized(content, "legacy"@, saved).patches.len() == 0,
{
    settings_laws::law_token_user_name(content);
    lemma_profile_names();
    lemma_account_read(content, host, rest, username);
    profile_laws::lemma_account(content, true);
    profile_laws::lemma_legacy_settings_are_lines();
    let address = profiles::account_of(content, true)->Some_0.0;
    profile_laws::law_written_config_reads_back(address, username, profiles::legacy_settings());
    assert(seq![profiles::address_line(address), profiles::username_line(username)]
        + profiles::legacy_settings() =~= seq![
        "full address:s:"@ + address,
        "username:s:"@ + username,
        "desktopwidth:i:1280"@,
        "desktopheight:i:720"@,
        "screen mode id:i:1"@,
        "session bpp:i:16"@,
        "compression:i:1"@,
        "connection type:i:1"@,
        "networkautodetect:i:0"@,
        "bandwidthautodetect:i:0"@,
        "smart sizing:i:1"@,
        "dynamic resolution:i:0"@,
        "use multimon:i:0"@,
        "use multitransport:i:0"@,
        "bitmapcachepersistenable:i:0"@,
        "font smoothing:i:0"@,
        "disable wallpaper:i:1"@,
        "disable full window drag:i:1"@,
        "disable menu anims:i:1"@,
        "disable themes:i:1"@,
        "audiomode:i:2"@,
        "audiocapturemode:i:0"@,
        "videoplaybackmode:i:0"@,
        "redirectclipboard:i:0"@,
        "redirectprinters:i:0"@,
        "redirectcomports:i:0"@,
        "redirectsmartcards:i:0"@,
        "redirectdrives:i:0"@,
        "devicestoredirect:s:"@,
        "drivestoredirect:s:"@,
        "camerastoredirect:s:"@,
        "usbdevicestoredirect:s:"@,
        "authentication level:i:2"@,
        "enablecredsspsupport:i:1"@,
        "negotiate security layer:i:1"@,
        "prompt for credentials on client:i:0"@,
        "disableconnectionsharing:i:1"@,
        "autoreconnection enabled:i:0"@,
    ]);
}

/// The profile `template` without a saved template writes what the profile `mac` writes, and remarks
/// that there is none.
pub proof fn law_missing_template_is_remarked(content: Seq<char>)
    requires
        carries_token(content),
    ensures
        template::normalized(content, "template"@, None).content == template::normalized(
            content,
            "mac"@,
            None,
        ).content,
        template::normalized(content, "template"@, None).strategy == template::normalized(
            content,
            "mac"@,
            None,
        ).strategy,
        template::normalized(content, "template"@, None).strategy != "raw"@ ==> template::normalized(
            content,
            "template"@,
            None,
        ).patches == seq!["template_not_installed"@],
{
    settings_laws::law_token_user_name(content);
    lemma_profile_names();
}

/// The profile `template` fills the saved template with the account, the port included.
pub proof fn law_saved_template_is_used(
    content: Seq<char>,
    saved: Seq<char>,
    host: Seq<char>,
    rest: Seq<char>,
    username: Seq<char>,
)
    requires
        carries_token(content),
        has_account(content, host, rest, username),
        (host + rest).len() > 0 && username.len() > 0,
    ensures
        template::normalized(content, "template"@, Some(saved)).content == template::from_template(
            saved,
            host + rest,
            username,
        ),
        template::normalized(content, "template"@, Some(saved)).strategy
            == "mstsc_saved_template"@,
        template::normalized(content, "template"@, Some(saved)).patches.len() == 0,
{
    settings_laws::law_token_user_name(content);
    lemma_profile_names();
    lemma_account_read(content, host, rest, username);
}

} // verus!
