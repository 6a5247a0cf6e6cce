//! The connection profiles: which configuration is handed to the remote desktop client.
use crate::rewriting;
use crate::settings;
use crate::text;
use vstd::prelude::*;

verus! {

/// The profile that is used where none is asked for.
pub const DEFAULT_RDP_PROFILE: &'static str = "mac";

// ---------------------------------------------------------------------------
// Configurations that are written anew
// ---------------------------------------------------------------------------

/// The line that sets the address.
pub open spec fn address_line(address: Seq<char>) -> Seq<char> {
    "full address:s:"@ + address
}

/// The line that sets the user name.
pub open spec fn username_line(username: Seq<char>) -> Seq<char> {
    "username:s:"@ + username
}

/// The configuration with the given address, user name and further settings.
pub open spec fn config_of(
    address: Seq<char>,
    username: Seq<char>,
    further: Seq<Seq<char>>,
) -> Seq<char> {
    text::joined(seq![address_line(address), username_line(username)] + further, "\n"@)
}

/// The address and the user name that `content` sets, without white space around them. There is
/// none where one of them is missing or empty; the address may lose its port first.
pub open spec fn account_of(content: Seq<char>, with_port: bool) -> Option<(Seq<char>, Seq<char>)> {
    match (
        settings::setting_value(content, "full address"@),
        settings::setting_value(content, "username"@),
    ) {
        (Some(a), Some(u)) => {
            let address = if with_port {
                text::trimmed(a)
            } else {
                settings::host_of(text::trimmed(a))
            };
            let username = text::trimmed(u);
            if address.len() == 0 || username.len() == 0 {
                None
            } else {
                Some((address, username))
            }
        },
        _ => None,
    }
}

/// The model of an optional owned text.
pub open spec fn string_view(s: Option<String>) -> Option<Seq<char>> {
    match s {
        Some(t) => Some(t@),
        None => None,
    }
}

/// The further settings of the profile `legacy`.
pub open spec fn legacy_settings() -> Seq<Seq<char>> {
    seq![
        "desktopwidth:i:1280"@,
        "desktopheight:i:720"@,
        "screen mode id:i:1"@,
        "session bpp:i:16"@,
        "compression:i:1"@,
        "connection type:i:1"@,
        "networkautodetect:i:0"@,
        "bandwidthautodetect:i:0"@,
        "smart sizing:i:1"@,
        "dynamic resolution:i:0"@,
        "use multimon:i:0"@,
        "use multitransport:i:0"@,
        "bitmapcachepersistenable:i:0"@,
        "font smoothing:i:0"@,
        "disable wallpaper:i:1"@,
        "disable full window drag:i:1"@,
        "disable menu anims:i:1"@,
        "disable themes:i:1"@,
        "audiomode:i:2"@,
        "audiocapturemode:i:0"@,
        "videoplaybackmode:i:0"@,
        "redirectclipboard:i:0"@,
        "redirectprinters:i:0"@,
        "redirectcomports:i:0"@,
        "redirectsmartcards:i:0"@,
        "redirectdrives:i:0"@,
        "devicestoredirect:s:"@,
        "drivestoredirect:s:"@,
        "camerastoredirect:s:"@,
        "usbdevicestoredirect:s:"@,
        "authentication level:i:2"@,
        "enablecredsspsupport:i:1"@,
        "negotiate security layer:i:1"@,
        "prompt for credentials on client:i:0"@,
        "disableconnectionsharing:i:1"@,
        "autoreconnection enabled:i:0"@,
    ]
}

/// The further settings of the profile `mac`.
pub open spec fn mac_settings() -> Seq<Seq<char>> {
    seq![
        "desktopwidth:i:2880"@,
        "desktopheight:i:1620"@,
        "session bpp:i:32"@,
        "forcehidpioptimizations:i:1"@,
        "desktopscalefactor:i:150"@,
        "hidef color depth:i:32"@,
        "compression:i:1"@,
        "font smoothing:i:1"@,
        "disable wallpaper:i:0"@,
        "disable menu anims:i:1"@,
        "disable themes:i:0"@,
        "audiomode:i:0"@,
        "smart sizing:i:1"@,
        "screen mode id:i:2"@,
    ]
}

/// The further settings of the profile `swift`.
pub open spec fn swift_settings() -> Seq<Seq<char>> {
    seq![
        "desktopwidth:i:2880"@,
        "desktopheight:i:1620"@,
        "session bpp:i:24"@,
        "forcehidpioptimizations:i:1"@,
        "desktopscalefactor:i:150"@,
        "hidef color depth:i:24"@,
        "compression:i:1"@,
        "font smoothing:i:1"@,
        "disable wallpaper:i:0"@,
        "disable menu anims:i:1"@,
        "disable themes:i:0"@,
        "audiomode:i:0"@,
        "smart sizing:i:1"@,
        "screen mode id:i:2"@,
    ]
}

/// The configuration of the profile `legacy`.
pub open spec fn legacy_config(content: Seq<char>) -> Option<Seq<char>> {
    match account_of(content, true) {
        Some((address, username)) => Some(config_of(address, username, legacy_settings())),
        None => None,
    }
}

/// The configuration of the profile `mac`.
pub open spec fn mac_config(content: Seq<char>) -> Option<Seq<char>> {
    match account_of(content, false) {
        Some((address, username)) => Some(config_of(address, username, mac_settings())),
        None => None,
    }
}

/// The configuration of the profile `swift`.
pub open spec fn swift_config(content: Seq<char>) -> Option<Seq<char>> {
    match account_of(content, false) {
        Some((address, username)) => Some(config_of(address, username, swift_settings())),
        None => None,
    }
}

/// The address and the user name that `content` sets, without white space around them.
pub(crate) fn account<'a>(content: &'a str, with_port: bool) -> (r: Option<(&'a str, &'a str)>)
    ensures
        text::pair_view(r) == account_of(content@, with_port),
{
    let full_address = match settings::rdp_setting_value(content, "full address") {
        Some(value) => value,
        None => {
            return None;
        },
    };
    let username = match settings::rdp_setting_value(content, "username") {
        Some(value) => value,
        None => {
            return None;
        },
    };
    let full_address = text::trim(full_address);
    let address = if with_port {
        full_address
    } else {
        settings::swift_server_address(full_address)
    };
    let username = text::trim(username);
    if address.is_empty() || username.is_empty() {
        None
    } else {
        Some((address, username))
    }
}

/// The configuration with the given address, user name and further settings.
fn config_text(address: &str, username: &str, further: &Vec<&'static str>) -> (r: String)
    ensures
        r@ == config_of(address@, username@, text::views(further@)),
{
    let ghost all = seq![address_line(address@), username_line(username@)] + text::views(further@);
    let mut lines: Vec<String> = Vec::new();
    lines.push(text::concat("full address:s:", address));
    lines.push(text::concat("username:s:", username));
    for i in 0..further.len()
        invariant
            all == seq![address_line(address@), username_line(username@)] + text::views(further@),
            text::string_views(lines@) == all.take(i + 2),
    {
        let ghost before = text::string_views(lines@);
        lines.push(further[i].to_string());
        assert(text::string_views(lines@) =~= before.push(further@[i as int]@));
        assert(all.take(i + 3) =~= all.take(i + 2).push(further@[i as int]@));
    }
    assert(all.take(all.len() as int) == all);
    text::join(&lines, "\n")
}

/// The further settings of the profile `legacy`.
fn legacy_lines() -> (r: Vec<&'static str>)
    ensures
        text::views(r@) == legacy_settings(),
{
    let r: Vec<&'static str> = vec![
        "desktopwidth:i:1280",
        "desktopheight:i:720",
        "screen mode id:i:1",
        "session bpp:i:16",
        "compression:i:1",
        "connection type:i:1",
        "networkautodetect:i:0",
        "bandwidthautodetect:i:0",
        "smart sizing:i:1",
        "dynamic resolution:i:0",
        "use multimon:i:0",
        "use multitransport:i:0",
        "bitmapcachepersistenable:i:0",
        "font smoothing:i:0",
        "disable wallpaper:i:1",
        "disable full window drag:i:1",
        "disable menu anims:i:1",
        "disable themes:i:1",
        "audiomode:i:2",
        "audiocapturemode:i:0",
        "videoplaybackmode:i:0",
        "redirectclipboard:i:0",
        "redirectprinters:i:0",
        "redirectcomports:i:0",
        "redirectsmartcards:i:0",
        "redirectdrives:i:0",
        "devicestoredirect:s:",
        "drivestoredirect:s:",
        "camerastoredirect:s:",
        "usbdevicestoredirect:s:",
        "authentication level:i:2",
        "enablecredsspsupport:i:1",
        "negotiate security layer:i:1",
        "prompt for credentials on client:i:0",
        "disableconnectionsharing:i:1",
        "autoreconnection enabled:i:0",
    ];
    assert(text::views(r@) =~= legacy_settings());
    r
}

/// The further settings of the profile `mac`.
fn mac_lines() -> (r: Vec<&'static str>)
    ensures
        text::views(r@) == mac_settings(),
{
    let r: Vec<&'static str> = vec![
        "desktopwidth:i:2880",
        "desktopheight:i:1620",
        "session bpp:i:32",
        "forcehidpioptimizations:i:1",
        "desktopscalefactor:i:150",
        "hidef color depth:i:32",
        "compression:i:1",
        "font smoothing:i:1",
        "disable wallpaper:i:0",
        "disable menu anims:i:1",
        "disable themes:i:0",
        "audiomode:i:0",
        "smart sizing:i:1",
        "screen mode id:i:2",
    ];
    assert(text::views(r@) =~= mac_settings());
    r
}

/// The further settings of the profile `swift`.
fn swift_lines() -> (r: Vec<&'static str>)
    ensures
        text::views(r@) == swift_settings(),
{
    let r: Vec<&'static str> = vec![
        "desktopwidth:i:2880",
        "desktopheight:i:1620",
        "session bpp:i:24",
        "forcehidpioptimizations:i:1",
        "desktopscalefactor:i:150",
        "hidef color depth:i:24",
        "compression:i:1",
        "font smoothing:i:1",
        "disable wallpaper:i:0",
        "disable menu anims:i:1",
        "disable themes:i:0",
        "audiomode:i:0",
        "smart sizing:i:1",
        "screen mode id:i:2",
    ];
    assert(text::views(r@) =~= swift_settings());
    r
}

/// The configuration of the profile `legacy`.
pub fn build_mstsc_legacy_graphics_rdp_config(content: &str) -> (r: Option<String>)
    ensures
        string_view(r) == legacy_config(content@),
{
    match account(content, true) {
        Some((address, username)) => Some(config_text(address, username, &legacy_lines())),
        None => None,
    }
}

/// The configuration of the profile `mac`.
pub fn build_mac_microsoft_remote_desktop_rdp_config(content: &str) -> (r: Option<String>)
    ensures
        string_view(r) == mac_config(content@),
{
    match account(content, false) {
        Some((address, username)) => Some(config_text(address, username, &mac_lines())),
        None => None,
    }
}

/// The configuration of the profile `swift`.
pub fn build_swift_compatible_mstsc_rdp_config(content: &str) -> (r: Option<String>)
    ensures
        string_view(r) == swift_config(content@),
{
    match account(content, false) {
        Some((address, username)) => Some(config_text(address, username, &swift_lines())),
        None => None,
    }
}

// ---------------------------------------------------------------------------
// The configuration that is rewritten line by line
// ---------------------------------------------------------------------------

/// The overrides of the profile `gnome` beside the address and the user name.
pub open spec fn gnome_settings() -> Seq<(Seq<char>, Seq<char>)> {
    seq![
        ("desktopwidth"@, "desktopwidth:i:1920"@),
        ("desktopheight"@, "desktopheight:i:1080"@),
        ("screen mode id"@, "screen mode id:i:1"@),
        ("session bpp"@, "session bpp:i:32"@),
        ("compression"@, "compression:i:1"@),
        ("networkautodetect"@, "networkautodetect:i:1"@),
        ("bandwidthautodetect"@, "bandwidthautodetect:i:1"@),
        ("smart sizing"@, "smart sizing:i:1"@),
        ("dynamic resolution"@, "dynamic resolution:i:1"@),
        ("use multimon"@, "use multimon:i:0"@),
        ("use multitransport"@, "use multitransport:i:0"@),
        ("audiomode"@, "audiomode:i:2"@),
        ("audiocapturemode"@, "audiocapturemode:i:0"@),
        ("redirectclipboard"@, "redirectclipboard:i:0"@),
        ("redirectprinters"@, "redirectprinters:i:0"@),
        ("redirectcomports"@, "redirectcomports:i:0"@),
        ("redirectsmartcards"@, "redirectsmartcards:i:0"@),
        ("redirectdrives"@, "redirectdrives:i:0"@),
        ("redirectwebauthn"@, "redirectwebauthn:i:0"@),
        ("devicestoredirect"@, "devicestoredirect:s:"@),
        ("drivestoredirect"@, "drivestoredirect:s:"@),
        ("camerastoredirect"@, "camerastoredirect:s:"@),
        ("usbdevicestoredirect"@, "usbdevicestoredirect:s:"@),
        ("authentication level"@, "authentication level:i:2"@),
        ("enablecredsspsupport"@, "enablecredsspsupport:i:1"@),
        ("negotiate security layer"@, "negotiate security layer:i:1"@),
        ("prompt for credentials on client"@, "prompt for credentials on client:i:0"@),
        ("disableconnectionsharing"@, "disableconnectionsharing:i:1"@),
        ("autoreconnection enabled"@, "autoreconnection enabled:i:0"@),
    ]
}

/// The overrides of the profile `gnome`.
pub open spec fn gnome_overrides(
    address: Seq<char>,
    username: Seq<char>,
) -> Seq<(Seq<char>, Seq<char>)> {
    seq![
        ("full address"@, address_line(address)),
        ("username"@, username_line(username)),
    ] + gnome_settings()
}

/// The settings that the profile `gnome` leaves out.
pub open spec fn gnome_dropped() -> Seq<Seq<char>> {
    seq![
        "alternate shell"@,
        "shell working directory"@,
        "connect to console"@,
        "bookmarktype"@,
        "use redirection server name"@,
        "forcehidpioptimizations"@,
        "desktopscalefactor"@,
        "devicescalefactor"@,
        "hidef color depth"@,
        "selectedmonitors"@,
        "span monitors"@,
    ]
}

/// The configuration of the profile `gnome`: that of `content`, with overrides.
pub open spec fn gnome_config(content: Seq<char>) -> Option<Seq<char>> {
    match account_of(content, true) {
        Some((address, username)) => Some(
            rewriting::rewritten_text(content, gnome_overrides(address, username), gnome_dropped()),
        ),
        None => None,
    }
}

/// The overrides of the profile `gnome` beside the address and the user name.
fn gnome_lines() -> (r: Vec<(&'static str, &'static str)>)
    ensures
        r@.map_values(|o: (&str, &str)| (o.0@, o.1@)) == gnome_settings(),
{
    let r: Vec<(&'static str, &'static str)> = vec![
        ("desktopwidth", "desktopwidth:i:1920"),
        ("desktopheight", "desktopheight:i:1080"),
        ("screen mode id", "screen mode id:i:1"),
        ("session bpp", "session bpp:i:32"),
        ("compression", "compression:i:1"),
        ("networkautodetect", "networkautodetect:i:1"),
        ("bandwidthautodetect", "bandwidthautodetect:i:1"),
        ("smart sizing", "smart sizing:i:1"),
        ("dynamic resolution", "dynamic resolution:i:1"),
        ("use multimon", "use multimon:i:0"),
        ("use multitransport", "use multitransport:i:0"),
        ("audiomode", "audiomode:i:2"),
        ("audiocapturemode", "audiocapturemode:i:0"),
        ("redirectclipboard", "redirectclipboard:i:0"),
        ("redirectprinters", "redirectprinters:i:0"),
        ("redirectcomports", "redirectcomports:i:0"),
        ("redirectsmartcards", "redirectsmartcards:i:0"),
        ("redirectdrives", "redirectdrives:i:0"),
        ("redirectwebauthn", "redirectwebauthn:i:0"),
        ("devicestoredirect", "devicestoredirect:s:"),
        ("drivestoredirect", "drivestoredirect:s:"),
        ("camerastoredirect", "camerastoredirect:s:"),
        ("usbdevicestoredirect", "usbdevicestoredirect:s:"),
        ("authentication level", "authentication level:i:2"),
        ("enablecredsspsupport", "enablecredsspsupport:i:1"),
        ("negotiate security layer", "negotiate security layer:i:1"),
        ("prompt for credentials on client", "prompt for credentials on client:i:0"),
        ("disableconnectionsharing", "disableconnectionsharing:i:1"),
        ("autoreconnection enabled", "autoreconnection enabled:i:0"),
    ];
    assert(r@.map_values(|o: (&str, &str)| (o.0@, o.1@)) =~= gnome_settings());
    r
}

/// The configuration of the profile `gnome`.
pub fn build_gnome_mstsc_rdp_config(content: &str) -> (r: Option<String>)
    ensures
        string_view(r) == gnome_config(content@),
{
    let (address, username) = match account(content, true) {
        Some(pair) => pair,
        None => {
            return None;
        },
    };
    let ghost all = gnome_overrides(address@, username@);
    let mut overrides: Vec<(&str, String)> = Vec::new();
    overrides.push(("full address", text::concat("full address:s:", address)));
    overrides.push(("username", text::concat("username:s:", username)));
    let fixed = gnome_lines();
    assert(rewriting::override_views(overrides@) =~= all.take(2));
    for i in 0..fixed.len()
        invariant
            fixed@.map_values(|o: (&str, &str)| (o.0@, o.1@)) == gnome_settings(),
            all == gnome_overrides(address@, username@),
            rewriting::override_views(overrides@) == all.take(i + 2),
    {
        let ghost done = rewriting::override_views(overrides@);
        let pair = fixed[i];
        overrides.push((pair.0, pair.1.to_string()));
        proof {
            assert(gnome_settings()[i as int] == (pair.0@, pair.1@));
            assert(rewriting::override_views(overrides@) =~= done.push((pair.0@, pair.1@)));
            assert(all.take(i + 3) =~= all.take(i + 2).push((pair.0@, pair.1@)));
        }
    }
    assert(all.len() == fixed@.len() + 2);
    assert(all.take(all.len() as int) == all);
    let drop_keys: Vec<&'static str> = vec![
        "alternate shell",
        "shell working directory",
        "connect to console",
        "bookmarktype",
        "use redirection server name",
        "forcehidpioptimizations",
        "desktopscalefactor",
        "devicescalefactor",
        "hidef color depth",
        "selectedmonitors",
        "span monitors",
    ];
    assert(text::views(drop_keys@) =~= gnome_dropped());
    Some(rewriting::rewrite_rdp_config(content, &overrides, &drop_keys))
}

} // verus!
