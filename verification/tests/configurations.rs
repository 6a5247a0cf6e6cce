use jms_rdp_launcher::profiles::{
    build_gnome_mstsc_rdp_config, build_mac_microsoft_remote_desktop_rdp_config,
    build_mstsc_legacy_graphics_rdp_config, build_swift_compatible_mstsc_rdp_config,
};
use jms_rdp_launcher::rewriting::rewrite_rdp_config;
use jms_rdp_launcher::settings::{
    has_jumpserver_token_username, looks_like_base64, looks_like_rdp, rdp_line_key,
    rdp_setting_value, swift_server_address, unescape_rdp_line_breaks,
};
use jms_rdp_launcher::template::{
    apply_rdp_template, build_template_based_mstsc_rdp_config, needs_template,
    normalize_jumpserver_rdp_config, should_drop_template_rdp_line,
};

const CONTENT: &str = "full address:s: host.example:3390 \nusername:s: u|t \naudiomode:i:0";

#[test]
fn settings_are_read() {
    let content = "\n  Full Address:s:h:1 \nempty:s:\nplain:x\nno setting\nlate:s:v";
    assert_eq!(rdp_setting_value(content, "full address"), Some("h:1"));
    assert_eq!(rdp_setting_value(content, "EMPTY"), Some(""));
    assert_eq!(rdp_setting_value(content, "plain"), Some("x"));
    assert_eq!(rdp_setting_value(content, "late"), None);
    assert_eq!(rdp_setting_value(content, "absent"), None);
    assert_eq!(rdp_line_key(" name :s:v"), "name");
    assert_eq!(swift_server_address("host:3389"), "host");
    assert_eq!(swift_server_address(" host "), "host");
}

#[test]
fn configurations_are_recognised() {
    assert!(has_jumpserver_token_username("x\nUserName:S:u|t"));
    assert!(!has_jumpserver_token_username("username:s:u\nx|y"));
    assert!(!has_jumpserver_token_username(" username:s:u|t"));
    assert!(looks_like_rdp("x\nfull address:s:h"));
    assert!(!looks_like_rdp("Full address:s:h"));
    assert!(looks_like_rdp(&format!("{}username:s:u", "x\n".repeat(11))));
    assert!(!looks_like_rdp(&format!("{}username:s:u", "x\n".repeat(12))));
    assert!(looks_like_base64(" AAAA+/-_ ==\r\n\tAAAAA "));
    assert!(!looks_like_base64("AAAAAAAAAAAAAAA"));
    assert!(looks_like_base64("AAAAAAAAAAAAAAAA"));
    assert!(!looks_like_base64("AAAAAAAAAAAAAAAA:"));
    assert_eq!(unescape_rdp_line_breaks("a\\r\\nb\\nc\\rd\\e"), "a\nb\nc\nd\\e");
}

#[test]
fn every_profile_keeps_the_host_and_the_user() {
    for profile in ["mac", "gnome", "swift", "legacy", "template", "raw", "other"] {
        let (config, _, _) = normalize_jumpserver_rdp_config(CONTENT.to_string(), profile, None);
        let address = rdp_setting_value(&config, "full address").unwrap();
        let user = rdp_setting_value(&config, "username").unwrap();
        assert_eq!(swift_server_address(address), "host.example", "{profile}");
        assert_eq!(user.trim(), "u|t", "{profile}");
    }
}

#[test]
fn new_configurations_are_written_line_by_line() {
    let mac = build_mac_microsoft_remote_desktop_rdp_config(CONTENT).unwrap();
    let lines: Vec<&str> = mac.lines().collect();
    assert_eq!(lines.len(), 16);
    assert_eq!(lines[0], "full address:s:host.example");
    assert_eq!(lines[1], "username:s:u|t");
    assert_eq!(lines[15], "screen mode id:i:2");
    let swift = build_swift_compatible_mstsc_rdp_config(CONTENT).unwrap();
    assert_eq!(
        swift,
        mac.replace("session bpp:i:32", "session bpp:i:24")
            .replace("hidef color depth:i:32", "hidef color depth:i:24")
    );
    let legacy = build_mstsc_legacy_graphics_rdp_config(CONTENT).unwrap();
    let lines: Vec<&str> = legacy.lines().collect();
    assert_eq!(lines.len(), 38);
    assert_eq!(lines[0], "full address:s:host.example:3390");
    assert_eq!(lines[37], "autoreconnection enabled:i:0");
}

#[test]
fn an_incomplete_account_is_not_used() {
    for content in [
        "username:s:u|t",
        "full address:s:h",
        "full address:s: \nusername:s:u|t",
        "full address:s:h\nusername:s:",
    ] {
        assert_eq!(build_mac_microsoft_remote_desktop_rdp_config(content), None);
        assert_eq!(build_swift_compatible_mstsc_rdp_config(content), None);
        assert_eq!(build_mstsc_legacy_graphics_rdp_config(content), None);
        assert_eq!(build_gnome_mstsc_rdp_config(content), None);
        assert_eq!(build_template_based_mstsc_rdp_config(content, Some("x:i:1")), None);
        let (config, strategy, patches) =
            normalize_jumpserver_rdp_config(content.to_string(), "mac", None);
        assert_eq!((config.as_str(), strategy, patches.len()), (content, "raw", 0));
    }
    assert_eq!(
        build_mac_microsoft_remote_desktop_rdp_config("full address:s::1\nusername:s:u"),
        None
    );
    assert!(build_mstsc_legacy_graphics_rdp_config("full address:s::1\nusername:s:u").is_some());
}

#[test]
fn settings_are_rewritten_once() {
    let overrides = [("a", "a:i:1".to_string()), ("b", "b:i:2".to_string())];
    assert_eq!(
        rewrite_rdp_config(" c:i:9 \n\nA :i:7\nx:i:3\na:i:8\nno setting", &overrides, &["X"]),
        "c:i:9\na:i:1\nno setting\nb:i:2"
    );
    assert_eq!(rewrite_rdp_config("", &overrides, &[]), "a:i:1\nb:i:2");
}

#[test]
fn the_gnome_profile_rewrites_the_configuration() {
    let content = "bookmarktype:i:3\nUSERNAME:s:u|t\nfull address:s:h:1\nkeep:s:me\nFull Address :s:x";
    let config = build_gnome_mstsc_rdp_config(content).unwrap();
    let lines: Vec<&str> = config.lines().collect();
    assert_eq!(&lines[..3], ["username:s:u|t", "full address:s:h:1", "keep:s:me"]);
    assert_eq!(lines.len(), 32);
    assert_eq!(lines[3], "desktopwidth:i:1920");
    assert_eq!(lines[31], "autoreconnection enabled:i:0");
    let mut names: Vec<&str> = lines.iter().map(|l| rdp_line_key(l)).collect();
    names.sort();
    names.dedup();
    assert_eq!(names.len(), 32);
}

#[test]
fn the_gnome_profile_is_stable() {
    for content in [
        "full address:s:h:3389\nusername:s:u|t",
        " USERNAME:s: u|t \r\nspan monitors:i:1\n\nsession bpp:i:8\nother:s:x\nFull Address:s:h\nSession BPP:i:16\nx",
    ] {
        let config = build_gnome_mstsc_rdp_config(content).unwrap();
        assert_eq!(build_gnome_mstsc_rdp_config(&config).as_deref(), Some(config.as_str()));
        for key in ["full address", "username"] {
            assert_eq!(
                rdp_setting_value(&config, key),
                rdp_setting_value(content, key).map(|value| value.trim())
            );
        }
    }
}

#[test]
fn other_lines_stay_in_their_order() {
    let overrides = [("b", "b:i:2".to_string()), ("d", "d:s:".to_string())];
    let content = " z:s:1 \n\nB:i:1\nx\na:i:1\n b:i:3\r\nDROP:i:1\ny:s:\n";
    let once = rewrite_rdp_config(content, &overrides, &["drop"]);
    assert_eq!(once, "z:s:1\nb:i:2\nx\na:i:1\ny:s:\nd:s:");
    assert_eq!(rewrite_rdp_config(&once, &overrides, &["drop"]), once);
    assert_eq!(rewrite_rdp_config("", &[], &[]), "");
}

#[test]
fn no_escaped_line_break_is_left() {
    for (content, expected) in [
        (r"a\r\nb\nc\rd", "a\nb\nc\nd"),
        (r"\\n\r\r\n\", "\\\n\n\n\\"),
        (r"\x\\", r"\x\\"),
    ] {
        assert_eq!(unescape_rdp_line_breaks(content), expected);
        assert_eq!(unescape_rdp_line_breaks(expected), expected);
    }
}

#[test]
fn a_template_is_filled() {
    assert_eq!(
        apply_rdp_template("a:i:1\n\nPassword 51:b:x\n b:i:2 ", "h", "u"),
        "full address:s:h\nusername:s:u\na:i:1\nb:i:2"
    );
    assert_eq!(
        apply_rdp_template("a:i:1\nFULL ADDRESS:s:x", "h", "u"),
        "a:i:1\nusername:s:u\nfull address:s:h"
    );
    assert_eq!(
        apply_rdp_template("username:s:x\na:i:1", "h", "u"),
        "full address:s:h\nusername:s:u\na:i:1"
    );
    assert_eq!(apply_rdp_template("", "h", "u"), "full address:s:h\nusername:s:u");
    for line in [
        "password 51:b:1", "GatewayAccessToken:s:x", "gatewaycredentialssource:i:0",
        "gatewayusername:s:x",
    ] {
        assert!(should_drop_template_rdp_line(line));
        assert_eq!(
            apply_rdp_template(line, "h", "u"),
            "full address:s:h\nusername:s:u"
        );
    }
    assert!(!should_drop_template_rdp_line("prompt for password:i:1"));
}

#[test]
fn a_saved_template_is_used() {
    let (config, strategy, patches) =
        normalize_jumpserver_rdp_config(CONTENT.to_string(), "template", Some("x:i:1"));
    assert_eq!(config, "full address:s:host.example:3390\nusername:s:u|t\nx:i:1");
    assert_eq!(strategy, "mstsc_saved_template");
    assert!(patches.is_empty());
}

#[test]
fn the_template_matters_for_its_profile_alone() {
    for profile in ["mac", "gnome", "swift", "legacy", "template", "raw", "other"] {
        let with = normalize_jumpserver_rdp_config(CONTENT.to_string(), profile, Some("x:i:1"));
        let without = normalize_jumpserver_rdp_config(CONTENT.to_string(), profile, None);
        assert_eq!(with != without, needs_template(profile), "{profile}");
    }
}

#[test]
fn configurations_without_a_token_are_kept() {
    let content = "full address:s:h\nusername:s:u";
    for profile in ["mac", "gnome", "swift", "legacy", "template", "raw"] {
        let (config, strategy, patches) =
            normalize_jumpserver_rdp_config(content.to_string(), profile, Some("x:i:1"));
        assert_eq!((config.as_str(), strategy), (content, "raw"));
        assert!(patches.is_empty());
    }
}

#[test]
fn choosing_again_changes_nothing() {
    let content = "j:s:unk\nfull address:s: h:3389 \nusername:s:u|t\nPassword 51:b:00\nx:i:1";
    let template = "a:i:1\n full address:s:old\n\ngatewayusername:s:g\nUSERNAME:s:old\nfull address:s:older\nz:s:";
    for profile in ["mac", "swift", "legacy", "gnome", "raw", "template", "unknown"] {
        for saved in [None, Some(template)] {
            let once = normalize_jumpserver_rdp_config(content.to_string(), profile, saved).0;
            let twice = normalize_jumpserver_rdp_config(once.clone(), profile, saved).0;
            assert_eq!(once, twice);
        }
    }
    for build in [
        build_mac_microsoft_remote_desktop_rdp_config,
        build_swift_compatible_mstsc_rdp_config,
        build_mstsc_legacy_graphics_rdp_config,
    ] {
        let once = build(content).unwrap();
        assert_eq!(build(&once).unwrap(), once);
    }
    let filled = apply_rdp_template(template, "h:3389", "u|t");
    assert_eq!(
        filled,
        "a:i:1\nfull address:s:h:3389\nusername:s:u|t\nfull address:s:h:3389\nz:s:"
    );
    assert_eq!(apply_rdp_template(&filled, "h:3389", "u|t"), filled);
}
