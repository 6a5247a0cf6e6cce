use jms_rdp_launcher::base64::base64_decode;
use jms_rdp_launcher::cli::parse_cli;
use jms_rdp_launcher::credentials::rdp_credential_targets;
use jms_rdp_launcher::files::sanitize_file_stem;
use jms_rdp_launcher::json::{JsonParser, JsonValue};
use jms_rdp_launcher::link::{extract_rdp_launch, extract_token_secret, parse_jms_link};
use jms_rdp_launcher::percent::percent_decode;
use jms_rdp_launcher::profiles::DEFAULT_RDP_PROFILE;
use jms_rdp_launcher::redact::{rdp_preview, redact_event_log, redact_username_value};
use jms_rdp_launcher::template::{apply_rdp_template, normalize_jumpserver_rdp_config};

#[test]
fn decodes_base64() {
    assert_eq!(base64_decode("aGVsbG8=").unwrap(), b"hello");
}

#[test]
fn decodes_percent_encoded_padding() {
    assert_eq!(percent_decode("aGVsbG8%3D").unwrap(), "aGVsbG8=");
}

#[test]
fn parses_json_with_nested_file_content() {
    let json = r#"{
            "protocol": "rdp",
            "name": "ignored",
            "file": {
                "name": "win server",
                "content": "full address:s:127.0.0.1:3389\nusername:s:JMS-abc"
            }
        }"#;
    let parsed = JsonParser::new(json).parse().unwrap();
    let launch = extract_rdp_launch(&parsed, DEFAULT_RDP_PROFILE, None).unwrap();
    assert_eq!(launch.protocol, "rdp");
    assert_eq!(launch.name, "win server");
    assert!(launch.content.contains("full address:s:127.0.0.1:3389"));
    assert!(launch.content.contains('\n'));
}

#[test]
fn sanitizes_windows_file_names() {
    assert_eq!(
        sanitize_file_stem(r#"a:b<c>d/e\ f|g?h*."#),
        "a_b_c_d_e_ f_g_h_"
    );
}

#[test]
fn parses_jms_link() {
    let payload = r#"{"protocol":"rdp","file":{"name":"vm win","content":"full address:s:10.0.0.1:3389\n"}}"#;
    let encoded = "eyJwcm90b2NvbCI6InJkcCIsImZpbGUiOnsibmFtZSI6InZtIHdpbiIsImNvbnRlbnQiOiJmdWxsIGFkZHJlc3M6czoxMC4wLjAuMTozMzg5XG4ifX0=";
    assert_eq!(base64_decode(encoded).unwrap(), payload.as_bytes());
    let launch = parse_jms_link(&format!("jms://{encoded}"), DEFAULT_RDP_PROFILE, None).unwrap();
    assert_eq!(launch.protocol, "rdp");
    assert_eq!(launch.name, "vm win");
}

#[test]
fn parse_cli_uses_cmdkey_by_default() {
    let cli = parse_cli(vec!["jms://payload".to_string()]).unwrap();

    assert!(cli.use_cmdkey);
    assert_eq!(cli.monitor_seconds, 30);
}

#[test]
fn parse_cli_no_cmdkey_disables_credentials() {
    let cli = parse_cli(vec![
        "--no-cmdkey".to_string(),
        "jms://payload".to_string(),
    ])
    .unwrap();

    assert!(!cli.use_cmdkey);
}

#[test]
fn parse_cli_accepts_explicit_use_cmdkey() {
    let cli = parse_cli(vec![
        "--use-cmdkey".to_string(),
        "jms://payload".to_string(),
    ])
    .unwrap();

    assert!(cli.use_cmdkey);
}

fn token_secret_of(json_text: &str) -> Option<String> {
    match JsonParser::new(json_text).parse().unwrap() {
        JsonValue::Object(object) => extract_token_secret(&object),
        _ => panic!("expected object"),
    }
}

#[test]
fn extracts_token_secret_from_token_object() {
    let secret = token_secret_of(
        r#"{"token":{"id":"a2b904ac","value":"s3cr3t-value"},"protocol":"rdp"}"#,
    );
    assert_eq!(secret.as_deref(), Some("s3cr3t-value"));
}

#[test]
fn extracts_token_secret_from_top_level_value() {
    let secret = token_secret_of(r#"{"value":"top-secret","protocol":"rdp"}"#);
    assert_eq!(secret.as_deref(), Some("top-secret"));
}

#[test]
fn extracts_token_secret_from_token_string() {
    let secret = token_secret_of(r#"{"token":"plain-secret","protocol":"rdp"}"#);
    assert_eq!(secret.as_deref(), Some("plain-secret"));
}

#[test]
fn empty_token_string_yields_no_secret() {
    // The token is present but empty.
    let secret = token_secret_of(r#"{"token":"","protocol":"rdp","username":"testuser"}"#);
    assert_eq!(secret, None);
}

#[test]
fn parses_jumpserver_filename_config_payload() {
    let encoded = "eyJmaWxlbmFtZSI6Indpbi10ZXN0IiwicHJvdG9jb2wiOiJyZHAiLCJjb25maWciOiJmdWxsIGFkZHJlc3M6czoxMjcuMC4wLjE6MzM4OVxudXNlcm5hbWU6czp0ZXN0dXNlciJ9/";
    let launch = parse_jms_link(&format!("jms://{encoded}"), DEFAULT_RDP_PROFILE, None).unwrap();
    assert_eq!(launch.protocol, "rdp");
    assert_eq!(launch.name, "win-test");
    assert!(!launch.inner_config_base64);
    assert!(launch.content.contains("full address:s:127.0.0.1:3389"));
    assert!(launch.content.contains("username:s:testuser"));
}

#[test]
fn decodes_base64_embedded_rdp_config() {
    let encoded = "eyJmaWxlbmFtZSI6Indpbi10ZXN0IiwicHJvdG9jb2wiOiJyZHAiLCJjb25maWciOiJablZzYkNCaFpHUnlaWE56T25NNk1USXlMakF1TUM0eE9qTXpPRGxjYm5WelpYSnVZVzFsT25NNmVXMXBibWNnIn0=/";
    let launch = parse_jms_link(&format!("jms://{encoded}"), DEFAULT_RDP_PROFILE, None).unwrap();
    assert_eq!(launch.protocol, "rdp");
    assert_eq!(launch.name, "win-test");
    assert!(launch.inner_config_base64);
    assert_eq!(
        launch.content,
        "full address:s:122.0.0.1:3389\nusername:s:yming "
    );
}

#[test]
fn regenerates_swift_compatible_mstsc_config_for_token_username() {
    let content = "\
full address:s:jumpserver.example.com:3389
username:s:testuser|token
use multimon:i:0
session bpp:i:32
authentication level:i:2
prompt for credentials on client:i:0
disableconnectionsharing:i:1";

    let (regenerated, strategy, patches) =
        normalize_jumpserver_rdp_config(content.to_string(), "swift", None);

    assert_eq!(strategy, "swift_compatible_mstsc");
    assert!(patches.is_empty());
    assert!(regenerated.contains("full address:s:jumpserver.example.com"));
    assert!(!regenerated.contains("full address:s:jumpserver.example.com:3389"));
    assert!(regenerated.contains("username:s:testuser|token"));
    assert!(regenerated.contains("desktopwidth:i:2880"));
    assert!(regenerated.contains("desktopheight:i:1620"));
    assert!(regenerated.contains("session bpp:i:24"));
    assert!(regenerated.contains("forcehidpioptimizations:i:1"));
    assert!(regenerated.contains("desktopscalefactor:i:150"));
    assert!(regenerated.contains("hidef color depth:i:24"));
    assert!(regenerated.contains("compression:i:1"));
    assert!(regenerated.contains("font smoothing:i:1"));
    assert!(!regenerated.contains("authentication level"));
    assert!(!regenerated.contains("prompt for credentials on client"));
    assert!(!regenerated.contains("disableconnectionsharing"));
    assert!(!regenerated.contains("enablecredsspsupport"));
    assert!(!regenerated.contains("use multitransport"));
    assert!(!regenerated.contains("redirectclipboard"));
}

#[test]
fn regenerates_mac_compatible_config_by_default_for_token_username() {
    let content = "\
full address:s:jumpserver.example.com:3389
username:s:testuser|token
use multimon:i:0
session bpp:i:32
audiomode:i:0
forcehidpioptimizations:i:1
desktopscalefactor:i:150
hidef color depth:i:24";

    let (regenerated, strategy, patches) =
        normalize_jumpserver_rdp_config(content.to_string(), DEFAULT_RDP_PROFILE, None);

    assert_eq!(strategy, "mac_microsoft_remote_desktop_compatible");
    assert!(patches.is_empty());
    assert!(regenerated.contains("full address:s:jumpserver.example.com"));
    assert!(!regenerated.contains("full address:s:jumpserver.example.com:3389"));
    assert!(regenerated.contains("username:s:testuser|token"));
    assert!(regenerated.contains("desktopwidth:i:2880"));
    assert!(regenerated.contains("desktopheight:i:1620"));
    assert!(regenerated.contains("screen mode id:i:2"));
    assert!(regenerated.contains("session bpp:i:32"));
    assert!(regenerated.contains("forcehidpioptimizations:i:1"));
    assert!(regenerated.contains("desktopscalefactor:i:150"));
    assert!(regenerated.contains("hidef color depth:i:32"));
    assert!(regenerated.contains("audiomode:i:0"));
    assert!(!regenerated.contains("authentication level"));
    assert!(!regenerated.contains("prompt for credentials on client"));
    assert!(!regenerated.contains("disableconnectionsharing"));
    assert!(!regenerated.contains("enablecredsspsupport"));
    assert!(!regenerated.contains("use multitransport"));
    assert!(!regenerated.contains("redirectclipboard"));
}

#[test]
fn regenerates_gnome_compatible_config_for_gnome_profile() {
    let content = "\
full address:s:jumpserver.example.com:3389
username:s:testuser|token
use multimon:i:0
session bpp:i:32
audiomode:i:0
forcehidpioptimizations:i:1
desktopscalefactor:i:150
hidef color depth:i:24";

    let (regenerated, strategy, patches) =
        normalize_jumpserver_rdp_config(content.to_string(), "gnome", None);

    assert_eq!(strategy, "mstsc_gnome_compatible");
    assert!(patches.is_empty());
    assert!(regenerated.contains("full address:s:jumpserver.example.com:3389"));
    assert!(regenerated.contains("username:s:testuser|token"));
    assert!(regenerated.contains("desktopwidth:i:1920"));
    assert!(regenerated.contains("desktopheight:i:1080"));
    assert!(regenerated.contains("screen mode id:i:1"));
    assert!(regenerated.contains("session bpp:i:32"));
    assert!(regenerated.contains("dynamic resolution:i:1"));
    assert!(regenerated.contains("use multitransport:i:0"));
    assert!(regenerated.contains("enablecredsspsupport:i:1"));
    assert!(regenerated.contains("authentication level:i:2"));
    assert!(regenerated.contains("negotiate security layer:i:1"));
    assert!(regenerated.contains("redirectdrives:i:0"));
    assert!(regenerated.contains("redirectwebauthn:i:0"));
    assert!(regenerated.contains("audiomode:i:2"));
    assert!(!regenerated.contains("forcehidpioptimizations"));
    assert!(!regenerated.contains("desktopscalefactor"));
    assert!(!regenerated.contains("hidef color depth"));
}

#[test]
fn template_profile_falls_back_to_mac_config_without_template() {
    let content = "\
full address:s:jumpserver.example.com:3389
username:s:testuser|token
use multimon:i:0
session bpp:i:32
audiomode:i:0";

    let (regenerated, strategy, patches) =
        normalize_jumpserver_rdp_config(content.to_string(), "template", None);

    if strategy == "mstsc_saved_template" {
        return;
    }

    assert_eq!(strategy, "mac_microsoft_remote_desktop_compatible");
    assert_eq!(patches, vec!["template_not_installed".to_string()]);
    assert!(regenerated.contains("full address:s:jumpserver.example.com"));
    assert!(!regenerated.contains("full address:s:jumpserver.example.com:3389"));
    assert!(regenerated.contains("session bpp:i:32"));
    assert!(regenerated.contains("hidef color depth:i:32"));
    assert!(!regenerated.contains("authentication level"));
}

#[test]
fn applies_saved_mstsc_template_without_credentials() {
    let template = "\
full address:s:ubuntu.local
username:s:ubuntu
session bpp:i:32
use multitransport:i:0
password 51:b:010203
gatewayaccesstoken:s:secret";

    let generated = apply_rdp_template(template, "jumpserver.example.com:3389", "testuser|token");

    assert!(generated.contains("full address:s:jumpserver.example.com:3389"));
    assert!(generated.contains("username:s:testuser|token"));
    assert!(generated.contains("session bpp:i:32"));
    assert!(generated.contains("use multitransport:i:0"));
    assert!(!generated.contains("ubuntu.local"));
    assert!(!generated.contains("password 51:b"));
    assert!(!generated.contains("gatewayaccesstoken"));
}

#[test]
fn regenerates_legacy_graphics_config_for_legacy_profile() {
    let content = "\
full address:s:jumpserver.example.com:3389
username:s:testuser|token
use multimon:i:0
session bpp:i:32
audiomode:i:0";

    let (regenerated, strategy, patches) =
        normalize_jumpserver_rdp_config(content.to_string(), "legacy", None);

    assert_eq!(strategy, "mstsc_legacy_graphics");
    assert!(patches.is_empty());
    assert!(regenerated.contains("full address:s:jumpserver.example.com:3389"));
    assert!(regenerated.contains("username:s:testuser|token"));
    assert!(regenerated.contains("desktopwidth:i:1280"));
    assert!(regenerated.contains("desktopheight:i:720"));
    assert!(regenerated.contains("screen mode id:i:1"));
    assert!(regenerated.contains("session bpp:i:16"));
    assert!(regenerated.contains("audiomode:i:2"));
    assert!(regenerated.contains("redirectclipboard:i:0"));
    assert!(regenerated.contains("redirectdrives:i:0"));
    assert!(regenerated.contains("use multitransport:i:0"));
    assert!(regenerated.contains("dynamic resolution:i:0"));
    assert!(regenerated.contains("enablecredsspsupport:i:1"));
    assert!(regenerated.contains("negotiate security layer:i:1"));
    assert!(!regenerated.contains("forcehidpioptimizations"));
    assert!(!regenerated.contains("desktopscalefactor"));
}

#[test]
fn raw_profile_keeps_jumpserver_config_unchanged_for_token_username() {
    let content =
        "full address:s:jumpserver.example.com:3389\nusername:s:testuser|token\naudiomode:i:0";

    let (regenerated, strategy, patches) =
        normalize_jumpserver_rdp_config(content.to_string(), "raw", None);

    assert_eq!(strategy, "raw_jumpserver");
    assert!(patches.is_empty());
    assert_eq!(regenerated, content);
}

#[test]
fn builds_rdp_credential_targets_with_and_without_port() {
    assert_eq!(
        rdp_credential_targets("jumpserver.example.com:3389"),
        vec![
            "TERMSRV/jumpserver.example.com".to_string(),
            "TERMSRV/jumpserver.example.com:3389".to_string()
        ]
    );
    assert_eq!(
        rdp_credential_targets("jumpserver.example.com"),
        vec!["TERMSRV/jumpserver.example.com".to_string()]
    );
}

#[test]
fn redacts_standalone_pipe_username_value() {
    assert_eq!(
        redact_username_value("testuser|e2ab7862-846f-4e96-bfd9-7b0526f28cb1"),
        "testuser|<redacted>"
    );
}

#[test]
fn strips_rdp_port_like_swift_connection_info() {
    let content = "full address:s:jumpserver.example.com:3390\nusername:s:testuser|token";
    let (regenerated, strategy, patches) =
        normalize_jumpserver_rdp_config(content.to_string(), "swift", None);

    assert_eq!(strategy, "swift_compatible_mstsc");
    assert!(patches.is_empty());
    assert!(regenerated.contains("full address:s:jumpserver.example.com"));
    assert!(!regenerated.contains("full address:s:jumpserver.example.com:3390"));
}

#[test]
fn redacts_sensitive_rdp_preview_lines() {
    let preview = rdp_preview(
        "full address:s:127.0.0.1:3389\nusername:s:testuser|e2ab7862-846f-4e96-bfd9-7b0526f28cb1\npassword 51:b:abc123\ngatewayaccesstoken:s:secret",
    );
    assert!(preview.contains("full address:s:127.0.0.1:3389"));
    assert!(preview.contains("username:s:testuser|<redacted>"));
    assert!(preview.contains("password 51:b:<redacted>"));
    assert!(preview.contains("gatewayaccesstoken:s:<redacted>"));
    assert!(!preview.contains("e2ab7862"));
    assert!(!preview.contains("abc123"));
    assert!(!preview.contains("secret"));
}

#[test]
fn redacts_pipe_token_in_event_log_text() {
    let text = r#"User: testuser|e2ab7862-846f-4e96-bfd9-7b0526f28cb1 disconnected"#;
    let redacted = redact_event_log(text);
    assert_eq!(redacted, "User: testuser|<redacted> disconnected");
}
