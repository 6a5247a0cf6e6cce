use jms_rdp_launcher::files::{
    install_template_rdp, is_rdp_extension, normalize_rdp_newlines, rdp_file, sanitize_file_stem,
};
use jms_rdp_launcher::redact::{
    rdp_preview, redact_event_log, redact_long, redact_pipe_token_segment, redact_rdp_content,
    redact_rdp_line, redact_username_line,
};

#[test]
fn file_names_are_valid() {
    for (name, stem) in [
        ("plain", "plain"),
        ("", "jumpserver-rdp"),
        (" . . ", "jumpserver-rdp"),
        ("...", "jumpserver-rdp"),
        ("a\u{0}b\u{7f}c\u{9f}d\u{a0}", "a_b_c_d"),
        ("name. .", "name"),
        (".hidden", ".hidden"),
        ("ß\u{3000}.", "ß\u{3000}"),
    ] {
        assert_eq!(sanitize_file_stem(name), stem);
    }
}

#[test]
fn file_names_are_cut_off() {
    assert_eq!(sanitize_file_stem(&"a".repeat(100)), "a".repeat(80));
    assert_eq!(sanitize_file_stem(&"a".repeat(79)), "a".repeat(79));
    let long = format!("{}\u{1f600}b", "a".repeat(79));
    assert_eq!(sanitize_file_stem(&long), format!("{}\u{1f600}", "a".repeat(79)));
    assert_eq!(sanitize_file_stem(&"€".repeat(40)), "€".repeat(27));
}

#[test]
fn ascii_file_names_are_stable() {
    let long = "x".repeat(80);
    for name in ["a:b.", " . ", "", "a\tb \t", &"y.".repeat(60), &long, &format!("{long}z"), ". a"] {
        let stem = sanitize_file_stem(name);
        assert!(stem.is_ascii() && stem.len() <= 80);
        assert_eq!(sanitize_file_stem(&stem), stem);
    }
    assert_eq!(sanitize_file_stem(&format!("{long}z")), long);
    // White space outside ASCII may come to stand at the end.
    assert_eq!(sanitize_file_stem("a\u{2003}."), "a\u{2003}");
    assert_eq!(sanitize_file_stem("a\u{2003}"), "a");
}

#[test]
fn text_between_line_breaks_is_kept() {
    assert_eq!(normalize_rdp_newlines("\r\ra\n\rb\r\n\n c"), "\r\n\r\na\r\n\r\nb\r\n\r\n c");
}

#[test]
fn line_breaks_become_pairs() {
    for (content, expected) in [
        ("", ""),
        ("a", "a"),
        ("a\nb", "a\r\nb"),
        ("a\rb", "a\r\nb"),
        ("a\r\nb", "a\r\nb"),
        ("\r\r\n\n", "\r\n\r\n\r\n"),
        ("\n\r", "\r\n\r\n"),
    ] {
        let normalized = normalize_rdp_newlines(content);
        assert_eq!(normalized, expected);
        assert_eq!(normalize_rdp_newlines(&normalized), normalized);
    }
    let content = "a\nb\r\n\nc";
    assert!(normalize_rdp_newlines(content).lines().eq(content.lines()));
}

#[test]
fn a_configuration_is_written_to_its_file() {
    assert_eq!(
        rdp_file("a:b", "x\ny"),
        ("a_b.rdp".to_string(), "x\r\ny".to_string())
    );
    assert!(is_rdp_extension(Some("RDP")));
    assert!(!is_rdp_extension(Some("rdpx")));
    assert!(!is_rdp_extension(None));
}

#[test]
fn a_template_needs_an_address() {
    assert_eq!(
        install_template_rdp("x:i:1\nfull address:s:h", "s.rdp").unwrap(),
        "x:i:1\r\nfull address:s:h"
    );
    assert_eq!(
        install_template_rdp("x:i:1", "s.rdp").unwrap_err().message(),
        "template is not an RDP file with full address: s.rdp"
    );
}

#[test]
fn secrets_are_kept_out_of_lines() {
    for (line, expected) in [
        ("username:s:u|t|v", "username:s:u|<redacted>"),
        ("UserName:s:u|t", "UserName:s:u|<redacted>"),
        ("username:s:u", "username:s:u"),
        ("Password 51:b:01", "Password 51:b:<redacted>"),
        ("x token y", "<redacted>"),
        ("gatewaycredentialssource:i:4", "gatewaycredentialssource:i:<redacted>"),
        ("gatewayaccesstoken:s:a:b", "gatewayaccesstoken:s:a:<redacted>"),
        ("loadbalanceinfo:s:x", "loadbalanceinfo:s:<redacted>"),
        ("full address:s:h:1", "full address:s:h:1"),
    ] {
        assert_eq!(redact_rdp_line(line), expected);
    }
    assert_eq!(redact_username_line("a|b"), "a|<redacted>");
}

#[test]
fn a_preview_shows_eight_lines() {
    let content = "l\n".repeat(10);
    assert_eq!(rdp_preview(&content), ["l"; 8].join(" | "));
    assert_eq!(redact_rdp_content("a\npassword:s:x\n"), "a\npassword:s:<redacted>");
    assert_eq!(redact_rdp_content(""), "");
}

#[test]
fn tokens_are_kept_out_of_event_logs() {
    for (line, expected) in [
        ("none", "none"),
        ("u|t", "u|<redacted>"),
        ("u|t x|y", "u|<redacted> x|y"),
        ("<a user=\"u|t\"/>", "<a user=\"u|<redacted>\"/>"),
        ("(u|t)", "(u|<redacted>)"),
        ("[u|t],", "[u|<redacted>],"),
        ("'u|t';", "'u|<redacted>';"),
        ("u|", "u|<redacted>"),
        ("u|€\u{a0}t\tz", "u|<redacted>\tz"),
    ] {
        assert_eq!(redact_pipe_token_segment(line), expected);
    }
    assert_eq!(redact_event_log("u|t\r\nv|w z\n"), "u|<redacted>\nv|<redacted> z");
}

#[test]
fn long_texts_are_shortened() {
    assert_eq!(redact_long("abc", 3), "abc");
    assert_eq!(redact_long("abcd", 3), "abc...<4 chars total>");
    assert_eq!(redact_long("ß€x", 5), "ß€...<6 chars total>");
    assert_eq!(redact_long("", 0), "");
}

#[test]
fn hiding_secrets_again_changes_nothing() {
    for line in [
        "username:s:u|t|v",
        "UserName:s:|",
        "password 51:b:00",
        "a:token",
        "my token",
        "username:x:password:1",
        "full address:s:h",
        "",
    ] {
        let once = redact_rdp_line(line);
        assert_eq!(redact_rdp_line(&once), once);
    }
    for line in ["u|t; v|w", "|", "a b", "x|\"y\"|z"] {
        let once = redact_pipe_token_segment(line);
        assert_eq!(redact_pipe_token_segment(&once), once);
    }
}
