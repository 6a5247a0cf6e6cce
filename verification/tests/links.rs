use jms_rdp_launcher::error::LauncherError;
use jms_rdp_launcher::json::{JsonObject, JsonParser, JsonValue};
use jms_rdp_launcher::link::{
    decode_embedded_rdp_config, extract_rdp_launch, extract_token_secret, get_string,
    parse_jms_link, RdpLaunch,
};

const SYMBOLS: &[u8; 64] = b"ABCDEFGHIJKLMNOPQRSTUVWXYZabcdefghijklmnopqrstuvwxyz0123456789+/";

fn encoded(data: &[u8]) -> String {
    let mut out = String::new();
    for chunk in data.chunks(3) {
        let bits = (u32::from(chunk[0]) << 16)
            | (u32::from(*chunk.get(1).unwrap_or(&0)) << 8)
            | u32::from(*chunk.get(2).unwrap_or(&0));
        for i in 0..4 {
            if i <= chunk.len() {
                out.push(SYMBOLS[(bits >> (18 - 6 * i)) as usize & 63] as char);
            } else {
                out.push('=');
            }
        }
    }
    out
}

fn launched(input: &str) -> RdpLaunch {
    parse_jms_link(input, "mac", None).unwrap()
}

fn failure<T: std::fmt::Debug>(r: Result<T, LauncherError>) -> String {
    r.unwrap_err().message()
}

fn link_failure(input: &str) -> String {
    failure(parse_jms_link(input, "mac", None))
}

const PAYLOADS: [&str; 3] = [
    r#"{"name":"n","content":"full address:s:h"}"#,
    r#"{"name":"n1","content":"full address:s:h"}"#,
    r#"{"name":"n12","content":"full address:s:h"}"#,
];

#[test]
fn a_link_gives_back_its_document() {
    for payload in PAYLOADS {
        let p = encoded(payload.as_bytes());
        let expected = launched(&p);
        for input in [
            format!("jms://{p}"),
            format!("JMS://{p}"),
            format!("jms://{p}/"),
            format!(" \t\"jms://{p}\"\n"),
            format!("\"'jms://{p}'\""),
            format!("jms://{}", p.replace('=', "%3D")),
        ] {
            let launch = launched(&input);
            assert_eq!(launch.name, expected.name);
            assert_eq!(launch.content, "full address:s:h");
        }
    }
}

#[test]
fn spaces_in_a_link_are_plus_signs() {
    let payload = r#"{"name":"n>>>>","content":"x"}"#;
    let p = encoded(payload.as_bytes());
    assert!(p.contains('+') && !p.ends_with('+'));
    assert_eq!(launched(&format!("jms://{}", p.replace('+', " "))).name, "n>>>>");
    assert_eq!(launched(&format!("jms://{}", p.replace('+', "%20"))).name, "n>>>>");
}

#[test]
fn the_spelling_of_a_link_does_not_matter() {
    // Payloads with plus signs: that of a document, and some that are refused.
    let document = encoded("{\"name\":\"n~>>\u{fb}\u{efff}\",\"content\":\"full address:s:h\"}".as_bytes());
    assert!(document.contains('+'));
    for p in [document.as_str(), "+a+b+", "a%2B+b", "a+%zz", "%%+", "a+\u{e9}%C3%A9", "ab+c=+"] {
        let seen = |input: &str| format!("{:?}", parse_jms_link(input, "mac", None));
        let expected = seen(p);
        let spaced = match p.strip_suffix('+') {
            Some(head) => format!("{}+", head.replace('+', " ")),
            None => p.replace('+', " "),
        };
        for t in [p.to_string(), spaced, p.replace('+', "%2B"), p.replace('+', "%2b")] {
            let mut links = vec![format!("jms://{t}"), format!("JMS://{t}")];
            if !t.starts_with(' ') {
                links.push(t.clone());
            }
            for link in links {
                assert_eq!(seen(&link), expected);
                assert_eq!(seen(&format!(" {link}\n")), expected);
                assert_eq!(seen(&format!("\"{link}\"")), expected);
                assert_eq!(seen(&format!("\t'{link}' ")), expected);
                assert_eq!(seen(&format!("\"'{link}'\"")), expected);
            }
        }
    }
    for input in ["a+%FF", "jms://a %FF", "JMS://a%2B%FF"] {
        assert!(link_failure(input).starts_with("percent-decoded input is not UTF-8: "));
    }
    // Inside an escape the message names what stands there.
    assert_eq!(link_failure("%+zz"), "bad percent escape: +");
    assert_eq!(link_failure("% zz"), "bad percent escape:  ");
}

#[test]
fn unreadable_links_are_refused() {
    assert_eq!(link_failure("jms://%4"), "bad percent escape at end of input");
    assert_eq!(link_failure("jms://a!b"), "invalid base64 byte: !");
    assert_eq!(
        link_failure("jms:///w=="),
        format!(
            "decoded payload is not UTF-8: {}",
            String::from_utf8(vec![0xff]).unwrap_err()
        )
    );
    assert_eq!(link_failure("jms://"), "unexpected end of JSON at byte 0");
    assert_eq!(
        link_failure(&format!("jms://{}", encoded(b"[1]"))),
        "decoded payload is not a JSON object"
    );
    assert_eq!(
        link_failure(&format!("jms://{}", encoded(b"{\"content\":1}"))),
        "payload has no file.content/content/config RDP data"
    );
}

fn object(document: &str) -> JsonObject {
    match JsonParser::new(document).parse().unwrap() {
        JsonValue::Object(object) => object,
        _ => panic!("expected an object"),
    }
}

fn extracted(document: &str) -> RdpLaunch {
    extract_rdp_launch(&JsonValue::Object(object(document)), "mac", None).unwrap()
}

#[test]
fn members_are_found_by_their_order_of_preference() {
    let launch = extracted(
        r#"{"protocol":" RDP ","file":{"name":"a","content":"A"},"filename":"b","name":"c","content":"B","config":"C"}"#,
    );
    assert_eq!((launch.protocol.as_str(), launch.name.as_str()), ("rdp", "a"));
    assert_eq!(launch.content, "A");
    let launch = extracted(r#"{"file":{"name":1},"filename":"b","name":"c","content":"B","config":"C"}"#);
    assert_eq!((launch.name.as_str(), launch.content.as_str()), ("b", "B"));
    let launch = extracted(r#"{"file":"x","name":"c","config":"C"}"#);
    assert_eq!((launch.name.as_str(), launch.content.as_str()), ("c", "C"));
    let launch = extracted(r#"{"config":"C"}"#);
    assert_eq!((launch.protocol.as_str(), launch.name.as_str()), ("", "jumpserver-rdp"));
    assert_eq!(launch.config_strategy, "raw");
    assert_eq!(launch.password, None);
    assert_eq!(get_string(&object(r#"{"a":"b"}"#), "a"), Some("b"));
    assert_eq!(get_string(&object(r#"{"a":1}"#), "a"), None);
}

#[test]
fn the_id_of_a_token_is_never_its_secret() {
    for id in ["\"x\"", "null", "{}"] {
        let document = format!(r#"{{"token":{{"id":{id},"value":"s"}}}}"#);
        assert_eq!(extract_token_secret(&object(&document)).as_deref(), Some("s"));
    }
    assert_eq!(extract_token_secret(&object(r#"{"token":{"id":"x"}}"#)), None);
    assert_eq!(
        extract_token_secret(&object(r#"{"token":{"id":"x","value":""},"value":"v"}"#)).as_deref(),
        Some("v")
    );
    assert_eq!(extract_token_secret(&object(r#"{"value":""}"#)), None);
}

#[test]
fn the_secret_stays_out_of_the_configuration() {
    let config = r#""name":"n","config":"full address:s:h\nusername:s:u|id""#;
    let plain = extracted(&format!("{{{config}}}"));
    for secret in ["s1", "another"] {
        let launch = extracted(&format!(
            r#"{{"token":{{"id":"id","value":"{secret}"}},{config},"value":"{secret}"}}"#
        ));
        assert_eq!(launch.content, plain.content);
        assert_eq!(launch.name, plain.name);
        assert_eq!(launch.password.as_deref(), Some(secret));
    }
}

#[test]
fn an_embedded_configuration_is_decoded() {
    let config = "full address:s:h\\nusername:s:u";
    let decoded = ("full address:s:h\nusername:s:u".to_string(), true);
    let inner = encoded(config.as_bytes());
    assert_eq!(decode_embedded_rdp_config(&inner).unwrap(), decoded);
    assert_eq!(decode_embedded_rdp_config(&format!(" {inner}\n")).unwrap(), decoded);
    assert_eq!(
        decode_embedded_rdp_config("username:s:u\\r\\nx\\rfull address:s:h").unwrap(),
        ("username:s:u\nx\nfull address:s:h".to_string(), false)
    );
    assert_eq!(
        decode_embedded_rdp_config("not a\\nconfig").unwrap(),
        ("not a\\nconfig".to_string(), false)
    );
    let other = encoded(b"something else");
    assert_eq!(decode_embedded_rdp_config(&other).unwrap(), (other.clone(), false));
}

#[test]
fn an_unreadable_embedded_configuration_is_refused() {
    let bytes = vec![0xff; 12];
    assert_eq!(
        failure(decode_embedded_rdp_config(&encoded(&bytes))),
        format!(
            "embedded RDP config is not UTF-8: {}",
            String::from_utf8(bytes).unwrap_err()
        )
    );
}
