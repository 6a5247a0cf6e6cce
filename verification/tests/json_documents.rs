use jms_rdp_launcher::json::{JsonObject, JsonParser, JsonValue};

fn parsed(document: &str) -> JsonValue {
    JsonParser::new(document).parse().unwrap()
}

fn failure(document: &str) -> String {
    JsonParser::new(document).parse().unwrap_err().message()
}

fn text_of(document: &str) -> String {
    match parsed(document) {
        JsonValue::String(s) => s,
        _ => panic!("expected a string"),
    }
}

#[test]
fn values_of_each_kind_are_read() {
    assert_eq!(parsed("null"), JsonValue::Null);
    assert_eq!(parsed(" true "), JsonValue::Bool(true));
    assert_eq!(parsed("\t\r\nfalse"), JsonValue::Bool(false));
    assert_eq!(parsed("\"a\""), JsonValue::String("a".to_string()));
    assert_eq!(
        parsed("[1, [], {}]"),
        JsonValue::Array(vec![
            JsonValue::Number("1".to_string()),
            JsonValue::Array(Vec::new()),
            JsonValue::Object(JsonObject::new()),
        ])
    );
}

#[test]
fn numbers_are_kept_as_written() {
    for n in ["0", "-12", "3.25", "1e9", "-2.5E-3", "007", "1.", "-", "5e+"] {
        assert_eq!(parsed(n), JsonValue::Number(n.to_string()));
    }
}

#[test]
fn the_last_of_equal_names_counts() {
    let object = match parsed(r#"{"b": 1, "a": 2, "b": 3}"#) {
        JsonValue::Object(object) => object,
        _ => panic!("expected an object"),
    };
    assert_eq!(object.get("a"), Some(&JsonValue::Number("2".to_string())));
    assert_eq!(object.get("b"), Some(&JsonValue::Number("3".to_string())));
    assert_eq!(object.get("c"), None);
    assert_eq!(
        JsonValue::Object(object),
        parsed(r#"{"a":2,"b":3}"#)
    );
}

#[test]
fn members_are_inserted_and_replaced() {
    let object = JsonObject::new()
        .insert("z".to_string(), JsonValue::Null)
        .insert("ä".to_string(), JsonValue::Bool(true))
        .insert("".to_string(), JsonValue::Bool(false))
        .insert("z".to_string(), JsonValue::Bool(true));
    assert_eq!(object.get("z"), Some(&JsonValue::Bool(true)));
    assert_eq!(object.get("ä"), Some(&JsonValue::Bool(true)));
    assert_eq!(object.get(""), Some(&JsonValue::Bool(false)));
    assert_eq!(object.get("a"), None);
}

#[test]
fn escapes_are_read() {
    assert_eq!(
        text_of(r#""\"\\\/\b\f\n\r\t\u0041\u20ac""#),
        "\"\\/\u{8}\u{c}\n\r\tA€"
    );
    assert_eq!(text_of(r#""\ud83d\ude00""#), "\u{1f600}");
    assert_eq!(text_of("\"ß€\u{1f600}\u{7f}\""), "ß€\u{1f600}\u{7f}");
}

#[test]
fn half_surrogates_are_replaced() {
    assert_eq!(text_of(r#""\ud83d""#), "\u{fffd}");
    assert_eq!(text_of(r#""\ud83dx""#), "\u{fffd}x");
    assert_eq!(text_of(r#""\ud83d\n""#), "\u{fffd}\n");
    assert_eq!(text_of(r#""\ud83d\u0041""#), "\u{fffd}A");
}

#[test]
fn faults_are_reported_with_their_place() {
    assert_eq!(failure(""), "unexpected end of JSON at byte 0");
    assert_eq!(failure("  "), "unexpected end of JSON at byte 2");
    assert_eq!(failure("?"), "unexpected JSON value at byte 0");
    assert_eq!(failure("nul"), "invalid JSON literal at byte 0");
    assert_eq!(failure("[tru]"), "invalid JSON literal at byte 1");
    assert_eq!(failure("1 2"), "unexpected trailing JSON data at byte 2");
    assert_eq!(failure("{1:2}"), "expected '\"' at byte 1");
    assert_eq!(failure("{\"a\" 1}"), "expected ':' at byte 5");
    assert_eq!(failure("{\"a\":1 2}"), "expected ',' or '}' in object at byte 7");
    assert_eq!(failure("[1 2]"), "expected ',' or ']' in array at byte 3");
    assert_eq!(failure("\"a"), "unterminated JSON string at byte 2");
    assert_eq!(failure("\"\\"), "unterminated JSON escape at byte 2");
    assert_eq!(failure("\"\\x\""), "invalid JSON escape at byte 3");
    assert_eq!(failure("\"\u{1}\""), "control character in JSON string at byte 1");
    assert_eq!(failure("\"\\u12\"  "), "bad percent escape: \"");
    assert_eq!(failure("\"\\u1"), "short unicode escape at byte 3");
    assert_eq!(failure("\"\\u12g4\""), "bad percent escape: g");
    assert_eq!(failure("\"\\udc00\""), "invalid unicode codepoint at byte 7");
}

#[test]
fn parts_are_read_one_by_one() {
    let mut parser = JsonParser::new("  12\"a\\n\"x");
    parser.skip_ws();
    assert_eq!(parser.peek(), Some(b'1'));
    parser.consume_digits();
    assert_eq!(parser.peek(), Some(b'"'));
    assert_eq!(parser.parse_string().unwrap(), "a\n");
    assert_eq!(parser.expect(b'y').unwrap_err().message(), "expected 'y' at byte 9");
    assert!(parser.expect(b'x').is_ok());
    assert_eq!(parser.peek(), None);
    assert_eq!(parser.error("stopped").message(), "stopped at byte 10");
}

#[test]
fn white_space_may_stand_around_each_part() {
    let wide = " \n\t\r{ \n\"a\" \t:\r [ 1 , -2.5E+3\n,\t\"x\" ,[ \n] , { \t} ] ,\n\"b\" : null } \r\n\t ";
    let narrow = r#"{"a":[1,-2.5E+3,"x",[],{}],"b":null}"#;
    assert_eq!(format!("{:?}", parsed(wide)), format!("{:?}", parsed(narrow)));
    assert_eq!(format!("{:?}", parsed(" [ ] ")), format!("{:?}", parsed("[]")));
    assert_eq!(format!("{:?}", parsed(" 7 ")), format!("{:?}", parsed("7")));
}

#[test]
fn a_character_can_be_written_in_several_ways() {
    for document in [r#""/\u00e9""#, r#""\/\u00E9""#, "\"/\u{e9}\"", r#""\u002f\u00e9""#] {
        assert_eq!(text_of(document), "/\u{e9}");
    }
    assert_eq!(text_of(r#""\"\\\/\b\f\n\r\t""#), "\"\\/\u{8}\u{c}\n\r\t");
    assert_eq!(text_of(r#""\u0022\u005C\u002F\u0008\u000c\u000A\u000d\u0009""#), "\"\\/\u{8}\u{c}\n\r\t");
    assert_eq!(text_of(r#""\uD83d\uDe00""#), "\u{1f600}");
    assert_eq!(text_of(r#""\ud800\uD83D\uDE00\ud800\n\ud800""#), "\u{fffd}\u{1f600}\u{fffd}\n\u{fffd}");
}

#[test]
fn what_follows_a_document_is_refused() {
    for (document, at) in [
        ("{}x", 2),
        ("[] \n]", 4),
        ("{\"a\":1},", 7),
        (" [1]\u{a0}", 4),
        ("[\"\u{e9}\"] {}", 7),
        ("null null", 5),
        ("\"a\"b", 3),
    ] {
        assert_eq!(
            failure(document),
            format!("unexpected trailing JSON data at byte {at}")
        );
    }
}
