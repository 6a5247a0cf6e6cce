use jms_rdp_launcher::base64::{
    base64_decode, base64_decode_lossy_tail, trim_after_base64_padding,
};
use jms_rdp_launcher::error::LauncherError;
use jms_rdp_launcher::files::read_text_file_lossy;
use jms_rdp_launcher::percent::{hex_value, percent_decode};
use jms_rdp_launcher::utf::{decode_text, decode_words, text_or_error};

fn failure<T: std::fmt::Debug>(r: Result<T, LauncherError>) -> String {
    r.unwrap_err().message()
}

#[test]
fn hexadecimal_digits_have_values() {
    assert_eq!(hex_value(b'0').unwrap(), 0);
    assert_eq!(hex_value(b'9').unwrap(), 9);
    assert_eq!(hex_value(b'a').unwrap(), 10);
    assert_eq!(hex_value(b'F').unwrap(), 15);
    assert_eq!(failure(hex_value(b'g')), "bad percent escape: g");
}

#[test]
fn percent_escapes_are_decoded() {
    assert_eq!(percent_decode("a%20b%2Bc").unwrap(), "a b+c");
    assert_eq!(percent_decode("%E2%82%ac").unwrap(), "€");
    assert_eq!(percent_decode("plain ß").unwrap(), "plain ß");
    assert_eq!(percent_decode("100%25").unwrap(), "100%");
}

#[test]
fn bad_percent_escapes_are_refused() {
    assert_eq!(failure(percent_decode("a%4")), "bad percent escape at end of input");
    assert_eq!(failure(percent_decode("%")), "bad percent escape at end of input");
    assert_eq!(failure(percent_decode("%zz")), "bad percent escape: z");
    assert_eq!(failure(percent_decode("%4z")), "bad percent escape: z");
    assert_eq!(
        failure(percent_decode("%FF")),
        format!(
            "percent-decoded input is not UTF-8: {}",
            String::from_utf8(vec![0xff]).unwrap_err()
        )
    );
}

#[test]
fn base64_texts_come_back() {
    for (plain, encoded) in [
        ("", ""),
        ("f", "Zg=="),
        ("fo", "Zm8="),
        ("foo", "Zm9v"),
        ("foob", "Zm9vYg=="),
        ("fooba", "Zm9vYmE="),
        ("foobar", "Zm9vYmFy"),
    ] {
        assert_eq!(base64_decode(encoded).unwrap(), plain.as_bytes());
        assert_eq!(base64_decode_lossy_tail(encoded).unwrap(), plain.as_bytes());
        assert_eq!(
            base64_decode_lossy_tail(&format!("{encoded}/")).unwrap(),
            plain.as_bytes()
        );
    }
}

#[test]
fn both_base64_alphabets_are_read() {
    assert_eq!(base64_decode("-_+/").unwrap(), base64_decode("+/-_").unwrap());
    assert_eq!(base64_decode("+/+/").unwrap(), vec![0xfb, 0xff, 0xbf]);
    assert_eq!(base64_decode(" Z\tm\n9\rv\u{c}").unwrap(), b"foo");
}

#[test]
fn bad_base64_is_refused() {
    assert_eq!(failure(base64_decode("Zm9v!")), "invalid base64 byte: !");
    assert_eq!(failure(base64_decode("ß")), "invalid base64 byte: \u{c3}");
    assert_eq!(failure(base64_decode("Zg==Zg")), "base64 data after padding");
    assert_eq!(failure(base64_decode_lossy_tail("!")), "invalid base64 byte: !");
}

#[test]
fn data_behind_padding_is_ignored() {
    assert_eq!(base64_decode_lossy_tail("Zg==Zg").unwrap(), b"f");
    assert_eq!(base64_decode_lossy_tail("Zm8= = \n!ß").unwrap(), b"fo");
    assert_eq!(trim_after_base64_padding("Zm8= =\n!="), "Zm8= =\n");
    assert_eq!(trim_after_base64_padding("Zm9v"), "Zm9v");
}

#[test]
fn a_reason_follows_what_went_wrong() {
    assert_eq!(text_or_error(Ok("t".to_string()), "no: ").unwrap(), "t");
    assert_eq!(failure(text_or_error(Err("why".to_string()), "no: ")), "no: why");
}

#[test]
fn bytes_are_read_as_utf8() {
    assert_eq!(decode_text("ß€".as_bytes().to_vec(), "no: ").unwrap(), "ß€");
    let bad = vec![0x61, 0xe2, 0x82];
    assert_eq!(
        failure(decode_text(bad.clone(), "no: ")),
        format!("no: {}", String::from_utf8(bad).unwrap_err())
    );
}

#[test]
fn words_are_read_as_utf16() {
    let words: Vec<u16> = "aß€\u{1f600}".encode_utf16().collect();
    assert_eq!(decode_words(&words, "no: ").unwrap(), "aß€\u{1f600}");
    for bad in [vec![0xd800u16], vec![0xdc00, 0x61], vec![0xd800, 0x61]] {
        assert_eq!(
            failure(decode_words(&bad, "no: ")),
            format!("no: {}", String::from_utf16(&bad).unwrap_err())
        );
    }
}

#[test]
fn files_are_read_by_their_byte_order_marks() {
    let words: Vec<u16> = "full address:s:é".encode_utf16().collect();
    let mut le = vec![0xff, 0xfe];
    let mut be = vec![0xfe, 0xff];
    for w in &words {
        le.extend(w.to_le_bytes());
        be.extend(w.to_be_bytes());
    }
    assert_eq!(read_text_file_lossy(le.clone(), "x").unwrap(), "full address:s:é");
    assert_eq!(read_text_file_lossy(be, "x").unwrap(), "full address:s:é");
    le.push(0x41);
    assert_eq!(read_text_file_lossy(le, "x").unwrap(), "full address:s:é");
    assert_eq!(read_text_file_lossy(b"\xef\xbb\xbfabc".to_vec(), "x").unwrap(), "abc");
    assert_eq!(read_text_file_lossy(b"abc".to_vec(), "x").unwrap(), "abc");
    assert_eq!(read_text_file_lossy(Vec::new(), "x").unwrap(), "");
}

#[test]
fn files_in_other_encodings_are_refused() {
    let surrogate = String::from_utf16(&[0xd800]).unwrap_err();
    let utf8 = String::from_utf8(vec![0x80]).unwrap_err();
    assert_eq!(
        failure(read_text_file_lossy(vec![0xff, 0xfe, 0x00, 0xd8], "a.rdp")),
        format!("a.rdp is not valid UTF-16LE: {surrogate}")
    );
    assert_eq!(
        failure(read_text_file_lossy(vec![0xfe, 0xff, 0xd8, 0x00], "a.rdp")),
        format!("a.rdp is not valid UTF-16BE: {surrogate}")
    );
    assert_eq!(
        failure(read_text_file_lossy(vec![0xef, 0xbb, 0xbf, 0x80], "a.rdp")),
        format!("a.rdp is not valid UTF-8: {utf8}")
    );
    assert_eq!(
        failure(read_text_file_lossy(vec![0x80], "a.rdp")),
        format!("a.rdp is not valid UTF-8/UTF-16 RDP text: {utf8}")
    );
}

#[test]
fn texts_come_back_from_their_files() {
    for text in ["", "a", "full address:s:h\r\n", "\u{e9}\u{4e2d}\u{ffff}", "x\u{10000}\u{10ffff}\u{1f600}y", "a\u{feff}"] {
        let words: Vec<u16> = text.encode_utf16().collect();
        let le: Vec<u8> = words.iter().flat_map(|w| w.to_le_bytes()).collect();
        let be: Vec<u8> = words.iter().flat_map(|w| w.to_be_bytes()).collect();
        let mut odd_le = le.clone();
        odd_le.push(0x41);
        let mut odd_be = be.clone();
        odd_be.push(0xd8);
        let plain = text.as_bytes().to_vec();
        for bytes in [
            [vec![0xff, 0xfe], le].concat(),
            [vec![0xfe, 0xff], be].concat(),
            [vec![0xff, 0xfe], odd_le].concat(),
            [vec![0xfe, 0xff], odd_be].concat(),
            [vec![0xef, 0xbb, 0xbf], plain.clone()].concat(),
            plain,
        ] {
            assert_eq!(read_text_file_lossy(bytes, "f").unwrap(), text);
        }
    }
    // Without a mark, a first U+FEFF is taken for the mark.
    assert_eq!(read_text_file_lossy("\u{feff}a".as_bytes().to_vec(), "f").unwrap(), "a");
}

#[test]
fn base64_texts_come_back_in_each_spelling() {
    let data = [0xfbu8, 0xef, 0xff, 0x3e];
    for text in ["++//Pg==", "--__Pg==", "+-_/Pg", " ++ \n//\tP\r g ", "++//Pg=", "++//P g = = =\n"] {
        assert_eq!(base64_decode(text).unwrap(), data);
        assert_eq!(base64_decode_lossy_tail(text).unwrap(), data);
    }
    for tail in ["x", "/", "=x=", " \u{e9}", "=\n= ++"] {
        assert_eq!(base64_decode_lossy_tail(&format!("--__ P g={tail}")).unwrap(), data);
    }
}
