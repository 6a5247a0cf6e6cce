use jms_rdp_launcher::files::control;
use jms_rdp_launcher::text;

const SAMPLES: [&str; 14] = [
    "",
    "a",
    "\n",
    "\r\n",
    "a\nb",
    "a\r\nb\r\n",
    "a\rb\n\nc\r",
    " \t padded\u{3000}\u{a0}",
    "\u{2003}x\u{200b}",
    "key:s:value:with:colons",
    "::",
    "||a|b",
    "ÄÖ straße\u{1f600} |",
    "MiXeD Case ÀÉ\u{212a}",
];

#[test]
fn white_space_is_that_of_unicode() {
    for c in '\0'..=char::MAX {
        assert_eq!(text::white_space(c), c.is_whitespace(), "{c:?}");
    }
}

#[test]
fn control_characters_are_those_of_unicode() {
    for c in '\0'..=char::MAX {
        assert_eq!(control(c), c.is_control(), "{c:?}");
    }
}

#[test]
fn widths_and_cases_are_those_of_characters() {
    for c in '\0'..=char::MAX {
        assert_eq!(text::char_width(c), c.len_utf8(), "{c:?}");
        assert_eq!(text::lower_char(c), c.to_ascii_lowercase(), "{c:?}");
    }
}

#[test]
fn trimming_agrees_with_strings() {
    for s in SAMPLES {
        assert_eq!(text::trim(s), s.trim());
        assert_eq!(text::trim_char(s, '|'), s.trim_matches('|'));
        assert_eq!(text::trim_char(s, '"'), s.trim_matches('"'));
    }
    assert_eq!(text::trim_char("\"\"x\"", '"'), "x");
}

#[test]
fn lines_agree_with_strings() {
    for s in SAMPLES {
        assert_eq!(text::lines(s), s.lines().collect::<Vec<_>>());
    }
}

#[test]
fn splitting_agrees_with_strings() {
    for s in SAMPLES {
        for c in [':', '|', '\n', 'x'] {
            assert_eq!(text::split_once(s, c), s.split_once(c));
            assert_eq!(text::rsplit_once(s, c), s.rsplit_once(c));
            assert_eq!(text::contains_char(s, c), s.contains(c));
            assert_eq!(text::before_char(s, c), s.split(c).next().unwrap());
        }
    }
}

#[test]
fn searching_agrees_with_strings() {
    for s in SAMPLES {
        for needle in ["", "a", ":s:", "|", "\r\n", "straße", "MiXeD"] {
            assert_eq!(text::contains(s, needle), s.contains(needle));
            assert_eq!(text::starts_with(s, needle), s.starts_with(needle));
            assert_eq!(text::same_text(s, needle), s == needle);
            assert_eq!(
                text::eq_ignoring_case(s, needle),
                s.eq_ignore_ascii_case(needle)
            );
        }
        assert_eq!(text::to_lower(s), s.to_ascii_lowercase());
    }
}

#[test]
fn replacing_agrees_with_strings() {
    for s in SAMPLES {
        for (from, to) in [("\r\n", "\n"), ("\r", "\n"), ("a", "aa"), ("::", ":"), ("|", "")] {
            assert_eq!(text::replace(s, from, to), s.replace(from, to));
        }
    }
    assert_eq!(text::replace("aaa", "aa", "b"), "ba");
}

#[test]
fn joining_agrees_with_vectors() {
    let parts: Vec<String> = SAMPLES.iter().map(|s| s.to_string()).collect();
    assert_eq!(text::join(&parts, ", "), parts.join(", "));
    assert_eq!(text::join(&Vec::new(), ", "), "");
    assert_eq!(text::concat("ab", "cß"), "abcß");
}

#[test]
fn joined_lines_are_read_back() {
    let lines = vec!["first".to_string(), "".to_string(), "third".to_string()];
    let joined = text::join(&lines, "\n");
    assert_eq!(text::lines(&joined), vec!["first", "", "third"]);
}

#[test]
fn parts_are_counted_in_characters() {
    assert_eq!(text::substring("aß€\u{1f600}z", 1, 4), "ß€\u{1f600}");
    assert_eq!(text::split_at_char("aß€", 2), ("aß", "€"));
    assert_eq!(text::chars_of("ß€"), vec!['ß', '€']);
    assert_eq!(text::find_char(&['a', 'b', 'c'], 'c'), 2);
    assert_eq!(text::find_char(&['a', 'b', 'c'], 'd'), 3);
}

#[test]
fn numbers_agree_with_parsing() {
    for s in [
        "", "0", "7", "+7", "-0", "-7", "007", "+", "++1", " 1", "1 ", "1a", "65535", "65536",
        "18446744073709551615", "18446744073709551616", "99999999999999999999999", "٣",
    ] {
        assert_eq!(text::parse_number(s, u64::MAX), s.parse::<u64>().ok(), "{s}");
        assert_eq!(
            text::parse_number(s, 65535),
            s.parse::<u16>().ok().map(u64::from),
            "{s}"
        );
    }
}

#[test]
fn decimals_are_read_back() {
    for n in [0, 9, 10, 42, 1000, u64::MAX] {
        assert_eq!(text::to_decimal(n), n.to_string());
        assert_eq!(text::parse_number(&text::to_decimal(n), u64::MAX), Some(n));
    }
}
