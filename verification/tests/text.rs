use netports::text::{chars_of, contains, last_token, lines, stands_at, trim};
use netports::{decode_output, PortError};

const SAMPLES: [&str; 20] = [
    "",
    "\n",
    "\n\n",
    "a",
    "a\n",
    "a\nb",
    "a\nb\n",
    "a\n\nb\n",
    "a\r\nb\r\n",
    "a\r",
    "a\r\n",
    "\r\n",
    "\r",
    "a\rb\n",
    "a\r\r\n",
    "  lead and trail \t",
    "(Hardware Port: Wi-Fi, Device: en0)",
    "\u{a0}x\u{2003}",
    "\u{7f51}\u{7edc} \u{e9}\n",
    " \t\r\n\x0c",
];

#[test]
fn lines_are_those_of_std() {
    for s in SAMPLES {
        let expected: Vec<String> = s.lines().map(|l| l.to_string()).collect();
        assert_eq!(lines(s), expected, "lines of {:?}", s);
    }
}

#[test]
fn lines_end_at_line_feeds() {
    assert_eq!(lines("one\ntwo\r\nthree"), vec!["one", "two", "three"]);
    assert_eq!(lines("one\n\n"), vec!["one", ""]);
    assert_eq!(lines("last\r"), vec!["last\r"]);
    assert_eq!(lines(""), Vec::<String>::new());
}

#[test]
fn trim_is_that_of_std() {
    for s in SAMPLES {
        assert_eq!(trim(s), s.trim(), "trim of {:?}", s);
    }
}

#[test]
fn trim_takes_white_space_from_both_ends_only() {
    assert_eq!(trim("  a b  "), "a b");
    assert_eq!(trim("\u{a0}10.0.0.5\u{2003}\n"), "10.0.0.5");
    assert_eq!(trim("x"), "x");
    assert_eq!(trim("   "), "");
}

#[test]
fn last_token_is_that_of_std() {
    for s in SAMPLES {
        let expected = s.split_ascii_whitespace().last().map(|t| t.to_string());
        assert_eq!(last_token(s), expected, "last token of {:?}", s);
    }
}

#[test]
fn last_token_is_the_last_field() {
    assert_eq!(last_token("(Hardware Port: Wi-Fi, Device: en0"), Some("en0".to_string()));
    assert_eq!(last_token("en0  \t"), Some("en0".to_string()));
    assert_eq!(last_token("single"), Some("single".to_string()));
    assert_eq!(last_token(" \t "), None);
    assert_eq!(last_token(""), None);
    // A no-break space is not ASCII white space.
    assert_eq!(last_token("a\u{a0}b"), Some("a\u{a0}b".to_string()));
}

#[test]
fn contains_is_that_of_std() {
    let needles = ["", "a", "\n", "a\n", "10G", "Device", "b\r", "\u{7edc}", "en0)"];
    for s in SAMPLES {
        for n in needles {
            assert_eq!(contains(s, n), s.contains(n), "{:?} in {:?}", n, s);
        }
    }
}

#[test]
fn contains_finds_a_text_anywhere() {
    assert!(contains("media: autoselect (1000baseT)", "1000"));
    assert!(contains("1000", "1000"));
    assert!(contains("x1000", "1000"));
    assert!(!contains("100", "1000"));
    assert!(!contains("1 000", "1000"));
    assert!(contains("", ""));
    assert!(!contains("", "a"));
}

#[test]
fn stands_at_checks_one_index() {
    let hay = chars_of("abcabc");
    let needle = chars_of("bc");
    assert!(!stands_at(&hay, &needle, 0));
    assert!(stands_at(&hay, &needle, 1));
    assert!(stands_at(&hay, &needle, 4));
    assert!(!stands_at(&hay, &needle, 5));
    assert!(!stands_at(&hay, &needle, 7));
    assert!(stands_at(&hay, &chars_of(""), 6));
}

#[test]
fn chars_are_counted_by_character() {
    assert_eq!(chars_of("\u{7f51}\u{e9}a"), vec!['\u{7f51}', '\u{e9}', 'a']);
    assert_eq!(chars_of(""), Vec::<char>::new());
}

#[test]
fn valid_output_is_decoded() {
    assert_eq!(decode_output(b"10.0.0.5\n".to_vec()), Ok("10.0.0.5\n".to_string()));
    assert_eq!(decode_output(Vec::new()), Ok(String::new()));
    assert_eq!(decode_output("r\u{e9}seau".as_bytes().to_vec()), Ok("r\u{e9}seau".to_string()));
    assert_ne!(decode_output(b"abc".to_vec()), Ok("abd".to_string()));
}

#[test]
fn invalid_output_is_a_command_failure() {
    assert_eq!(decode_output(vec![0xff, 0xfe]), Err(PortError::ExternalCommandFailure));
    assert_eq!(decode_output(vec![b'a', 0xc3]), Err(PortError::ExternalCommandFailure));
    assert_eq!(decode_output(vec![0xed, 0xa0, 0x80]), Err(PortError::ExternalCommandFailure));
}

#[test]
fn trim_knows_the_ascii_white_space() {
    for code in 0u8..128 {
        let c = code as char;
        let text = format!("{}10.0.0.5{}", c, c);
        assert_eq!(trim(&text), text.trim(), "trim around {:?}", c);
        let inner = format!("a{}b", c);
        assert_eq!(trim(&inner), inner);
    }
    assert_eq!(trim("\x0b\x0c\r\n\t x\x0b"), "x");
    assert_eq!(trim("\x1c0\x1f"), "\x1c0\x1f");
}
