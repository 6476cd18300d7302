use refind_conf::generation::{get_system_path, parse_generation_line};
use refind_conf::text::{
    has_prefix, has_substring, has_suffix, lines_of, same_text, tokens_of, trimmed, trimmed_end,
};

fn decimal_string(n: u64) -> String {
    let path = get_system_path("x", Some(n), None);
    let name = path.strip_prefix("/nix/var/nix/profiles/system-profiles/x-").unwrap();
    name.strip_suffix("-link").unwrap().to_string()
}

fn parse_number(s: &str) -> Option<u64> {
    parse_generation_line(s)
}

#[test]
fn decimal_string_writes_digits() {
    assert_eq!(decimal_string(0), "0");
    assert_eq!(decimal_string(7), "7");
    assert_eq!(decimal_string(10), "10");
    assert_eq!(decimal_string(1234567890), "1234567890");
    assert_eq!(decimal_string(u64::MAX), "18446744073709551615");
}

#[test]
fn parse_number_reads_what_std_reads() {
    for s in [
        "0",
        "7",
        "+7",
        "007",
        "18446744073709551615",
        "18446744073709551616",
        "99999999999999999999999",
        "",
        "+",
        "-1",
        "1a",
        "++1",
        "1+",
        "1_000",
        "0x10",
        "\u{661}",
    ] {
        assert_eq!(parse_number(s), s.parse::<u64>().ok(), "{:?}", s);
    }
    assert_eq!(parse_number("42"), Some(42));
    assert_eq!(parse_number("x"), None);
}

#[test]
fn lines_of_splits_as_std_does() {
    for s in [
        "", "a", "a\n", "a\nb", "a\r\nb\r\n", "a\r", "\n", "\n\n", "a\n\nb", "\r\n", "a\r\r\nb",
        "\r",
    ] {
        let expected: Vec<String> = s.lines().map(|l| l.to_string()).collect();
        assert_eq!(lines_of(s), expected, "{:?}", s);
    }
    assert_eq!(lines_of("one\r\ntwo\nthree"), vec!["one", "two", "three"]);
}

#[test]
fn tokens_of_splits_as_std_does() {
    for s in ["", " ", "a", " a b ", "a\tb\n c", "\u{3000}x\u{a0}y", "a\u{85}b\u{1680}c"] {
        let expected: Vec<String> = s.split_whitespace().map(|l| l.to_string()).collect();
        assert_eq!(tokens_of(s), expected, "{:?}", s);
    }
    assert_eq!(tokens_of("  /dev/sda1   /boot vfat"), vec!["/dev/sda1", "/boot", "vfat"]);
}

#[test]
fn trimmed_drops_white_space_at_both_ends() {
    for s in ["", " ", "a", " a b \n", "\t\u{2003}x", "x\u{2028}"] {
        assert_eq!(trimmed(s), s.trim(), "{:?}", s);
        assert_eq!(trimmed_end(s), s.trim_end(), "{:?}", s);
    }
    assert_eq!(trimmed("  a b  "), "a b");
    assert_eq!(trimmed_end("  a b  "), "  a b");
}

#[test]
fn prefix_suffix_and_substring_agree_with_std() {
    let samples = ["", "a", "ab", "abc", "nvme0n1p1", "x-link", "-link", "link", "aab"];
    for s in samples {
        for p in samples {
            assert_eq!(has_prefix(s, p), s.starts_with(p), "{:?} {:?}", s, p);
            assert_eq!(has_suffix(s, p), s.ends_with(p), "{:?} {:?}", s, p);
            assert_eq!(has_substring(s, p), s.contains(p), "{:?} {:?}", s, p);
            assert_eq!(same_text(s, p), s == p, "{:?} {:?}", s, p);
        }
    }
}

#[test]
fn white_space_is_what_std_calls_white_space() {
    for n in 0..=0x10ffffu32 {
        if let Some(c) = char::from_u32(n) {
            let s = c.to_string();
            assert_eq!(trimmed(&s).is_empty(), c.is_whitespace(), "{:?}", c);
            assert_eq!(tokens_of(&s).is_empty(), c.is_whitespace(), "{:?}", c);
        }
    }
}

#[test]
fn single_characters_are_read_as_std_reads_them() {
    for n in 0..=0x10ffffu32 {
        if let Some(c) = char::from_u32(n) {
            let s = c.to_string();
            assert_eq!(parse_number(&s), s.parse::<u64>().ok(), "{:?}", c);
        }
    }
}
