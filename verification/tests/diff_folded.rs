use inferno::diff_folded::{from_texts, parse_line, strip_hex_address, Options};

#[test]
fn diff_parse_line_splits_at_last_space() {
    assert_eq!(parse_line("main;foo 5", false), Some(("main;foo".to_string(), 5)));
    assert_eq!(parse_line("main;foo bar  7", false), Some(("main;foo bar".to_string(), 7)));
    assert_eq!(parse_line("main;foo bar  7  ", false), None);
    assert_eq!(parse_line("main;foo", false), None);
    assert_eq!(parse_line("main;foo x", false), None);
    assert_eq!(parse_line("a;0x1f;b 3", true), Some(("a;0x...;b".to_string(), 3)));
}

#[test]
fn diff_strip_hex_address_replaces_numbers() {
    assert_eq!(strip_hex_address("foo 0x45ef2173 bar 0xAB"), "foo 0x... bar 0x...");
    assert_eq!(strip_hex_address("no numbers"), "no numbers");
    assert_eq!(strip_hex_address("a;0xzz;0x1f;b"), "a;0xzz;0x...;b");
    assert_eq!(strip_hex_address("0x0x12"), "0x...x12");
}

#[test]
fn diff_from_texts_pairs_counts() {
    let opt = Options::default();
    let out = from_texts(&opt, "a;b 3\nc 1\n", "a;b 5\nd 2\n").unwrap();
    assert_eq!(out, "a;b 3 5\nc 1 0\nd 0 2\n");
}

#[test]
fn diff_from_texts_sums_repeated_stacks_and_skips_bad_lines() {
    let opt = Options::default();
    let out = from_texts(&opt, "a 1\nnot a line\na 2\n", "").unwrap();
    assert_eq!(out, "a 3 0\n");
}

#[test]
fn diff_from_texts_normalizes_first_profile() {
    let opt = Options { normalize: true, strip_hex: false };
    let out = from_texts(&opt, "a;b 3\nc 1\n", "a;b 5\nd 2\n").unwrap();
    assert_eq!(out, "a;b 5 5\nc 1 0\nd 0 2\n");
}

#[test]
fn diff_from_texts_normalize_with_empty_first_profile_fails() {
    let opt = Options { normalize: true, strip_hex: false };
    assert_eq!(from_texts(&opt, "", "x 1\n"), None);
    assert_eq!(from_texts(&opt, "", "").unwrap(), "");
}

#[test]
fn diff_from_texts_strips_hex_when_asked() {
    let opt = Options { normalize: false, strip_hex: true };
    let out = from_texts(&opt, "f;0x1234 2\n", "f;0xabcd 3\n").unwrap();
    assert_eq!(out, "f;0x... 2 3\n");
    assert_eq!(from_texts(&opt, "f;0xq 2\n", "").unwrap(), "f;0xq 2 0\n");
}

#[test]
fn diff_parse_line_truncates_fractional_counts() {
    assert_eq!(parse_line("a;b 1.5\n", false), Some(("a;b".to_string(), 1)));
    assert_eq!(parse_line("a;b 2.0", false), Some(("a;b".to_string(), 2)));
    assert_eq!(parse_line("a;b 1.x", false), None);
    assert_eq!(parse_line("a;b .5", false), None);
}
