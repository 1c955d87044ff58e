use jofi::desktop::parse_bool;
use jofi::search::{acronym, normalize, normalize_decomposed, tokenize};
use jofi::text::{
    eq_ignore_ascii_case, from_chars, is_control, is_whitespace, join, lines, parse_decimal, split,
    split_once, split_whitespace, str_byte_len, to_chars, to_decimal, trim,
};

const SAMPLES: [&str; 14] = [
    "",
    " ",
    "a",
    "a b",
    "  a  b ",
    "a\nb",
    "a\r\nb\r\n",
    "\n\n",
    "a\n\r",
    "\r",
    "\u{3000}x\u{a0}",
    "k=v=w",
    "=",
    "\u{1f600}\tz",
];

fn all_chars() -> impl Iterator<Item = char> {
    (0..=0x10ffffu32).filter_map(char::from_u32)
}

fn chars(text: &str) -> Vec<char> {
    text.chars().collect()
}

fn texts(parts: Vec<&[char]>) -> Vec<String> {
    parts.into_iter().map(|part| part.iter().collect()).collect()
}

#[test]
fn white_space_is_that_of_unicode() {
    assert!(all_chars().all(|ch| is_whitespace(ch) == ch.is_whitespace()));
}

#[test]
fn controls_are_those_of_unicode() {
    assert!(all_chars().all(|ch| is_control(ch) == ch.is_control()));
}

#[test]
fn cuts_texts_as_std_does() {
    for text in SAMPLES {
        let part = chars(text);
        assert_eq!(from_chars(trim(&part)), text.trim());
        assert_eq!(texts(lines(&part)), text.lines().collect::<Vec<_>>());
        assert_eq!(texts(split_whitespace(&part)), text.split_whitespace().collect::<Vec<_>>());
        assert_eq!(texts(split(&part, '=')), text.split('=').collect::<Vec<_>>());
        let once = split_once(&part, '=').map(|(a, b)| (from_chars(a), from_chars(b)));
        let expected = text.split_once('=').map(|(a, b)| (a.to_string(), b.to_string()));
        assert_eq!(once, expected);
        assert_eq!(str_byte_len(text), text.len());
        assert_eq!(from_chars(&to_chars(text)), text);
    }
}

#[test]
fn joins_texts() {
    let parts = vec!["a".to_string(), String::new(), "c".to_string()];
    assert_eq!(join(&parts, ","), "a,,c");
    assert_eq!(join(&Vec::new(), ","), "");
}

#[test]
fn decimals() {
    for value in [0, 7, 10, 1234567890, u64::MAX] {
        assert_eq!(to_decimal(value), value.to_string());
        assert_eq!(parse_decimal(&chars(&value.to_string()), u64::MAX), Some(value));
    }
    for text in ["", "+", "-1", " 1", "1 ", "1a", "+5", "007", "4294967296", "++1"] {
        let expected = text.parse::<u32>().ok().map(u64::from);
        assert_eq!(parse_decimal(&chars(text), u32::MAX as u64), expected);
    }
}

#[test]
fn ascii_case() {
    assert!(eq_ignore_ascii_case("TrUe", "true"));
    assert!(!eq_ignore_ascii_case("\u{c9}", "\u{e9}"));
    assert!(!eq_ignore_ascii_case("tru", "true"));
    assert!(parse_bool("TRUE"));
    assert!(!parse_bool("1"));
}

#[test]
fn normal_forms() {
    assert_eq!(normalize("  Caf\u{e9} -- \u{fb01}le.TXT  "), "cafe file txt");
    assert_eq!(normalize("\u{1e9e}"), "\u{df}");
    assert_eq!(normalize("e\u{301}"), "e");
    assert_eq!(normalize("!?"), "");
    assert_eq!(normalize(""), "");
    assert_eq!(normalize_decomposed(&chars("A-\u{301}B")), "a b");
    assert_eq!(normalize(&normalize("Foo_Bar 2")), normalize("Foo_Bar 2"));
}

#[test]
fn words_and_initials() {
    assert_eq!(tokenize("google chrome"), vec!["google", "chrome"]);
    assert_eq!(acronym("visual studio code"), "vsc");
    assert_eq!(acronym(""), "");
}

#[test]
fn normalising_twice_changes_nothing() {
    let everything: Vec<char> = all_chars().collect();
    for some in everything.chunks(512) {
        let text: String = some.iter().flat_map(|ch| ['-', *ch]).collect();
        let once = normalize(&text);
        assert_eq!(normalize(&once), once);
    }
}
