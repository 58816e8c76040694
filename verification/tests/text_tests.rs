use aether::order::chars_lt;
use aether::text::{
    chars_of, decimal_string, line_ranges, parse_u8_range, str_contains, string_of, trimmed,
    word_ranges,
};

fn lines_of(s: &str) -> Vec<String> {
    let v = chars_of(s);
    line_ranges(&v).into_iter().map(|(a, b)| string_of(&v, a, b)).collect()
}

fn words_of(s: &str) -> Vec<String> {
    let v = chars_of(s);
    word_ranges(&v, 0, v.len()).into_iter().map(|(a, b)| string_of(&v, a, b)).collect()
}

#[test]
fn lines_match_std() {
    for s in ["", "a", "a\n", "a\nb", "a\r\nb\r\n", "\n\n", "x\r", "x\ry\n", " \n\r\n"] {
        let expected: Vec<String> = s.lines().map(|l| l.to_string()).collect();
        assert_eq!(lines_of(s), expected, "input {:?}", s);
    }
}

#[test]
fn words_match_std() {
    for s in ["", "  ", "a b", "  default via 1.2.3.4  dev\teth0 ", "x\u{3000}y\u{85}z"] {
        let expected: Vec<String> = s.split_whitespace().map(|w| w.to_string()).collect();
        assert_eq!(words_of(s), expected, "input {:?}", s);
    }
}

#[test]
fn trim_matches_std() {
    for s in ["", " ", " a ", "\t\na b\r\n", "\u{a0}x\u{2003}", "x"] {
        assert_eq!(trimmed(s), s.trim());
    }
}

#[test]
fn decimals() {
    assert_eq!(decimal_string(0), "0");
    assert_eq!(decimal_string(9), "9");
    assert_eq!(decimal_string(10), "10");
    assert_eq!(decimal_string(255), "255");
    assert_eq!(decimal_string(u64::MAX), u64::MAX.to_string());
}

fn parse(s: &str) -> Option<u8> {
    let v = chars_of(s);
    parse_u8_range(&v, 0, v.len())
}

#[test]
fn u8_parsing_matches_std() {
    for s in ["0", "7", "255", "256", "007", "+5", "+", "-1", "", "1a", "٣", "99999999999"] {
        assert_eq!(parse(s), s.parse::<u8>().ok(), "input {:?}", s);
    }
}

#[test]
fn substring_search() {
    assert!(str_contains("abcabd", "abd"));
    assert!(str_contains("abc", ""));
    assert!(!str_contains("ab", "abc"));
    assert!(!str_contains("aab", "ba"));
}

#[test]
fn lexicographic_order() {
    let lt = |a: &str, b: &str| chars_lt(&chars_of(a), &chars_of(b));
    assert!(lt("a", "b"));
    assert!(lt("a", "ab"));
    assert!(!lt("ab", "a"));
    assert!(!lt("a", "a"));
    assert!(lt("B", "a"));
    assert!(lt("", "a"));
}
