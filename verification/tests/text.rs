use vitals_rain::text::{
    chars_of, contains, parse_u64, split_lines, split_words, starts_with, trimmed,
};

fn cs(s: &str) -> Vec<char> {
    s.chars().collect()
}

fn strings(v: Vec<Vec<char>>) -> Vec<String> {
    v.into_iter().map(|l| l.into_iter().collect()).collect()
}

#[test]
fn chars_of_keeps_every_character() {
    assert_eq!(chars_of("añb\n"), vec!['a', 'ñ', 'b', '\n']);
    assert_eq!(chars_of(""), Vec::<char>::new());
}

#[test]
fn lines_split_like_str_lines() {
    for text in ["a\nb", "a\nb\n", "", "\n", "a\r\nb\r\n", "a\n\nb", "x\r", "\r\n\r\n", "one"] {
        let expected: Vec<String> = text.lines().map(|l| l.to_string()).collect();
        assert_eq!(strings(split_lines(&cs(text))), expected, "text {:?}", text);
    }
}

#[test]
fn lines_keep_a_lone_carriage_return_at_the_end() {
    assert_eq!(strings(split_lines(&cs("ab\r"))), vec!["ab\r".to_string()]);
    assert_eq!(strings(split_lines(&cs("ab\r\n"))), vec!["ab".to_string()]);
}

#[test]
fn words_split_like_split_whitespace() {
    for text in ["  1 2\t3  ", "", "   ", "a", "x\u{a0}y\u{3000}z", "a\nb\u{85}c"] {
        let expected: Vec<String> = text.split_whitespace().map(|w| w.to_string()).collect();
        assert_eq!(strings(split_words(&cs(text), 0)), expected, "text {:?}", text);
    }
}

#[test]
fn words_start_at_the_given_position() {
    assert_eq!(strings(split_words(&cs("cpu0 1 2"), 3)), vec!["0".to_string(), "1".to_string(), "2".to_string()]);
    assert_eq!(strings(split_words(&cs("abc"), 3)), Vec::<String>::new());
}

#[test]
fn numbers_parse_like_str_parse() {
    for text in [
        "0", "42", "+7", "+", "", "-1", "12a", " 1", "18446744073709551615",
        "18446744073709551616", "99999999999999999999999", "007", "++1", "١",
    ] {
        let expected = text.parse::<u64>().ok();
        assert_eq!(parse_u64(&cs(text)), expected, "text {:?}", text);
    }
}

#[test]
fn number_values() {
    assert_eq!(parse_u64(&cs("12345")), Some(12345));
    assert_eq!(parse_u64(&cs("+0")), Some(0));
    assert_eq!(parse_u64(&cs("18446744073709551615")), Some(u64::MAX));
    assert_eq!(parse_u64(&cs("18446744073709551616")), None);
}

#[test]
fn prefixes() {
    assert!(starts_with(&cs("cpu0 1"), &cs("cpu")));
    assert!(starts_with(&cs("cpu"), &cs("cpu")));
    assert!(!starts_with(&cs("cp"), &cs("cpu")));
    assert!(!starts_with(&cs("intr 5"), &cs("cpu")));
    assert!(starts_with(&cs("abc"), &cs("")));
}

#[test]
fn trimming_like_str_trim() {
    for text in ["  x86_pkg_temp\n", "", "   ", "a b", "\u{2003}k\u{3000}"] {
        let got: String = trimmed(&cs(text)).into_iter().collect();
        assert_eq!(got, text.trim(), "text {:?}", text);
    }
}

#[test]
fn searching_like_str_contains() {
    for (hay, needle) in [("x86_pkg_temp", "x86_pkg"), ("acpitz", "k10temp"), ("", ""), ("ab", "abc"), ("aab", "ab"), ("k10temp", "k10temp")] {
        assert_eq!(contains(&cs(hay), &cs(needle)), hay.contains(needle), "{:?} {:?}", hay, needle);
    }
}
