use stellar_sim::text::{chars_start_with, find_sole, split_words, trim_chars};

fn c(s: &str) -> Vec<char> {
    s.chars().collect()
}

fn st(v: &Vec<char>) -> String {
    v.iter().collect()
}

#[test]
fn trim_matches_str_trim() {
    for s in ["", "   ", "  a b \t", "\u{00A0}x\u{3000}", "abc", "\r\n z \u{2028}"] {
        assert_eq!(st(&trim_chars(&c(s))), s.trim());
    }
}

#[test]
fn words_match_split_whitespace() {
    for s in ["", "  ", "a", " a  bb\tccc \n", "-8.0 -7.5\u{2003}-7.0", "x\u{85}y"] {
        let w: Vec<String> = split_words(&c(s)).iter().map(st).collect();
        let expected: Vec<&str> = s.split_whitespace().collect();
        assert_eq!(w, expected);
    }
}

#[test]
fn sole_separator() {
    assert_eq!(find_sole(&c("a|b"), '|'), Some(1));
    assert_eq!(find_sole(&c("a|b|c"), '|'), None);
    assert_eq!(find_sole(&c("abc"), '|'), None);
    assert_eq!(find_sole(&c("="), '='), Some(0));
}

#[test]
fn prefix() {
    assert!(chars_start_with(&c("Table for X = 1"), &['T', 'a', 'b']));
    assert!(!chars_start_with(&c("Ta"), &['T', 'a', 'b']));
    assert!(chars_start_with(&c("x"), &[]));
}
