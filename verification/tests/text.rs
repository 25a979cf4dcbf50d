use dms_email_client::text::{
    contains, is_before, parse_small_number, parse_u32, path_join, replace, same_ignoring_ascii_case,
    split, split_words, to_chars, to_decimal, trim,
};

fn strings(parts: Vec<Vec<char>>) -> Vec<String> {
    parts.iter().map(|p| p.iter().collect()).collect()
}

#[test]
fn trimming_is_that_of_strings() {
    for s in ["", " ", "a", " a b ", "\u{3000}x\u{a0}", "\u{200b}x", "\t\n\u{85}y\u{2028}"] {
        assert_eq!(trim(s), s.trim());
    }
}

#[test]
fn splitting_is_that_of_strings() {
    for s in ["", "\t", "a", "a\tb", "\ta\t\tb\t"] {
        assert_eq!(strings(split(&to_chars(s), '\t')), s.split('\t').collect::<Vec<_>>());
    }
    for s in ["", " ", "a", " a  b\u{3000}c ", "x\n\ty"] {
        assert_eq!(strings(split_words(&to_chars(s))), s.split_whitespace().collect::<Vec<_>>());
    }
}

#[test]
fn replacing_is_that_of_strings() {
    for (s, p) in [("aaa", "aa"), ("abab", "b"), ("", "x"), ("xyz", "xyz")] {
        let got: String = replace(&to_chars(s), &to_chars(p), &to_chars("-")).iter().collect();
        assert_eq!(got, s.replace(p, "-"));
    }
}

#[test]
fn searching_is_that_of_strings() {
    for (s, p) in [("abc", "bc"), ("abc", ""), ("", ""), ("", "a"), ("aab", "ab"), ("ab", "abc")] {
        assert_eq!(contains(s, p), s.contains(p));
    }
}

#[test]
fn numbers_are_read_and_written() {
    for n in [0, 7, 10, 99, 4294967295] {
        assert_eq!(to_decimal(n).iter().collect::<String>(), n.to_string());
    }
    for s in ["", "0", "007", "+5", "-5", "4294967295", "4294967296", "1a", " 1", "+"] {
        assert_eq!(parse_u32(s), s.parse::<u32>().ok(), "{s:?}");
    }
    assert_eq!(parse_small_number(&to_chars("fF"), 16), Some(255));
    assert_eq!(parse_small_number(&to_chars("100000000"), 16), None);
}

#[test]
fn the_order_is_that_of_strings() {
    let all = ["", "a", "B", "ab", "é", "中", "😀", "\u{ffff}", "2026-01-01", "2026-01-02"];
    for a in all {
        for b in all {
            assert_eq!(is_before(a, b), a < b, "{a:?} {b:?}");
        }
    }
}

#[test]
fn ascii_case_is_ignored() {
    assert!(same_ignoring_ascii_case("\\JUNK", "\\Junk"));
    assert!(!same_ignoring_ascii_case("É", "é"));
    assert!(!same_ignoring_ascii_case("ab", "abc"));
}

#[test]
fn paths_are_joined_as_paths_are() {
    for (base, part) in [("/a", "b"), ("/a/", "b"), ("", "b"), ("/a", "/b"), (".", "b"), ("/a", "")] {
        let got: String = path_join(&to_chars(base), &to_chars(part)).iter().collect();
        let want = std::path::Path::new(base).join(part);
        assert_eq!(got, want.to_string_lossy());
    }
}
