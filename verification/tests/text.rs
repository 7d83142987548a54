use ripgen_lib::text::{
    chars_equal, contains_chars, cut_str, from_chars, join_strs, parse_decimal, replace_chars,
    split_str, to_chars, u64_to_decimal,
};

fn chars(s: &str) -> Vec<char> {
    s.chars().collect()
}

fn replaced(s: &str, pat: &str, to: &str) -> String {
    replace_chars(&chars(s), &chars(pat), &chars(to)).into_iter().collect()
}

#[test]
fn chars_round_trip() {
    assert_eq!(to_chars("a.食狮"), vec!['a', '.', '食', '狮']);
    assert_eq!(from_chars(&['a', '.', '食', '狮']), "a.食狮");
    assert_eq!(from_chars(&[]), "");
    assert!(to_chars("").is_empty());
}

#[test]
fn join_puts_the_separator_between() {
    assert_eq!(join_strs(&["www", "example.com"], "."), "www.example.com");
    assert_eq!(join_strs(&["only"], "."), "only");
    assert_eq!(join_strs(&[], "."), "");
    assert_eq!(join_strs(&["", ""], "."), ".");
    assert_eq!(join_strs(&["a", "b", "c"], "--"), "a--b--c");
}

#[test]
fn split_agrees_with_the_standard_split() {
    for text in ["", "a", ".", "a.b", "a..b", ".a.", "www.dev-api.example", "食.狮"] {
        let expected: Vec<&str> = text.split('.').collect();
        assert_eq!(split_str(text, '.'), expected);
    }
    assert_eq!(split_str("dev-api--x", '-'), vec!["dev", "api", "", "x"]);
}

#[test]
fn decimal_writes_without_leading_zeros() {
    assert_eq!(u64_to_decimal(0), "0");
    assert_eq!(u64_to_decimal(7), "7");
    assert_eq!(u64_to_decimal(10), "10");
    assert_eq!(u64_to_decimal(1002), "1002");
    assert_eq!(u64_to_decimal(u64::MAX), "18446744073709551615");
}

#[test]
fn decimal_reads_ascii_digits_only() {
    assert_eq!(parse_decimal("0"), Some(0));
    assert_eq!(parse_decimal("007"), Some(7));
    assert_eq!(parse_decimal("999"), Some(999));
    assert_eq!(parse_decimal("18446744073709551615"), Some(u64::MAX));
    assert_eq!(parse_decimal("18446744073709551616"), None);
    assert_eq!(parse_decimal("99999999999999999999999"), None);
    assert_eq!(parse_decimal(""), None);
    assert_eq!(parse_decimal("+1"), None);
    assert_eq!(parse_decimal("1a"), None);
    assert_eq!(parse_decimal("a1"), None);
    assert_eq!(parse_decimal("٣"), None);
}

#[test]
fn cut_goes_by_byte_offsets() {
    assert_eq!(cut_str("host2.lan", 4, 5), Some(("host", "2", ".lan")));
    assert_eq!(cut_str("host2", 0, 5), Some(("", "host2", "")));
    assert_eq!(cut_str("host2", 5, 5), Some(("host2", "", "")));
    assert_eq!(cut_str("食7", 3, 4), Some(("食", "7", "")));
    assert_eq!(cut_str("食7", 1, 4), None);
    assert_eq!(cut_str("食7", 0, 2), None);
    assert_eq!(cut_str("host2", 3, 2), None);
    assert_eq!(cut_str("host2", 2, 6), None);
}

#[test]
fn contains_agrees_with_the_standard_contains() {
    for (text, pat) in [
        ("www.admin", "admin"),
        ("www.admin", "www"),
        ("www.admin", "w.a"),
        ("www.admin", "adminx"),
        ("www.admin", ""),
        ("", ""),
        ("", "a"),
        ("aab", "ab"),
        ("abc", "abcd"),
    ] {
        assert_eq!(contains_chars(&chars(text), &chars(pat)), text.contains(pat));
    }
}

#[test]
fn replace_agrees_with_the_standard_replace() {
    for (text, pat, to) in [
        ("www.admin", "admin", "internal"),
        ("dev.dev-api", "dev", "prod"),
        ("aaa", "aa", "b"),
        ("aaaa", "aa", "b"),
        ("abc", "", "-"),
        ("", "", "x"),
        ("", "a", "x"),
        ("abc", "abc", ""),
        ("abc", "abcd", "x"),
        ("ababab", "ab", "ba"),
        ("食狮", "狮", "食"),
    ] {
        assert_eq!(replaced(text, pat, to), text.replace(pat, to));
    }
    assert_eq!(replaced("abc", "", "-"), "-a-b-c-");
    assert_eq!(replaced("aaa", "aa", "b"), "ba");
}

#[test]
fn chars_equal_compares_contents() {
    assert!(chars_equal(&chars("admin"), &chars("admin")));
    assert!(!chars_equal(&chars("admin"), &chars("admim")));
    assert!(!chars_equal(&chars("admin"), &chars("admins")));
    assert!(chars_equal(&[], &[]));
}
