use std::borrow::Cow;
use pitagoecsvgen_core::text::{
    join_separated, replace, stem_of, str_common_prefix, str_common_suffix,
};

#[test]
fn test_join_separated() {
    assert_eq!(join_separated(&[] as &[String], '@'), "");
    assert_eq!(join_separated(&["a".to_string()], '\\'), "a");
    assert_eq!(join_separated(&["a".to_string(), "b".to_string()], ':'), "a:b");
}

#[test]
fn test_str_common_prefix() {
    let s1 = Cow::from("abc");
    let s2 = "abd";
    assert_eq!(str_common_prefix(s1, s2), "ab");
    let s1 = Cow::from("abc".to_string());
    let s2 = "abd";
    assert_eq!(str_common_prefix(s1, s2), "ab");
    let s1 = Cow::from("あいう");
    let s2 = "あいく";
    assert_eq!(str_common_prefix(s1, s2), "あい");
    let s1 = Cow::from("あいう".to_string());
    let s2 = "あいく";
    assert_eq!(str_common_prefix(s1, s2), "あい");
}

#[test]
fn test_str_common_suffix() {
    let s1 = Cow::from("abc");
    let s2 = "pbc";
    assert_eq!(str_common_suffix(s1, s2), "bc");
    let s1 = Cow::from("abc".to_string());
    let s2 = "pbc";
    assert_eq!(str_common_suffix(s1, s2), "bc");
    let s1 = Cow::from("あいう");
    let s2 = "かいう";
    assert_eq!(str_common_suffix(s1, s2), "いう");
    let s1 = Cow::from("あいう".to_string());
    let s2 = "かいう";
    assert_eq!(str_common_suffix(s1, s2), "いう");
}

#[test]
fn join_puts_a_separator_between_neighbours_only() {
    let items: Vec<String> = ["", "a", "", "b", ""].iter().map(|s| s.to_string()).collect();
    assert_eq!(join_separated(&items, '/'), "/a//b/");
    assert_eq!(join_separated(&["".to_string()], '/'), "");
    assert_eq!(join_separated(&["".to_string(), "".to_string()], '/'), "/");
}

#[test]
fn join_then_cut_gives_the_segments_back() {
    let items: Vec<String> = ["", "usr", "lib", "x.so"].iter().map(|s| s.to_string()).collect();
    let joined = join_separated(&items, '/');
    assert_eq!(joined, "/usr/lib/x.so");
    let cut: Vec<String> = joined.split('/').map(String::from).collect();
    assert_eq!(cut, items);
    assert_eq!(join_separated(&cut, '/'), joined);
}

#[test]
fn common_prefix_and_suffix_at_the_limits() {
    let prefix = |a: &'static str, b: &str| str_common_prefix(Cow::from(a), b);
    let suffix = |a: &'static str, b: &str| str_common_suffix(Cow::from(a), b);
    assert_eq!(prefix("", "abc"), "");
    assert_eq!(prefix("abc", ""), "");
    assert_eq!(prefix("abc", "abc"), "abc");
    assert_eq!(prefix("abc", "abcd"), "abc");
    assert_eq!(prefix("xbc", "abc"), "");
    assert_eq!(suffix("", "abc"), "");
    assert_eq!(suffix("abc", ""), "");
    assert_eq!(suffix("abc", "abc"), "abc");
    assert_eq!(suffix("abc", "xabc"), "abc");
    assert_eq!(suffix("abx", "abc"), "");
    // Two characters whose encodings share bytes are still different.
    assert_eq!(prefix("あ", "い"), "");
    assert_eq!(suffix("あ", "ま"), "");
}

#[test]
fn common_prefix_borrows_from_what_is_borrowed() {
    let whole = "abcdef".to_string();
    assert!(matches!(str_common_prefix(Cow::from(whole.as_str()), "abx"), Cow::Borrowed("ab")));
    assert!(matches!(str_common_suffix(Cow::from(whole.as_str()), "xef"), Cow::Borrowed("ef")));
    assert!(matches!(str_common_prefix(Cow::from(whole.clone()), "abx"), Cow::Owned(_)));
    assert!(matches!(str_common_suffix(Cow::from(whole), "xef"), Cow::Owned(_)));
}

#[test]
fn stem_is_what_stands_before_the_last_dot() {
    assert_eq!(stem_of("a.txt"), "a");
    assert_eq!(stem_of("a.tar.gz"), "a.tar");
    assert_eq!(stem_of("a"), "a");
    assert_eq!(stem_of(""), "");
    assert_eq!(stem_of(".bashrc"), ".bashrc");
    assert_eq!(stem_of(".bashrc.bak"), ".bashrc");
    assert_eq!(stem_of("a."), "a");
    assert_eq!(stem_of(".."), "..");
    assert_eq!(stem_of("..."), "..");
    assert_eq!(stem_of("."), ".");
    assert_eq!(stem_of("あ.い"), "あ");
}

#[test]
fn replace_changes_every_occurrence() {
    assert_eq!(replace("cat/${DIR}", "${DIR}", "a/b"), "cat/a/b");
    assert_eq!(replace("${DIR}${DIR}", "${DIR}", "x"), "xx");
    assert_eq!(replace("no placeholder", "${DIR}", "x"), "no placeholder");
    assert_eq!(replace("${DIR", "${DIR}", "x"), "${DIR");
    assert_eq!(replace("$${DIR}}", "${DIR}", ""), "$}");
    assert_eq!(replace("aaa", "aa", "b"), "ba");
    assert_eq!(replace("abc", "", "x"), "abc");
    assert_eq!(replace("", "${DIR}", "x"), "");
    assert_eq!(replace("${DIR}", "${DIR}", "${DIR}"), "${DIR}");
}
