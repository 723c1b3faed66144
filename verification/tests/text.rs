use aideon_tools::text::{
    join, ends_with, from_chars, is_blank, split_once, starts_with, str_eq, str_lt,
    strip_prefix, strip_suffix, to_chars, trim,
};

#[test]
fn order_of_texts_is_that_of_their_bytes() {
    assert!(str_lt("a", "b"));
    assert!(str_lt("a", "ab"));
    assert!(str_lt("", "a"));
    assert!(!str_lt("a", "a"));
    assert!(!str_lt("b", "a"));
    assert!(str_lt("Z", "a"));
    assert!(str_lt("z", "é"));
    assert!(str_lt("é", "日"));
    assert_eq!(str_lt("ex:10", "ex:9"), "ex:10" < "ex:9");
}

#[test]
fn equality_of_texts() {
    assert!(str_eq("", ""));
    assert!(str_eq("naïve", "naïve"));
    assert!(!str_eq("a", "A"));
    assert!(!str_eq("a", "ab"));
}

#[test]
fn characters_round_trip() {
    let chars = to_chars("a日b");
    assert_eq!(chars, vec!['a', '日', 'b']);
    assert_eq!(from_chars(&chars), "a日b");
    assert_eq!(join("ab", "cd"), "abcd");
}

#[test]
fn prefixes_and_suffixes() {
    assert!(starts_with("_:b0", "_:"));
    assert!(!starts_with("_", "_:"));
    assert!(ends_with("knowsId", "Id"));
    assert!(!ends_with("d", "Id"));
    assert_eq!(strip_prefix("_:b0", "_:"), Some("b0".to_string()));
    assert_eq!(strip_prefix("b0", "_:"), None);
    assert_eq!(strip_suffix("knowsId", "Id"), Some("knows".to_string()));
    assert_eq!(strip_suffix("Id", "Id"), Some(String::new()));
    assert_eq!(strip_suffix("name", "Id"), None);
}

#[test]
fn split_at_the_first_separator() {
    assert_eq!(split_once("ex:a:b", ':'), Some(("ex".to_string(), "a:b".to_string())));
    assert_eq!(split_once(":x", ':'), Some((String::new(), "x".to_string())));
    assert_eq!(split_once("plain", ':'), None);
}

#[test]
fn trimming_white_space() {
    assert_eq!(trim("  a b \t\n"), "a b");
    assert_eq!(trim("\u{a0}x\u{3000}"), "x");
    assert_eq!(trim("   "), "");
    assert_eq!(trim("_ _"), "_ _");
    assert!(is_blank(" \t "));
    assert!(is_blank(""));
    assert!(!is_blank(" 0 "));
}
