use textworld::text::{aan, str_eq, str_starts_with, trim_str, usize_to_string};

#[test]
fn aan_empty_glance_stays_empty() {
    assert_eq!(aan(""), "");
}

#[test]
fn aan_vowel_takes_an() {
    assert_eq!(aan("apple"), "an apple");
    assert_eq!(aan("oboe"), "an oboe");
    assert_eq!(aan("item"), "an item");
}

#[test]
fn aan_consonant_takes_a() {
    assert_eq!(aan("key"), "a key");
    assert_eq!(aan("table"), "a table");
}

#[test]
fn decimal_rendering_exact() {
    assert_eq!(usize_to_string(0), "0");
    assert_eq!(usize_to_string(7), "7");
    assert_eq!(usize_to_string(10), "10");
    assert_eq!(usize_to_string(105), "105");
    assert_eq!(usize_to_string(99380), "99380");
}

#[test]
fn prefix_test_is_case_sensitive() {
    assert!(str_starts_with("cabinet", "cab"));
    assert!(str_starts_with("cabinet", ""));
    assert!(str_starts_with("cabinet", "cabinet"));
    assert!(!str_starts_with("cabinet", "Cab"));
    assert!(!str_starts_with("cab", "cabinet"));
}

#[test]
fn string_equality() {
    assert!(str_eq("look", "look"));
    assert!(!str_eq("look", "look "));
    assert!(!str_eq("", "a"));
    assert!(str_eq("", ""));
}

#[test]
fn trimming_blanks() {
    assert_eq!(trim_str("  hello \n"), "hello");
    assert_eq!(trim_str("hello"), "hello");
    assert_eq!(trim_str(" \t \r\n"), "");
    assert_eq!(trim_str(""), "");
    assert_eq!(trim_str("a b"), "a b");
}
