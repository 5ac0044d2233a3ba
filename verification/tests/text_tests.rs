use mao::text::{find, matches_at, replace_first, strip_line_end, to_chars};

fn chars(s: &str) -> Vec<char> {
    s.chars().collect()
}

#[test]
fn to_chars_keeps_every_character_in_order() {
    assert_eq!(to_chars("abc"), vec!['a', 'b', 'c']);
    assert_eq!(to_chars(""), Vec::<char>::new());
    assert_eq!(to_chars("h\u{e9}llo \u{1f600}"), vec!['h', '\u{e9}', 'l', 'l', 'o', ' ', '\u{1f600}']);
}

#[test]
fn matches_at_tests_one_position() {
    let text = chars("abcabc");
    let pat = chars("bc");
    assert!(!matches_at(&text, &pat, 0));
    assert!(matches_at(&text, &pat, 1));
    assert!(!matches_at(&text, &pat, 2));
    assert!(matches_at(&text, &pat, 4));
    assert!(!matches_at(&text, &pat, 5));
    assert!(!matches_at(&text, &pat, 6));
    assert!(!matches_at(&text, &pat, 100));
}

#[test]
fn matches_at_with_empty_pattern_holds_up_to_the_end() {
    let text = chars("ab");
    let pat = chars("");
    assert!(matches_at(&text, &pat, 0));
    assert!(matches_at(&text, &pat, 2));
    assert!(!matches_at(&text, &pat, 3));
}

#[test]
fn matches_at_refuses_a_pattern_longer_than_the_text() {
    assert!(!matches_at(&chars("ab"), &chars("abc"), 0));
}

#[test]
fn find_returns_the_leftmost_occurrence() {
    assert_eq!(find(&chars("xxabxxab"), &chars("ab")), Some(2));
    assert_eq!(find(&chars("ab"), &chars("ab")), Some(0));
    assert_eq!(find(&chars("xxab"), &chars("ab")), Some(2));
    assert_eq!(find(&chars("aaa"), &chars("aa")), Some(0));
}

#[test]
fn find_returns_none_where_the_pattern_is_absent() {
    assert_eq!(find(&chars("xxabxx"), &chars("ba")), None);
    assert_eq!(find(&chars("ab"), &chars("abc")), None);
    assert_eq!(find(&chars(""), &chars("a")), None);
}

#[test]
fn find_places_the_empty_pattern_at_the_start() {
    assert_eq!(find(&chars("abc"), &chars("")), Some(0));
    assert_eq!(find(&chars(""), &chars("")), Some(0));
}

#[test]
fn replace_first_rewrites_only_the_leftmost_occurrence() {
    assert_eq!(replace_first("aaa", "a", "b"), Some("baa".to_string()));
    assert_eq!(replace_first("xxabxxab", "ab", "-"), Some("xx-xxab".to_string()));
    assert_eq!(replace_first("abcabc", "bc", "12345"), Some("a12345abc".to_string()));
}

#[test]
fn replace_first_can_delete_and_can_work_at_the_end() {
    assert_eq!(replace_first("hello", "llo", ""), Some("he".to_string()));
    assert_eq!(replace_first("hello", "o", "p!"), Some("hellp!".to_string()));
    assert_eq!(replace_first("hello", "hello", ""), Some("".to_string()));
}

#[test]
fn replace_first_takes_the_first_of_overlapping_occurrences() {
    assert_eq!(replace_first("aaa", "aa", "X"), Some("Xa".to_string()));
}

#[test]
fn replace_first_returns_none_where_the_pattern_is_absent() {
    assert_eq!(replace_first("hello", "world", "x"), None);
    assert_eq!(replace_first("", "a", "x"), None);
    assert_eq!(replace_first("ab", "abc", "x"), None);
}

#[test]
fn replace_first_counts_characters_not_bytes() {
    assert_eq!(
        replace_first("h\u{e9}llo w\u{f6}rld", "w\u{f6}", "W\u{d6}"),
        Some("h\u{e9}llo W\u{d6}rld".to_string())
    );
    assert_eq!(replace_first("\u{1f600}a\u{1f600}a", "a", "\u{e9}"), Some("\u{1f600}\u{e9}\u{1f600}a".to_string()));
}

#[test]
fn replace_first_with_empty_pattern_inserts_at_the_start() {
    assert_eq!(replace_first("abc", "", "x"), Some("xabc".to_string()));
}

#[test]
fn strip_line_end_takes_off_one_line_terminator() {
    assert_eq!(strip_line_end("abc\n"), "abc");
    assert_eq!(strip_line_end("abc\r\n"), "abc");
    assert_eq!(strip_line_end("abc"), "abc");
    assert_eq!(strip_line_end("\n"), "");
    assert_eq!(strip_line_end("\r\n"), "");
    assert_eq!(strip_line_end(""), "");
}

#[test]
fn strip_line_end_keeps_everything_else() {
    assert_eq!(strip_line_end("abc  \n"), "abc  ");
    assert_eq!(strip_line_end("abc\n\n"), "abc\n");
    assert_eq!(strip_line_end("abc\r"), "abc\r");
    assert_eq!(strip_line_end("a\nb"), "a\nb");
    assert_eq!(strip_line_end("\u{e9}t\u{e9}\t\r\n"), "\u{e9}t\u{e9}\t");
}
