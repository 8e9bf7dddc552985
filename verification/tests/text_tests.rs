use rustybackup::text::{chars_of, contains_text, number_text, parse_number, same_text, string_of};
use rustybackup::utils::normalize_path;

#[test]
fn numbers_are_written_in_decimal() {
    assert_eq!(number_text(0), "0");
    assert_eq!(number_text(7), "7");
    assert_eq!(number_text(10), "10");
    assert_eq!(number_text(1204), "1204");
    assert_eq!(number_text(u64::MAX), "18446744073709551615");
}

#[test]
fn numerals_are_read_back() {
    assert_eq!(parse_number("0"), Some(0));
    assert_eq!(parse_number("42"), Some(42));
    assert_eq!(parse_number("+42"), Some(42));
    assert_eq!(parse_number("007"), Some(7));
    assert_eq!(parse_number("18446744073709551615"), Some(u64::MAX));
}

#[test]
fn what_is_no_numeral_reads_as_nothing() {
    assert_eq!(parse_number(""), None);
    assert_eq!(parse_number("+"), None);
    assert_eq!(parse_number("-1"), None);
    assert_eq!(parse_number("abc123"), None);
    assert_eq!(parse_number("12 "), None);
    assert_eq!(parse_number(" 12"), None);
    assert_eq!(parse_number("1+2"), None);
    assert_eq!(parse_number("18446744073709551616"), None);
    assert_eq!(parse_number("99999999999999999999999"), None);
    assert_eq!(parse_number("\u{0663}"), None);
}

#[test]
fn written_numbers_read_back_as_themselves() {
    for n in [0u64, 1, 9, 10, 99, 100, 12345, 1 << 32, u64::MAX - 1, u64::MAX] {
        assert_eq!(parse_number(&number_text(n)), Some(n));
    }
}

#[test]
fn strings_and_characters_convert_both_ways() {
    let chars = chars_of("a/ä\\𝄞");
    assert_eq!(chars, vec!['a', '/', 'ä', '\\', '𝄞']);
    assert_eq!(string_of(&chars), "a/ä\\𝄞");
    assert_eq!(string_of(&Vec::new()), "");
}

#[test]
fn texts_compare_by_their_characters() {
    assert!(same_text("in_progress", "in_progress"));
    assert!(!same_text("in_progress", "in_progres"));
    assert!(!same_text("a", "b"));
    assert!(same_text("", ""));
    let list = vec!["a".to_string(), "b/c".to_string()];
    assert!(contains_text(&list, &"b/c".to_string()));
    assert!(!contains_text(&list, &"c".to_string()));
    assert!(!contains_text(&Vec::new(), &"a".to_string()));
}

#[test]
fn backslashes_become_slashes() {
    assert_eq!(normalize_path("C:\\Data\\a.txt"), "C:/Data/a.txt");
    assert_eq!(normalize_path("a/b\\c"), "a/b/c");
    assert_eq!(normalize_path("plain"), "plain");
    assert_eq!(normalize_path(""), "");
    assert_eq!(normalize_path(&normalize_path("x\\y")), "x/y");
}
