use wc_rs::count::{CountFlags, Counts};
use wc_rs::reader::count_reader;

fn count_str(s: &str, flags: CountFlags) -> Counts {
    let chunks = if s.is_empty() { vec![] } else { vec![s.as_bytes().to_vec()] };
    count_reader(&chunks, flags)
}

fn all_flags() -> CountFlags {
    CountFlags { lines: true, words: true, bytes: true, chars: true, max_line_len: true }
}

fn chars_only() -> CountFlags {
    CountFlags { lines: false, words: false, bytes: false, chars: true, max_line_len: false }
}

#[test]
fn empty() {
    let c = count_str("", all_flags());
    assert_eq!((c.lines, c.words, c.bytes, c.chars, c.max_line_len), (0, 0, 0, 0, 0));
}

#[test]
fn single_line_no_newline() {
    let c = count_str("hello world", all_flags());
    assert_eq!((c.lines, c.words, c.bytes, c.chars, c.max_line_len), (0, 2, 11, 11, 11));
}

#[test]
fn single_line_with_newline() {
    let c = count_str("hello world\n", all_flags());
    assert_eq!((c.lines, c.words, c.bytes, c.chars, c.max_line_len), (1, 2, 12, 12, 11));
}

#[test]
fn multiple_lines() {
    let c = count_str("one\ntwo three\nfour\n", all_flags());
    assert_eq!(c.lines, 3);
    assert_eq!(c.words, 4);
    assert_eq!(c.bytes, 19);
}

#[test]
fn utf8_chars() {
    let c = count_str("cafe\u{0301}\n", all_flags());
    assert_eq!((c.lines, c.words, c.bytes, c.chars), (1, 1, 7, 6));
}

#[test]
fn whitespace_variants() {
    let c = count_str("a\tb\x0bc\x0cd\re\n", all_flags());
    assert_eq!(c.words, 5);
}

#[test]
fn control_chars_not_words() {
    let c = count_str("\x01\x02\x03", all_flags());
    assert_eq!(c.words, 0);
}

#[test]
fn control_chars_dont_split_words() {
    let c = count_str("\x01hello\x02world\x01", all_flags());
    assert_eq!(c.words, 1);
}

#[test]
fn chars_only_via_reader() {
    let c = count_str("hello\n", chars_only());
    assert_eq!(c.chars, 6);
}

#[test]
fn combining_mark_display_width() {
    let c = count_str("a\u{0301}\n", all_flags());
    assert_eq!(c.max_line_len, 1); // combining accent is width 0
}

#[test]
fn wide_char_display_width() {
    let c = count_str("\u{754C}\n", all_flags()); // 界 is width 2
    assert_eq!(c.max_line_len, 2);
}
