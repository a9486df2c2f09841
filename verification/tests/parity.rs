//! The report lines for one file, as `wc` prints them for each flag set.
use wc_rs::count::{count_bytes, CountFlags};
use wc_rs::reader::count_reader;
use wc_rs::report::{choose_source, compute_field_width, format_counts, CountSource, InputSize};

const NAME: &str = "input.txt";

fn flags_of(args: &[&str]) -> CountFlags {
    let mut f = CountFlags { lines: false, words: false, bytes: false, chars: false, max_line_len: false };
    for a in args {
        for ch in a.chars().skip(1) {
            match ch {
                'l' => f.lines = true,
                'w' => f.words = true,
                'c' => f.bytes = true,
                'm' => f.chars = true,
                'L' => f.max_line_len = true,
                _ => panic!("unknown flag {}", ch),
            }
        }
    }
    f
}

/// The report for one regular file holding `content`, counted as the
/// program counts a named file.
fn report(content: &[u8], args: &[&str]) -> String {
    let flags = flags_of(args);
    let display = flags.default_if_none();
    let width = compute_field_width(&vec![InputSize::Sized(content.len() as u64)], &display);
    let counts = match choose_source(flags, true, content.len() as u64) {
        CountSource::Metadata(c) => c,
        CountSource::Mapped => count_bytes(content, flags),
        CountSource::Streamed => {
            let chunks = if content.is_empty() { vec![] } else { vec![content.to_vec()] };
            count_reader(&chunks, flags)
        }
    };
    String::from_utf8(format_counts(&counts, &display, width, Some(NAME))).unwrap()
}

fn assert_reports(content: &[u8], cases: &[(&[&str], &str)]) {
    for (args, expected) in cases {
        assert_eq!(report(content, args), format!("{} {}\n", expected, NAME), "flags {:?}", args);
    }
}

#[test]
fn parity_empty_file() {
    assert_reports(
        b"",
        &[
            (&[], "0 0 0"),
            (&["-l"], "0"),
            (&["-w"], "0"),
            (&["-c"], "0"),
            (&["-m"], "0"),
            (&["-L"], "0"),
            (&["-lwc"], "0 0 0"),
        ],
    );
}

#[test]
fn parity_single_line() {
    assert_reports(
        b"hello world\n",
        &[
            (&[], " 1  2 12"),
            (&["-l"], "1"),
            (&["-w"], "2"),
            (&["-c"], "12"),
            (&["-m"], "12"),
            (&["-L"], "11"),
        ],
    );
}

#[test]
fn parity_no_trailing_newline() {
    assert_reports(
        b"hello world",
        &[
            (&[], " 0  2 11"),
            (&["-l"], "0"),
            (&["-w"], "2"),
            (&["-c"], "11"),
            (&["-m"], "11"),
            (&["-L"], "11"),
        ],
    );
}

#[test]
fn parity_multiple_lines() {
    assert_reports(
        b"one\ntwo three\nfour\n",
        &[
            (&[], " 3  4 19"),
            (&["-l"], "3"),
            (&["-w"], "4"),
            (&["-c"], "19"),
            (&["-lwc"], " 3  4 19"),
        ],
    );
}

#[test]
fn parity_whitespace_heavy() {
    assert_reports(
        b"  hello   world  \n\n  foo\tbar  \n",
        &[
            (&[], " 3  4 31"),
            (&["-l"], "3"),
            (&["-w"], "4"),
            (&["-c"], "31"),
            (&["-L"], "17"),
        ],
    );
}

#[test]
fn parity_tabs() {
    assert_reports(b"\thello\t\tworld\n", &[(&[], " 1  2 14"), (&["-L"], "29")]);
}

#[test]
fn parity_only_newlines() {
    assert_reports(
        b"\n\n\n\n\n",
        &[(&[], "5 0 5"), (&["-l"], "5"), (&["-w"], "0"), (&["-c"], "5")],
    );
}

#[test]
fn parity_only_spaces() {
    assert_reports(
        b"     ",
        &[(&[], "0 0 5"), (&["-l"], "0"), (&["-w"], "0"), (&["-c"], "5"), (&["-L"], "5")],
    );
}

#[test]
fn parity_binary_ish() {
    assert_reports(
        &[0, 1, 2, 10, 255, 128, 10, 65, 66, 67],
        &[(&[], " 2  1 10"), (&["-l"], "2"), (&["-w"], "1"), (&["-c"], "10")],
    );
}

#[test]
fn parity_large_line() {
    let mut data = vec![b'x'; 10000];
    data.push(b'\n');
    assert_reports(&data, &[(&[], "    1     1 10001"), (&["-L"], "10000")]);
}

#[test]
fn parity_utf8() {
    assert_reports(
        "caf\u{e9} na\u{ef}ve\n".as_bytes(),
        &[(&[], " 1  2 13"), (&["-m"], "11"), (&["-c"], "13"), (&["-L"], "10")],
    );
}
