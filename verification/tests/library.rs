use wc_rs::count::{
    count_bytes, count_chars_scalar, count_words_scalar, decode_char_at, max_line_width_of,
    CountFlags, Counts,
};
use wc_rs::reader::{count_reader, ReaderCounter};
use wc_rs::report::{
    choose_source, compute_field_width, format_counts, number_width, CountSource, InputSize,
};

fn flags(lines: bool, words: bool, bytes: bool, chars: bool, max_line_len: bool) -> CountFlags {
    CountFlags { lines, words, bytes, chars, max_line_len }
}

fn all() -> CountFlags {
    flags(true, true, true, true, true)
}

fn none() -> CountFlags {
    flags(false, false, false, false, false)
}

fn tuple(c: &Counts) -> (u64, u64, u64, u64, u64) {
    (c.lines, c.words, c.bytes, c.chars, c.max_line_len)
}

#[test]
fn decode_ascii_and_valid_sequences() {
    assert_eq!(decode_char_at(b"A", 0), (Some('A'), 1));
    assert_eq!(decode_char_at("é".as_bytes(), 0), (Some('é'), 2));
    assert_eq!(decode_char_at("界".as_bytes(), 0), (Some('界'), 3));
    assert_eq!(decode_char_at("😀".as_bytes(), 0), (Some('😀'), 4));
    assert_eq!(decode_char_at("x界".as_bytes(), 1), (Some('界'), 3));
}

#[test]
fn decode_malformed_sequences() {
    // not a lead byte
    assert_eq!(decode_char_at(&[0x80], 0), (None, 1));
    assert_eq!(decode_char_at(&[0xFF, 0x80], 0), (None, 1));
    assert_eq!(decode_char_at(&[0xC1, 0x80], 0), (None, 1));
    // cut short by the end of the buffer
    assert_eq!(decode_char_at(&[0xE7, 0x95], 0), (None, 1));
    // broken by a byte that is not a continuation byte
    assert_eq!(decode_char_at(&[0xC3, 0x41], 0), (None, 1));
    assert_eq!(decode_char_at(&[0xE2, 0x82, 0x41], 0), (None, 2));
    // a surrogate is no character, but the whole sequence is consumed
    assert_eq!(decode_char_at(&[0xED, 0xA0, 0x80], 0), (None, 3));
    // above U+10FFFF
    assert_eq!(decode_char_at(&[0xF4, 0x90, 0x80, 0x80], 0), (None, 4));
}

#[test]
fn line_width_rules() {
    assert_eq!(max_line_width_of(b""), 0);
    assert_eq!(max_line_width_of(b"abc"), 3);
    assert_eq!(max_line_width_of(b"ab\ncdef\ng"), 4);
    assert_eq!(max_line_width_of(b"\t"), 8);
    assert_eq!(max_line_width_of(b"abc\tx"), 9);
    assert_eq!(max_line_width_of(b"abcdefgh\t"), 16);
    assert_eq!(max_line_width_of(b"abcdef\rxy"), 6);
    assert_eq!(max_line_width_of(b"abc\r\n"), 3);
    assert_eq!(max_line_width_of(b"ab\rabcde"), 5);
    assert_eq!(max_line_width_of(b"abcd\x0cxy"), 4);
    assert_eq!(max_line_width_of(b"a\x7fb"), 2);
    assert_eq!(max_line_width_of(b"\t\t"), 16);
    assert_eq!(max_line_width_of(b"ab\x01\x02cd"), 4);
    assert_eq!(max_line_width_of("界界".as_bytes()), 4);
    assert_eq!(max_line_width_of("e\u{301}".as_bytes()), 1);
    // C1 control characters and malformed bytes take no columns
    assert_eq!(max_line_width_of(&[0xC2, 0x85, b'a', 0xFF]), 1);
}

#[test]
fn word_and_char_counts() {
    assert_eq!(count_words_scalar(b""), 0);
    assert_eq!(count_words_scalar(b"  one two\tthree\n"), 3);
    assert_eq!(count_words_scalar(b"a\x01b"), 1);
    assert_eq!(count_words_scalar(&[0x80, 0x81]), 0);
    assert_eq!(count_words_scalar("é è".as_bytes()), 2);
    assert_eq!(count_words_scalar(b"\x7f"), 0);
    assert_eq!(count_chars_scalar("héllo".as_bytes()), 5);
    assert_eq!(count_chars_scalar(&[0xFF]), 1);
    assert_eq!(count_chars_scalar(&[0x80, 0xBF]), 0);
}

#[test]
fn count_bytes_by_flags() {
    let data = "a b\tc\nd\u{754C}\n".as_bytes();
    assert_eq!(tuple(&count_bytes(data, none())), (2, 4, 11, 0, 0));
    assert_eq!(tuple(&count_bytes(data, all())), (2, 4, 11, 9, 9));
    assert_eq!(tuple(&count_bytes(data, flags(true, false, false, false, false))), (2, 0, 11, 0, 0));
    assert_eq!(tuple(&count_bytes(data, flags(false, false, false, true, false))), (2, 0, 11, 9, 0));
    assert_eq!(tuple(&count_bytes(data, flags(false, true, false, true, false))), (2, 4, 11, 9, 0));
    assert_eq!(tuple(&count_bytes(data, flags(false, false, false, false, true))), (2, 0, 11, 0, 9));
}

#[test]
fn tabs_and_returns_are_characters() {
    let c = count_reader(&vec![b"a\tb\r\n".to_vec()], all());
    assert_eq!(c.chars, 5);
    assert_eq!(count_bytes(b"a\tb\r\n", all()).chars, 5);
}

#[test]
fn reader_agrees_with_buffer_for_any_split() {
    let data = "one tw\u{e9}o\n\tthree  four\r\nfi\u{754C}ve\n".as_bytes();
    let whole = count_bytes(data, all());
    for cut in 0..=data.len() {
        let chunks = vec![data[..cut].to_vec(), data[cut..].to_vec()];
        assert_eq!(tuple(&count_reader(&chunks, all())), tuple(&whole));
    }
    for a in 0..=data.len() {
        for b in a..=data.len() {
            let chunks = vec![data[..a].to_vec(), data[a..b].to_vec(), data[b..].to_vec()];
            assert_eq!(tuple(&count_reader(&chunks, all())), tuple(&whole));
        }
    }
    assert_eq!(tuple(&count_reader(&vec![data.to_vec()], all())), tuple(&whole));
}

#[test]
fn reader_width_across_chunks() {
    let data = "\u{754C}\n".as_bytes();
    let split = vec![data[..1].to_vec(), data[1..].to_vec()];
    assert_eq!(count_reader(&split, all()).max_line_len, 2);
    let bytewise: Vec<Vec<u8>> = data.iter().map(|b| vec![*b]).collect();
    assert_eq!(count_reader(&bytewise, all()).max_line_len, 2);
    // a sequence cut short at the very end takes no columns
    assert_eq!(count_reader(&vec![vec![b'a', 0xE7], vec![0x95]], all()).max_line_len, 1);
    // a cut-short sequence followed by ASCII in the next chunk
    assert_eq!(count_reader(&vec![vec![0xE7], vec![b'a', b'b']], all()).max_line_len, 2);
    assert_eq!(count_reader(&vec![data.to_vec()], all()).max_line_len, 2);
}

#[test]
fn reader_counter_feeds() {
    let mut st = ReaderCounter::new(flags(true, true, false, false, false));
    assert!(st.can_feed(1024));
    st.feed(b"hello wo");
    st.feed(b"rld\nagain");
    let c = st.finish();
    assert_eq!(tuple(&c), (1, 3, 17, 0, 0));
    let empty = ReaderCounter::new(none()).finish();
    assert_eq!(tuple(&empty), (0, 0, 0, 0, 0));
}

#[test]
fn counts_add_sums_and_keeps_max() {
    let mut a = Counts { lines: 1, words: 2, bytes: 3, chars: 4, max_line_len: 10 };
    let b = Counts { lines: 10, words: 20, bytes: 30, chars: 40, max_line_len: 5 };
    assert!(a.can_add(&b));
    a.add(&b);
    assert_eq!(tuple(&a), (11, 22, 33, 44, 10));
    let c = Counts { lines: 0, words: 0, bytes: 0, chars: 0, max_line_len: 12 };
    a.add(&c);
    assert_eq!(a.max_line_len, 12);
    let big = Counts { lines: u64::MAX, words: 0, bytes: 0, chars: 0, max_line_len: 0 };
    assert!(!a.can_add(&big));
    assert_eq!(tuple(&Counts::default()), (0, 0, 0, 0, 0));
}

#[test]
fn default_flags() {
    let d = none().default_if_none();
    assert!(d.lines && d.words && d.bytes && !d.chars && !d.max_line_len);
    let m = flags(false, false, false, true, false).default_if_none();
    assert!(!m.lines && !m.words && !m.bytes && m.chars && !m.max_line_len);
    assert!(d.needs_words() && !d.needs_chars() && !d.needs_max_line_len());
}

#[test]
fn number_widths() {
    assert_eq!(number_width(0), 1);
    assert_eq!(number_width(9), 1);
    assert_eq!(number_width(10), 2);
    assert_eq!(number_width(12345), 5);
    assert_eq!(number_width(u64::MAX), 20);
}

#[test]
fn report_lines() {
    let c = Counts { lines: 3, words: 45, bytes: 678, chars: 9, max_line_len: 12 };
    let line = |f: CountFlags, w: usize, n: Option<&str>| String::from_utf8(format_counts(&c, &f, w, n)).unwrap();
    assert_eq!(line(all(), 3, Some("f")), "  3  45   9 678  12 f\n");
    assert_eq!(line(flags(true, true, true, false, false), 1, None), "3 45 678\n");
    assert_eq!(line(flags(false, false, true, false, false), 7, Some("total")), "    678 total\n");
    assert_eq!(line(none(), 2, Some("x")), " x\n");
}

#[test]
fn field_widths() {
    let lwc = flags(true, true, true, false, false);
    assert_eq!(compute_field_width(&vec![], &lwc), 7);
    assert_eq!(compute_field_width(&vec![InputSize::Sized(5)], &flags(true, false, false, false, false)), 1);
    assert_eq!(compute_field_width(&vec![InputSize::Sized(5), InputSize::Stdin], &lwc), 7);
    assert_eq!(compute_field_width(&vec![InputSize::Sized(99), InputSize::Sized(1)], &lwc), 3);
    assert_eq!(compute_field_width(&vec![InputSize::Unknown, InputSize::Sized(12345)], &lwc), 5);
    assert_eq!(compute_field_width(&vec![InputSize::Unknown], &flags(false, false, false, true, false)), 1);
}

#[test]
fn count_sources() {
    let bytes_only = flags(false, false, true, false, false);
    match choose_source(bytes_only, true, 42) {
        CountSource::Metadata(c) => assert_eq!(tuple(&c), (0, 0, 42, 0, 0)),
        _ => panic!("expected the size to be the count"),
    }
    assert!(matches!(choose_source(bytes_only, false, 0), CountSource::Streamed));
    assert!(matches!(choose_source(none(), true, 10), CountSource::Mapped));
    assert!(matches!(choose_source(none(), true, 0), CountSource::Streamed));
    assert!(matches!(choose_source(all(), false, 10), CountSource::Streamed));
}

#[test]
fn chars_of_valid_utf8_are_characters() {
    let s = "Grüße, 世界! 😀\n";
    assert_eq!(count_chars_scalar(s.as_bytes()), s.chars().count() as u64);
}

#[test]
fn concatenation_adds_lines_bytes_chars() {
    let a = "one\ntwö\n".as_bytes();
    let b = "thrée\nfour".as_bytes();
    let ab = [a, b].concat();
    let (ca, cb, cab) = (count_bytes(a, all()), count_bytes(b, all()), count_bytes(&ab, all()));
    assert_eq!(cab.lines, ca.lines + cb.lines);
    assert_eq!(cab.bytes, ca.bytes + cb.bytes);
    assert_eq!(cab.chars, ca.chars + cb.chars);
}

#[test]
fn counts_are_bounded() {
    let data = "é a\x01b \n\u{754C}".as_bytes();
    let c = count_bytes(data, all());
    assert!(c.words <= c.chars && c.chars <= c.bytes && c.lines <= c.bytes);
}

#[test]
fn concatenation_words_differ_by_at_most_one() {
    let cases: [(&[u8], &[u8]); 4] = [
        (b"one tw", b"o three"),
        (b"one two ", b"three"),
        (b"one\n", b"\x01two"),
        (b"", b"x"),
    ];
    for (a, b) in cases {
        let ab = [a, b].concat();
        let sum = count_words_scalar(a) + count_words_scalar(b);
        let joined = count_words_scalar(&ab);
        assert!(joined <= sum && sum <= joined + 1);
    }
    assert_eq!(count_words_scalar(b"one tw") + count_words_scalar(b"o three"), 4);
    assert_eq!(count_words_scalar(b"one two three"), 3);
}

#[test]
fn widest_line_of_joined_texts() {
    let parts: [&[u8]; 4] = [b"abc", b"\tx", "\u{754C}\u{754C}\u{754C}".as_bytes(), &[b'a', 0xE7]];
    for a in parts {
        for b in parts {
            let joined = [a, &b"\n"[..], b].concat();
            let expected = max_line_width_of(a).max(max_line_width_of(b));
            assert_eq!(max_line_width_of(&joined), expected);
        }
    }
}

#[test]
fn decoding_encoded_characters() {
    for c in ['\0', 'z', '\u{7f}', '\u{80}', '\u{7ff}', '\u{800}', '\u{754C}', '\u{ffff}', '\u{10000}', '\u{10ffff}'] {
        let mut buf = [0u8; 4];
        let enc = c.encode_utf8(&mut buf).as_bytes().to_vec();
        let mut data = vec![b'#'];
        data.extend_from_slice(&enc);
        data.push(b'#');
        assert_eq!(decode_char_at(&data, 1), (Some(c), enc.len()));
    }
}

#[test]
fn width_is_at_most_eight_per_byte() {
    for data in [&b"\t\t\t"[..], &b"a\tb"[..], "\u{17D8}".as_bytes(), &b""[..]] {
        assert!(max_line_width_of(data) <= 8 * data.len() as u64);
    }
}
