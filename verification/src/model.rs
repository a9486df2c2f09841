//! The mathematical model of what is counted: each count is a function of the
//! byte sequence read.
use vstd::prelude::*;
use crate::boundary::{occurrences, unicode_width};

verus! {

/// Inputs longer than this many bytes are outside what the display-width
/// count promises: a width grows by at most 8 columns per byte, and 8 times
/// this bound still fits a 64-bit counter.
pub const MAX_INPUT: u64 = 0x1FFF_FFFF_FFFF_FFFF;

/// Whitespace bytes: they end a word (tab, newline, vertical tab, form feed,
/// carriage return, space).
pub open spec fn is_blank(b: u8) -> bool {
    b == 9 || b == 10 || b == 11 || b == 12 || b == 13 || b == 32
}

/// Bytes that can begin a word: printable ASCII other than space, and the
/// lead bytes of multi-byte UTF-8 sequences.  Every other byte that is not
/// whitespace (control bytes, continuation bytes, invalid bytes) neither
/// begins nor ends a word.
pub open spec fn starts_word(b: u8) -> bool {
    (0x21 <= b && b <= 0x7E) || (0xC2 <= b && b <= 0xF4)
}

/// A byte that is not a UTF-8 continuation byte begins a character.
pub open spec fn is_continuation(b: u8) -> bool {
    0x80 <= b && b <= 0xBF
}

/// Number of newline bytes.
pub open spec fn line_count(s: Seq<u8>) -> nat {
    occurrences(s, 10u8)
}

/// Number of bytes that are not UTF-8 continuation bytes.
pub open spec fn char_count(s: Seq<u8>) -> nat
    decreases s.len(),
{
    if s.len() == 0 {
        0
    } else {
        char_count(s.drop_last()) + if is_continuation(s.last()) { 0nat } else { 1nat }
    }
}

/// One step of the word automaton: the state is (inside a word, words seen).
pub open spec fn word_step(st: (bool, nat), b: u8) -> (bool, nat) {
    if is_blank(b) {
        (false, st.1)
    } else if starts_word(b) && !st.0 {
        (true, st.1 + 1)
    } else {
        st
    }
}

/// The word automaton run over `s` from state `st`.
pub open spec fn word_scan(s: Seq<u8>, st: (bool, nat)) -> (bool, nat)
    decreases s.len(),
{
    if s.len() == 0 {
        st
    } else {
        word_step(word_scan(s.drop_last(), st), s.last())
    }
}

/// Number of words: maximal runs of non-whitespace bytes that hold at least
/// one byte that can begin a word.
pub open spec fn word_count(s: Seq<u8>) -> nat {
    word_scan(s, (false, 0)).1
}

/// Length of the UTF-8 sequence announced by a lead byte, or 0 for a byte
/// that is not a lead byte of a multi-byte sequence.
pub open spec fn sequence_len(b: u8) -> int {
    if 0xC2 <= b && b <= 0xDF {
        2
    } else if 0xE0 <= b && b <= 0xEF {
        3
    } else if 0xF0 <= b && b <= 0xF4 {
        4
    } else {
        0
    }
}

/// The code point bits carried by a lead byte.
pub open spec fn lead_bits(b: u8) -> u32 {
    if 0xC2 <= b && b <= 0xDF {
        (b % 32) as u32
    } else if 0xE0 <= b && b <= 0xEF {
        (b % 16) as u32
    } else {
        (b % 8) as u32
    }
}

/// Decoding of the continuation bytes `s[pos + j]`, ..., `s[pos + len - 1]`
/// with the code point bits `cp` gathered so far.
pub open spec fn decode_rest(s: Seq<u8>, pos: int, len: int, j: int, cp: u32) -> (Option<char>, int)
    decreases len - j,
{
    if j >= len {
        if vstd::utf8::is_scalar(cp) {
            (Some(cp as char), len)
        } else {
            (None, len)
        }
    } else if !is_continuation(s[pos + j]) {
        (None, j)
    } else {
        decode_rest(s, pos, len, j + 1, (cp * 64 + s[pos + j] % 64) as u32)
    }
}

/// Decoding of the character that starts at `s[pos]`: the character, if the
/// bytes form one, and how many bytes the decoder consumes.  An ASCII byte is
/// its own character; a byte that is not a lead byte, or a sequence cut short
/// by the end of `s`, consumes one byte; a sequence broken by a byte that is
/// not a continuation byte consumes the bytes before it; a complete sequence
/// consumes its length and gives a character when the value is a Unicode
/// scalar value.
pub open spec fn decode(s: Seq<u8>, pos: int) -> (Option<char>, int) {
    let b = s[pos];
    if b < 0x80 {
        (Some(b as char), 1)
    } else if sequence_len(b) == 0 || pos + sequence_len(b) > s.len() {
        (None, 1)
    } else {
        decode_rest(s, pos, sequence_len(b), 1, lead_bits(b))
    }
}

/// Columns that a decoded character takes: its display width, 0 for a
/// character that has none (a control character) and for bytes that decode
/// to no character.
pub open spec fn columns_of(ch: Option<char>) -> nat {
    match ch {
        Some(c) => match unicode_width(c) {
            Some(w) => w as nat,
            None => 0,
        },
        None => 0,
    }
}

/// The next tab stop after column `cur` (tab stops every 8 columns).
pub open spec fn tab_stop(cur: nat) -> nat {
    (cur / 8 + 1) * 8
}

pub proof fn lemma_decode_rest_len(s: Seq<u8>, pos: int, len: int, j: int, cp: u32)
    requires
        1 <= j <= len,
    ensures
        1 <= decode_rest(s, pos, len, j, cp).1 <= len,
        decode_rest(s, pos, len, j, cp).0 is Some ==> decode_rest(s, pos, len, j, cp).1 == len,
    decreases len - j,
{
    if j < len && is_continuation(s[pos + j]) {
        lemma_decode_rest_len(s, pos, len, j + 1, (cp * 64 + s[pos + j] % 64) as u32);
    }
}

/// Decoding stops, with no character, at a byte that is not a continuation
/// byte.
pub proof fn lemma_decode_rest_stop(s: Seq<u8>, pos: int, len: int, j: int, cp: u32)
    requires
        j < len,
        !is_continuation(s[pos + j]),
    ensures
        decode_rest(s, pos, len, j, cp) == (None::<char>, j),
{
}

/// The decoder always consumes at least one byte and never runs past the end;
/// when it gives a character for a byte of 0x80 or above, it consumed at
/// least two bytes.
pub proof fn lemma_decode_len(s: Seq<u8>, pos: int)
    requires
        0 <= pos < s.len(),
    ensures
        1 <= decode(s, pos).1,
        pos + decode(s, pos).1 <= s.len(),
        s[pos] >= 0x80 && decode(s, pos).0 is Some ==> decode(s, pos).1 >= 2,
{
    let b = s[pos];
    if b >= 0x80 && sequence_len(b) != 0 && pos + sequence_len(b) <= s.len() {
        lemma_decode_rest_len(s, pos, sequence_len(b), 1, lead_bits(b));
    }
}

/// Bytes that end a display segment: newline, form feed and carriage return.
/// The segment's width counts toward the maximum and the column goes back
/// to 0.
pub open spec fn ends_segment(b: u8) -> bool {
    b == 10 || b == 12 || b == 13
}

/// The bytes a token starting with `b` needs: one for an ASCII byte or a
/// byte that is not a lead byte, else the length its lead byte announces.
pub open spec fn need(b: u8) -> int {
    if b < 0x80 || sequence_len(b) == 0 {
        1
    } else {
        sequence_len(b)
    }
}

/// The token at `s[i]` has all the bytes it needs within `s`.
pub open spec fn has_room(s: Seq<u8>, i: int) -> bool {
    i + need(s[i]) <= s.len()
}

/// One token of the display-width scan at `s[i]` from state (`cur`, `max`):
/// the bytes it takes, and the new state.  A newline, form feed or carriage
/// return records the current width and goes back to column 0, a tab moves
/// to the next tab stop, other control bytes and DEL take no columns,
/// printable ASCII takes one column, and a multi-byte sequence takes the
/// columns of what it decodes to.
pub open spec fn token_step(s: Seq<u8>, i: int, cur: nat, max: nat) -> (int, nat, nat) {
    let b = s[i];
    if ends_segment(b) {
        (1, 0, if cur > max { cur } else { max })
    } else if b == 9 {
        (1, tab_stop(cur), max)
    } else if b < 0x20 || b == 0x7F {
        (1, cur, max)
    } else if b < 0x80 {
        (1, cur + 1, max)
    } else {
        let d = decode(s, i);
        (d.1, cur + columns_of(d.0), max)
    }
}

pub proof fn lemma_token_step_len(s: Seq<u8>, i: int, cur: nat, max: nat)
    requires
        0 <= i < s.len(),
    ensures
        1 <= token_step(s, i, cur, max).0,
        i + token_step(s, i, cur, max).0 <= s.len(),
        token_step(s, i, cur, max).0 <= need(s[i]),
{
    lemma_decode_len(s, i);
    let b = s[i];
    if b >= 0x80 && sequence_len(b) != 0 && i + sequence_len(b) <= s.len() {
        lemma_decode_rest_len(s, i, sequence_len(b), 1, lead_bits(b));
    }
}

/// The display-width scan of `s` from index `i`: the state is (columns of the
/// current segment so far, widest finished segment so far).
pub open spec fn width_scan(s: Seq<u8>, i: int, cur: nat, max: nat) -> (nat, nat)
    decreases s.len() - i,
{
    if i < 0 || i >= s.len() {
        (cur, max)
    } else {
        let t = token_step(s, i, cur, max);
        proof {
            lemma_token_step_len(s, i, cur, max);
        }
        width_scan(s, i + t.0, t.1, t.2)
    }
}

/// `u` holds `w` from index `o` on.
pub open spec fn embeds(u: Seq<u8>, o: int, w: Seq<u8>) -> bool {
    &&& 0 <= o
    &&& o + w.len() <= u.len()
    &&& u.subrange(o, o + w.len()) == w
}

pub proof fn lemma_decode_rest_local(a: Seq<u8>, i: int, b: Seq<u8>, k: int, len: int, j: int, cp: u32)
    requires
        1 <= j <= len,
        forall|m: int| 0 <= m < len ==> #[trigger] a[i + m] == b[k + m],
    ensures
        decode_rest(a, i, len, j, cp) == decode_rest(b, k, len, j, cp),
    decreases len - j,
{
    if j < len {
        assert(a[i + j] == b[k + j]);
        lemma_decode_rest_local(a, i, b, k, len, j + 1, (cp * 64 + a[i + j] % 64) as u32);
    }
}

/// A token depends only on its own bytes, once it has all of them, and on
/// its first byte alone when it has not.
pub proof fn lemma_token_local(a: Seq<u8>, i: int, b: Seq<u8>, k: int, cur: nat, max: nat)
    requires
        0 <= i < a.len(),
        0 <= k < b.len(),
        a[i] == b[k],
        (has_room(a, i) && has_room(b, k) && forall|m: int| 0 <= m < need(a[i]) ==> #[trigger] a[i + m] == b[k + m])
            || (!has_room(a, i) && !has_room(b, k)),
    ensures
        token_step(a, i, cur, max) == token_step(b, k, cur, max),
{
    let x = a[i];
    if x >= 0x80 && sequence_len(x) != 0 && has_room(a, i) {
        lemma_decode_rest_local(a, i, b, k, sequence_len(x), 1, lead_bits(x));
    }
}

/// Scanning a window of `u` that holds the whole of `w` from `o` on: the
/// token at `w[i]` is the token at `u[o + i]` when it has room in `w`, or
/// when `w` ends where `u` ends.
pub proof fn lemma_token_embedded(w: Seq<u8>, i: int, u: Seq<u8>, o: int, cur: nat, max: nat)
    requires
        0 <= i < w.len(),
        embeds(u, o, w),
        has_room(w, i) || u.len() == o + w.len(),
    ensures
        token_step(w, i, cur, max) == token_step(u, o + i, cur, max),
{
    assert(u[o + i] == w[i]) by {
        assert(u.subrange(o, o + w.len())[i] == u[o + i]);
    }
    if has_room(w, i) {
        assert forall|m: int| 0 <= m < need(w[i]) implies #[trigger] w[i + m] == u[o + i + m] by {
            assert(u.subrange(o, o + w.len())[i + m] == u[o + i + m]);
        }
    }
    lemma_token_local(w, i, u, o + i, cur, max);
}
/// The larger of the current line and the widest finished line.
pub open spec fn settle(st: (nat, nat)) -> nat {
    if st.0 > st.1 {
        st.0
    } else {
        st.1
    }
}

/// The maximum display width of a line of `s`.
pub open spec fn max_line_width(s: Seq<u8>) -> nat {
    settle(width_scan(s, 0, 0, 0))
}

/// Counting one more byte of `c` after `d + c.take(k)`.
pub proof fn lemma_extend(d: Seq<u8>, c: Seq<u8>, k: int, st: (bool, nat))
    requires
        0 <= k < c.len(),
    ensures
        (d + c.take(k + 1)).len() == d.len() + k + 1,
        line_count(d + c.take(k + 1)) == line_count(d + c.take(k)) + if c[k] == 10 { 1nat } else { 0nat },
        char_count(d + c.take(k + 1)) == char_count(d + c.take(k)) + if is_continuation(c[k]) { 0nat } else { 1nat },
        word_scan(d + c.take(k + 1), st) == word_step(word_scan(d + c.take(k), st), c[k]),
{
    let s = d + c.take(k + 1);
    assert(s.drop_last() =~= d + c.take(k));
    assert(s.last() == c[k]);
}

/// Counting nothing after `d`.
pub proof fn lemma_extend_none(d: Seq<u8>, c: Seq<u8>)
    ensures
        d + c.take(0) =~= d,
        d + c.take(c.len() as int) =~= d + c,
{
}

/// Newlines of a concatenation are the newlines of its parts.
pub proof fn lemma_line_count_concat(a: Seq<u8>, b: Seq<u8>)
    ensures
        line_count(a + b) == line_count(a) + line_count(b),
    decreases b.len(),
{
    if b.len() == 0 {
        assert(a + b =~= a);
    } else {
        lemma_line_count_concat(a, b.drop_last());
        assert((a + b).drop_last() =~= a + b.drop_last());
        assert((a + b).last() == b.last());
    }
}

/// There are no more newlines than bytes.
pub proof fn lemma_line_count_bound(s: Seq<u8>)
    ensures
        line_count(s) <= s.len(),
    decreases s.len(),
{
    if s.len() > 0 {
        lemma_line_count_bound(s.drop_last());
    }
}

} // verus!
