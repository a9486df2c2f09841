//! Properties that hold across the library's functions.
use vstd::prelude::*;
use crate::count::{counts_of, sum_counts, sums_fit, CountFlags, CountsView};
use crate::model::{
    decode, decode_rest, embeds, has_room, lead_bits, lemma_token_embedded,
    lemma_token_step_len, max_line_width, sequence_len, settle, token_step, width_scan,
    char_count, is_continuation, lemma_line_count_bound, line_count,
    word_count, word_scan,
};
use crate::report::{
    bytes_only, decimal, field_width, joined, padded, report_line, shown, spaces, total_size,
    InputSize,
};

verus! {

/// Words of `s` read from state `st`: no more new words than characters.
pub proof fn lemma_words_at_most_chars(s: Seq<u8>, st: (bool, nat))
    ensures
        st.1 <= word_scan(s, st).1 <= st.1 + char_count(s),
    decreases s.len(),
{
    if s.len() > 0 {
        lemma_words_at_most_chars(s.drop_last(), st);
    }
}

proof fn lemma_chars_at_most_bytes(s: Seq<u8>)
    ensures
        char_count(s) <= s.len(),
    decreases s.len(),
{
    if s.len() > 0 {
        lemma_chars_at_most_bytes(s.drop_last());
    }
}

/// There are never more words than characters, nor more characters or lines
/// than bytes.
pub proof fn lemma_counts_bounded(s: Seq<u8>)
    ensures
        word_count(s) <= char_count(s),
        char_count(s) <= s.len(),
        line_count(s) <= s.len(),
{
    lemma_words_at_most_chars(s, (false, 0));
    lemma_chars_at_most_bytes(s);
    lemma_line_count_bound(s);
}

/// Characters of a concatenation are the characters of its parts.
pub proof fn lemma_char_count_concat(a: Seq<u8>, b: Seq<u8>)
    ensures
        char_count(a + b) == char_count(a) + char_count(b),
    decreases b.len(),
{
    if b.len() == 0 {
        assert(a + b =~= a);
    } else {
        lemma_char_count_concat(a, b.drop_last());
        assert((a + b).drop_last() =~= a + b.drop_last());
        assert((a + b).last() == b.last());
    }
}

proof fn lemma_char_count_one(t: Seq<u8>)
    requires
        t.len() >= 1,
        !is_continuation(t[0]),
        forall|k: int| 1 <= k < t.len() ==> is_continuation(#[trigger] t[k]),
    ensures
        char_count(t) == 1,
    decreases t.len(),
{
    if t.len() > 1 {
        lemma_char_count_one(t.drop_last());
        assert(is_continuation(t[t.len() - 1]));
    } else {
        assert(t.drop_last() =~= Seq::<u8>::empty());
        assert(char_count(t.drop_last()) == 0);
    }
}

/// On valid UTF-8 the character count is the number of characters the bytes
/// encode.
pub proof fn lemma_chars_of_valid_utf8(s: Seq<u8>)
    requires
        vstd::utf8::valid_utf8(s),
    ensures
        char_count(s) == vstd::utf8::decode_utf8(s).len(),
    decreases s.len(),
{
    if s.len() == 0 {
        assert(s =~= Seq::<u8>::empty());
    } else {
        let n = vstd::utf8::length_of_first_scalar(s);
        let head = s.subrange(0, n);
        let rest = vstd::utf8::pop_first_scalar(s);
        assert(1 <= n <= 4);
        assert(n <= s.len());
        assert(head + rest =~= s);
        lemma_char_count_one(head);
        lemma_char_count_concat(head, rest);
        lemma_chars_of_valid_utf8(rest);
    }
}

/// Lines, bytes and characters of a concatenation are the sums of those of
/// its parts, so the totals of several inputs are the counts of the inputs
/// read one after the other.
pub proof fn lemma_counts_additive(a: Seq<u8>, b: Seq<u8>, f: CountFlags)
    ensures
        counts_of(a + b, f).lines == counts_of(a, f).lines + counts_of(b, f).lines,
        counts_of(a + b, f).bytes == counts_of(a, f).bytes + counts_of(b, f).bytes,
        counts_of(a + b, f).chars == counts_of(a, f).chars + counts_of(b, f).chars,
{
    crate::model::lemma_line_count_concat(a, b);
    lemma_char_count_concat(a, b);
}

/// Adding counts does not depend on the order.
pub proof fn lemma_sum_counts_order(a: CountsView, b: CountsView, c: CountsView)
    ensures
        sum_counts(a, b) == sum_counts(b, a),
        sum_counts(sum_counts(a, b), c) == sum_counts(a, sum_counts(b, c)),
{
}

/// With no count asked for, lines, words and bytes are; otherwise the
/// request stands; and defaulting twice is defaulting once.
pub proof fn lemma_defaulted(f: CountFlags)
    ensures
        f.defaulted().defaulted() == f.defaulted(),
        f.defaulted().lines || f.defaulted().words || f.defaulted().bytes || f.defaulted().chars
            || f.defaulted().max_line_len,
        (f.lines || f.words || f.bytes || f.chars || f.max_line_len) ==> f.defaulted() == f,
        !(f.lines || f.words || f.bytes || f.chars || f.max_line_len) ==> f.defaulted() == (CountFlags {
            lines: true,
            words: true,
            bytes: true,
            chars: false,
            max_line_len: false,
        }),
{
}

/// A report field is the digits of the number, preceded by as many spaces as
/// it takes to fill `width` columns, and never cut short.
pub proof fn lemma_padded(n: nat, width: nat)
    ensures
        padded(n, width).len() == if width > decimal(n).len() { width } else { decimal(n).len() },
        padded(n, width).subrange(
            padded(n, width).len() - decimal(n).len(),
            padded(n, width).len() as int,
        ) == decimal(n),
        forall|i: int| 0 <= i < padded(n, width).len() - decimal(n).len() ==> #[trigger] padded(n, width)[i] == 32u8,
{
    let d = decimal(n);
    let p = padded(n, width);
    if width > d.len() {
        assert(p.subrange(p.len() - d.len(), p.len() as int) =~= d);
    } else {
        assert(p.subrange(0, p.len() as int) =~= d);
    }
}

/// The word automaton over a concatenation runs over the second part from
/// where the first part left it.
pub proof fn lemma_word_scan_concat(a: Seq<u8>, b: Seq<u8>, st: (bool, nat))
    ensures
        word_scan(a + b, st) == word_scan(b, word_scan(a, st)),
    decreases b.len(),
{
    if b.len() == 0 {
        assert(a + b =~= a);
    } else {
        lemma_word_scan_concat(a, b.drop_last(), st);
        assert((a + b).drop_last() =~= a + b.drop_last());
        assert((a + b).last() == b.last());
    }
}

/// Words already counted only shift the count.
pub proof fn lemma_word_scan_offset(b: Seq<u8>, w: bool, n: nat)
    ensures
        word_scan(b, (w, n)) == (word_scan(b, (w, 0)).0, n + word_scan(b, (w, 0)).1),
    decreases b.len(),
{
    if b.len() > 0 {
        lemma_word_scan_offset(b.drop_last(), w, n);
    }
}

/// Starting inside a word can only hide the first word.
proof fn lemma_word_scan_start(b: Seq<u8>)
    ensures
        ({
            let p = word_scan(b, (true, 0));
            let q = word_scan(b, (false, 0));
            ||| p == q
            ||| (p.0 && !q.0 && p.1 == q.1)
            ||| (p.0 == q.0 && q.1 == p.1 + 1)
        }),
    decreases b.len(),
{
    if b.len() > 0 {
        lemma_word_scan_start(b.drop_last());
    }
}

/// The words of two inputs read one after the other are the words of each,
/// less one when a word runs across the boundary.
pub proof fn lemma_word_count_concat(a: Seq<u8>, b: Seq<u8>)
    ensures
        word_count(a + b) <= word_count(a) + word_count(b) <= word_count(a + b) + 1,
{
    let sa = word_scan(a, (false, 0));
    lemma_word_scan_concat(a, b, (false, 0));
    lemma_word_scan_offset(b, sa.0, sa.1);
    lemma_word_scan_start(b);
}

pub open spec fn larger(x: nat, y: nat) -> nat {
    if x > y { x } else { y }
}

/// The widest finished segment only combines with the one the scan starts
/// with.
proof fn lemma_width_scan_max(s: Seq<u8>, i: int, cur: nat, m: nat)
    requires
        0 <= i <= s.len(),
    ensures
        width_scan(s, i, cur, m) == (width_scan(s, i, cur, 0).0, larger(m, width_scan(s, i, cur, 0).1)),
    decreases s.len() - i,
{
    if i < s.len() {
        lemma_token_step_len(s, i, cur, m);
        lemma_token_step_len(s, i, cur, 0);
        let t = token_step(s, i, cur, m);
        let t0 = token_step(s, i, cur, 0);
        lemma_width_scan_max(s, i + t.0, t.1, t.2);
        lemma_width_scan_max(s, i + t0.0, t0.1, t0.2);
    }
}

/// Scanning the part `b` of `p + b` is scanning `b` alone.
proof fn lemma_scan_suffix(p: Seq<u8>, b: Seq<u8>, k: int, cur: nat, m: nat)
    requires
        0 <= k <= b.len(),
    ensures
        width_scan(p + b, p.len() + k, cur, m) == width_scan(b, k, cur, m),
    decreases b.len() - k,
{
    if k < b.len() {
        let u = p + b;
        assert(u.subrange(p.len() as int, (p.len() + b.len()) as int) =~= b);
        assert(embeds(u, p.len() as int, b));
        lemma_token_embedded(b, k, u, p.len() as int, cur, m);
        lemma_token_step_len(b, k, cur, m);
        let t = token_step(b, k, cur, m);
        lemma_scan_suffix(p, b, k + t.0, t.1, t.2);
    }
}

/// Continuation bytes alone take no columns.
proof fn lemma_scan_continuations(a: Seq<u8>, x: int, y: int, cur: nat, m: nat)
    requires
        0 <= x <= y <= a.len(),
        forall|z: int| x <= z < y ==> is_continuation(#[trigger] a[z]),
    ensures
        width_scan(a, x, cur, m) == width_scan(a, y, cur, m),
    decreases y - x,
{
    if x < y {
        assert(is_continuation(a[x]));
        lemma_scan_continuations(a, x + 1, y, cur, m);
    }
}

/// A sequence broken by a byte that is not a continuation byte gives no
/// character and stops before that byte, having consumed only continuation
/// bytes.
proof fn lemma_decode_rest_broken(s: Seq<u8>, i: int, len: int, j: int, q: int, cp: u32)
    requires
        1 <= j <= q < len,
        !is_continuation(s[i + q]),
    ensures
        decode_rest(s, i, len, j, cp).0 is None,
        j <= decode_rest(s, i, len, j, cp).1 <= q,
        forall|x: int| j <= x < decode_rest(s, i, len, j, cp).1 ==> is_continuation(#[trigger] s[i + x]),
    decreases len - j,
{
    if is_continuation(s[i + j]) {
        lemma_decode_rest_broken(s, i, len, j + 1, q, (cp * 64 + s[i + j] % 64) as u32);
    }
}

/// Scanning `a` inside `a + r`, where `r` starts with a byte that is not a
/// continuation byte, reaches the end of `a` in the state that scanning `a`
/// alone ends in.
proof fn lemma_scan_prefix(a: Seq<u8>, r: Seq<u8>, i: int, cur: nat, m: nat)
    requires
        0 <= i <= a.len(),
        r.len() >= 1,
        !is_continuation(r[0]),
    ensures
        width_scan(a + r, i, cur, m) == width_scan(
            a + r,
            a.len() as int,
            width_scan(a, i, cur, m).0,
            width_scan(a, i, cur, m).1,
        ),
    decreases a.len() - i,
{
    let u = a + r;
    if i < a.len() {
        assert(u.subrange(0, a.len() as int) =~= a);
        assert(embeds(u, 0, a));
        if has_room(a, i) {
            lemma_token_embedded(a, i, u, 0, cur, m);
            lemma_token_step_len(a, i, cur, m);
            let t = token_step(a, i, cur, m);
            lemma_scan_prefix(a, r, i + t.0, t.1, t.2);
        } else {
            let x = a[i];
            assert(u[i] == x);
            assert(token_step(a, i, cur, m) == (1int, cur, m));
            let len = sequence_len(x);
            if has_room(u, i) {
                assert(u[a.len() as int] == r[0]);
                lemma_decode_rest_broken(u, i, len, 1, a.len() - i, lead_bits(x));
                let j = decode(u, i).1;
                assert(token_step(u, i, cur, m) == (j, cur, m));
                assert forall|z: int| i + 1 <= z < i + j implies is_continuation(#[trigger] a[z]) by {
                    assert(u[i + (z - i)] == a[z]);
                }
                lemma_scan_continuations(a, i + 1, i + j, cur, m);
                lemma_scan_prefix(a, r, i + j, cur, m);
            } else {
                assert(token_step(u, i, cur, m) == (1int, cur, m));
                lemma_scan_prefix(a, r, i + 1, cur, m);
            }
        }
    }
}

/// The widest line of two texts joined by a newline is the wider of the two
/// texts' widest lines.
pub proof fn lemma_max_line_width_join(a: Seq<u8>, b: Seq<u8>)
    ensures
        max_line_width(a + seq![10u8] + b) == larger(max_line_width(a), max_line_width(b)),
{
    let r = seq![10u8] + b;
    let u = a + r;
    assert(a + seq![10u8] + b =~= u);
    assert(r[0] == 10u8);
    lemma_scan_prefix(a, r, 0, 0, 0);
    let wa = width_scan(a, 0, 0, 0);
    assert(u[a.len() as int] == 10u8);
    assert(token_step(u, a.len() as int, wa.0, wa.1) == (1int, 0nat, settle(wa)));
    assert(u =~= (a + seq![10u8]) + b);
    lemma_scan_suffix(a + seq![10u8], b, 0, 0, settle(wa));
    lemma_width_scan_max(b, 0, 0, settle(wa));
}

proof fn lemma_encoded_bytes(v: u32)
    ensures
        0x80 <= v <= 0x7FF ==> {
            &&& 0xC2 <= vstd::utf8::leading_byte_width_2(v) <= 0xDF
            &&& (vstd::utf8::leading_byte_width_2(v) % 32) as u32 == v >> 6
        },
        0x800 <= v <= 0xFFFF ==> {
            &&& 0xE0 <= vstd::utf8::leading_byte_width_3(v) <= 0xEF
            &&& (vstd::utf8::leading_byte_width_3(v) % 16) as u32 == v >> 12
        },
        0x10000 <= v <= 0x10FFFF ==> {
            &&& 0xF0 <= vstd::utf8::leading_byte_width_4(v) <= 0xF4
            &&& (vstd::utf8::leading_byte_width_4(v) % 8) as u32 == v >> 18
        },
        v <= 0x10FFFF ==> {
            &&& 0x80 <= vstd::utf8::last_continuation_byte(v) <= 0xBF
            &&& 0x80 <= vstd::utf8::second_last_continuation_byte(v) <= 0xBF
            &&& 0x80 <= vstd::utf8::third_last_continuation_byte(v) <= 0xBF
            &&& (vstd::utf8::last_continuation_byte(v) % 64) as u32 == v & 0x3F
            &&& (vstd::utf8::second_last_continuation_byte(v) % 64) as u32 == (v >> 6) & 0x3F
            &&& (vstd::utf8::third_last_continuation_byte(v) % 64) as u32 == (v >> 12) & 0x3F
            &&& (v >> 6) * 64 + (v & 0x3F) == v
            &&& (v >> 12) * 64 + ((v >> 6) & 0x3F) == v >> 6
            &&& (v >> 18) * 64 + ((v >> 12) & 0x3F) == v >> 12
        },
        v <= 0x7F ==> vstd::utf8::leading_byte_width_1(v) as u32 == v,
{
    assert(0x80 <= v <= 0x7FF ==> 0xC2 <= (0xC0 | ((v >> 6) & 0x1F) as u8) <= 0xDF) by (bit_vector);
    assert(0x80 <= v <= 0x7FF ==> ((0xC0 | ((v >> 6) & 0x1F) as u8) % 32) as u32 == v >> 6) by (bit_vector);
    assert(0x800 <= v <= 0xFFFF ==> 0xE0 <= (0xE0 | ((v >> 12) & 0x0F) as u8) <= 0xEF) by (bit_vector);
    assert(0x800 <= v <= 0xFFFF ==> ((0xE0 | ((v >> 12) & 0x0F) as u8) % 16) as u32 == v >> 12) by (bit_vector);
    assert(0x10000 <= v <= 0x10FFFF ==> 0xF0 <= (0xF0 | ((v >> 18) & 0x7) as u8) <= 0xF4) by (bit_vector);
    assert(0x10000 <= v <= 0x10FFFF ==> ((0xF0 | ((v >> 18) & 0x7) as u8) % 8) as u32 == v >> 18) by (bit_vector);
    assert(0x80 <= (0x80 | (v & 0x3F) as u8) <= 0xBF) by (bit_vector);
    assert(0x80 <= (0x80 | ((v >> 6) & 0x3F) as u8) <= 0xBF) by (bit_vector);
    assert(0x80 <= (0x80 | ((v >> 12) & 0x3F) as u8) <= 0xBF) by (bit_vector);
    assert(((0x80 | (v & 0x3F) as u8) % 64) as u32 == v & 0x3F) by (bit_vector);
    assert(((0x80 | ((v >> 6) & 0x3F) as u8) % 64) as u32 == (v >> 6) & 0x3F) by (bit_vector);
    assert(((0x80 | ((v >> 12) & 0x3F) as u8) % 64) as u32 == (v >> 12) & 0x3F) by (bit_vector);
    assert(v <= 0x10FFFF ==> (v >> 6) * 64 + (v & 0x3F) == v) by (bit_vector);
    assert(v <= 0x10FFFF ==> (v >> 12) * 64 + ((v >> 6) & 0x3F) == v >> 6) by (bit_vector);
    assert(v <= 0x10FFFF ==> (v >> 18) * 64 + ((v >> 12) & 0x3F) == v >> 12) by (bit_vector);
    assert(v <= 0x7F ==> ((v & 0x7F) as u8) as u32 == v) by (bit_vector);
}

/// Decoding the UTF-8 encoding of a character gives the character back, and
/// consumes exactly its encoding.
pub proof fn lemma_decode_encoded(s: Seq<u8>, pos: int, c: char)
    requires
        embeds(s, pos, vstd::utf8::encode_scalar(c as u32)),
    ensures
        decode(s, pos) == (Some(c), vstd::utf8::encode_scalar(c as u32).len() as int),
{
    let v = c as u32;
    let e = vstd::utf8::encode_scalar(v);
    vstd::utf8::char_is_scalar(c);
    vstd::utf8::char_u32_cast(c, v);
    lemma_encoded_bytes(v);
    assert forall|k: int| 0 <= k < e.len() implies #[trigger] s[pos + k] == e[k] by {
        assert(s.subrange(pos, pos + e.len())[k] == s[pos + k]);
    }
    if v <= 0x7F {
        assert(s[pos] == e[0]);
        assert(s[pos] as u32 == v);
        assert(e.len() == 1);
        assert((s[pos] as char) == c);
    } else if v <= 0x7FF {
        assert(s[pos] == e[0]);
        assert(s[pos + 1] == e[1]);
        assert(e.len() == 2);
        assert(sequence_len(s[pos]) == 2);
        assert(lead_bits(s[pos]) == v >> 6);
        assert(is_continuation(s[pos + 1]));
        assert(((v >> 6) * 64 + s[pos + 1] % 64) as u32 == v);
        assert(decode_rest(s, pos, 2, 2, v) == (Some(c), 2int));
        assert(decode_rest(s, pos, 2, 1, v >> 6) == (Some(c), 2int));
    } else if v <= 0xFFFF {
        assert(s[pos] == e[0]);
        assert(s[pos + 1] == e[1]);
        assert(s[pos + 2] == e[2]);
        assert(e.len() == 3);
        assert(sequence_len(s[pos]) == 3);
        assert(lead_bits(s[pos]) == v >> 12);
        assert(((v >> 12) * 64 + s[pos + 1] % 64) as u32 == v >> 6);
        assert(((v >> 6) * 64 + s[pos + 2] % 64) as u32 == v);
        assert(decode_rest(s, pos, 3, 3, v) == (Some(c), 3int));
        assert(decode_rest(s, pos, 3, 2, v >> 6) == (Some(c), 3int));
        assert(decode_rest(s, pos, 3, 1, v >> 12) == (Some(c), 3int));
    } else {
        assert(s[pos] == e[0]);
        assert(s[pos + 1] == e[1]);
        assert(s[pos + 2] == e[2]);
        assert(s[pos + 3] == e[3]);
        assert(e.len() == 4);
        assert(sequence_len(s[pos]) == 4);
        assert(lead_bits(s[pos]) == v >> 18);
        assert(((v >> 18) * 64 + s[pos + 1] % 64) as u32 == v >> 12);
        assert(((v >> 12) * 64 + s[pos + 2] % 64) as u32 == v >> 6);
        assert(((v >> 6) * 64 + s[pos + 3] % 64) as u32 == v);
        assert(decode_rest(s, pos, 4, 4, v) == (Some(c), 4int));
        assert(decode_rest(s, pos, 4, 3, v >> 6) == (Some(c), 4int));
        assert(decode_rest(s, pos, 4, 2, v >> 12) == (Some(c), 4int));
        assert(decode_rest(s, pos, 4, 1, v >> 18) == (Some(c), 4int));
    }
}

/// Whitespace, or a byte that can begin a word: the bytes that the word
/// count looks back at.
pub open spec fn is_mark(b: u8) -> bool {
    crate::model::is_blank(b) || crate::model::starts_word(b)
}

/// The index of the last whitespace or word-beginning byte before `s[i]`.
pub open spec fn last_mark(s: Seq<u8>, i: int) -> Option<int>
    decreases i,
{
    if i <= 0 {
        None
    } else if is_mark(s[i - 1]) {
        Some(i - 1)
    } else {
        last_mark(s, i - 1)
    }
}

/// A word starts at `s[i]`: the byte can begin a word, and before it there
/// is no whitespace or word-beginning byte, or the last one is whitespace.
pub open spec fn word_starts_at(s: Seq<u8>, i: int) -> bool {
    crate::model::starts_word(s[i]) && match last_mark(s, i) {
        None => true,
        Some(j) => crate::model::is_blank(s[j]),
    }
}

/// The number of word starts among the first `n` bytes.
pub open spec fn word_starts(s: Seq<u8>, n: int) -> nat
    decreases n,
{
    if n <= 0 {
        0
    } else {
        word_starts(s, n - 1) + if word_starts_at(s, n - 1) { 1nat } else { 0nat }
    }
}

proof fn lemma_last_mark(s: Seq<u8>, i: int)
    ensures
        last_mark(s, i) matches Some(j) ==> 0 <= j < i && is_mark(s[j]),
    decreases i,
{
    if i > 0 {
        lemma_last_mark(s, i - 1);
    }
}

proof fn lemma_word_scan_prefix(s: Seq<u8>, n: int)
    requires
        0 <= n <= s.len(),
    ensures
        word_scan(s.take(n), (false, 0)) == (
            match last_mark(s, n) {
                None => false,
                Some(j) => crate::model::starts_word(s[j]),
            },
            word_starts(s, n),
        ),
    decreases n,
{
    if n > 0 {
        lemma_word_scan_prefix(s, n - 1);
        lemma_last_mark(s, n - 1);
        assert(s.take(n).drop_last() =~= s.take(n - 1));
        assert(s.take(n).last() == s[n - 1]);
        let prev = word_scan(s.take(n - 1), (false, 0));
        assert(word_scan(s.take(n), (false, 0)) == crate::model::word_step(prev, s[n - 1]));
    }
}

/// The word count, byte by byte: the bytes that can begin a word and that
/// follow whitespace, or nothing but bytes that are neither whitespace nor
/// word bytes, since the last word byte.
pub proof fn lemma_word_count_bytewise(s: Seq<u8>)
    ensures
        word_count(s) == word_starts(s, s.len() as int),
{
    lemma_word_scan_prefix(s, s.len() as int);
    assert(s.take(s.len() as int) =~= s);
}

/// The text of each shown field in a report line: the first field
/// right-aligned, each later field a space and then the field right-aligned.
pub open spec fn field_texts(values: Seq<nat>, width: nat) -> Seq<Seq<u8>> {
    Seq::new(
        values.len(),
        |i: int|
            if i == 0 {
                padded(values[0], width)
            } else {
                seq![32u8] + padded(values[i], width)
            },
    )
}

/// The fields of a report line are the field texts one after the other.
pub proof fn lemma_joined_fields(values: Seq<nat>, width: nat)
    ensures
        joined(values, width) == field_texts(values, width).flatten(),
    decreases values.len(),
{
    let t = field_texts(values, width);
    if values.len() == 0 {
        assert(t =~= Seq::<Seq<u8>>::empty());
    } else if values.len() == 1 {
        assert(t.len() == 1);
        t.lemma_flatten_singleton();
    } else {
        lemma_joined_fields(values.drop_last(), width);
        assert(t.drop_last() =~= field_texts(values.drop_last(), width));
        assert(t =~= t.drop_last().push(t.last()));
        t.drop_last().lemma_flatten_push(t.last());
        assert(t.last() =~= seq![32u8] + padded(values.last(), width));
        assert(joined(values, width) =~= t.flatten());
    }
}

/// The six ASCII whitespace bytes: tab, newline, vertical tab, form feed,
/// carriage return and space.
pub open spec fn is_ascii_space(x: u8) -> bool {
    x == 9 || x == 10 || x == 11 || x == 12 || x == 13 || x == 32
}

proof fn lemma_word_scan_one_word(t: Seq<u8>, n: nat)
    requires
        t.len() >= 1,
        crate::model::starts_word(t[0]),
        forall|k: int| 1 <= k < t.len() ==> !is_ascii_space(#[trigger] t[k]),
    ensures
        word_scan(t, (false, n)) == (true, n + 1),
    decreases t.len(),
{
    if t.len() == 1 {
        assert(t.drop_last() =~= Seq::<u8>::empty());
        assert(word_scan(t.drop_last(), (false, n)) == (false, n));
        assert(t.last() == t[0]);
        assert(!crate::model::is_blank(t[0]));
    } else {
        let p = t.drop_last();
        assert forall|k: int| 1 <= k < p.len() implies !is_ascii_space(#[trigger] p[k]) by {
            assert(p[k] == t[k]);
        }
        lemma_word_scan_one_word(p, n);
        assert(!is_ascii_space(t[t.len() - 1]));
        assert(t.last() == t[t.len() - 1]);
        assert(!crate::model::is_blank(t.last()));
    }
}

/// Every character from U+0080 on begins a word: its UTF-8 encoding alone is
/// one word, and two of them with a space between are two words.
pub proof fn lemma_multibyte_characters_are_words(c: char)
    requires
        (c as u32) >= 0x80,
    ensures
        word_count(vstd::utf8::encode_scalar(c as u32)) == 1,
        word_count(vstd::utf8::encode_scalar(c as u32) + seq![0x20u8] + vstd::utf8::encode_scalar(c as u32)) == 2,
{
    let v = c as u32;
    let e = vstd::utf8::encode_scalar(v);
    vstd::utf8::char_is_scalar(c);
    lemma_encoded_bytes(v);
    assert(0xC2 <= e[0] <= 0xF4);
    assert forall|k: int| 1 <= k < e.len() implies !is_ascii_space(#[trigger] e[k]) by {
        assert(0x80 <= e[k] <= 0xBF);
    }
    lemma_word_scan_one_word(e, 0);
    let es = e + seq![0x20u8];
    assert(es.drop_last() =~= e);
    assert(es.last() == 0x20u8);
    assert(word_scan(es, (false, 0)) == (false, 1nat));
    lemma_word_scan_concat(es, e, (false, 0));
    lemma_word_scan_one_word(e, 1);
}

/// Only the six ASCII whitespace bytes end a word: a text that begins with a
/// byte that can begin a word (printable ASCII or a UTF-8 lead byte) and holds
/// none of them is one word, whatever its other bytes are.
pub proof fn lemma_only_ascii_space_ends_words(s: Seq<u8>)
    requires
        s.len() >= 1,
        (0x21 <= s[0] <= 0x7E) || (0xC2 <= s[0] <= 0xF4),
        forall|i: int| 0 <= i < s.len() ==> !is_ascii_space(#[trigger] s[i]),
    ensures
        word_count(s) == 1,
{
    lemma_word_scan_one_word(s, 0);
}

/// Each of the six ASCII whitespace bytes separates words: the words of two
/// texts joined by one of them are the words of each.
pub proof fn lemma_ascii_space_separates(a: Seq<u8>, b: Seq<u8>, x: u8)
    requires
        is_ascii_space(x),
    ensures
        word_count(a + seq![x] + b) == word_count(a) + word_count(b),
{
    let ax = a + seq![x];
    assert(ax.drop_last() =~= a);
    assert(ax.last() == x);
    let wa = word_scan(a, (false, 0));
    assert(word_scan(ax, (false, 0)) == (false, wa.1));
    lemma_word_scan_concat(ax, b, (false, 0));
    lemma_word_scan_offset(b, false, wa.1);
}

/// Adding counts adds lines, words, bytes and characters, and keeps the
/// larger maximum line width.
pub proof fn lemma_sum_counts_fields(a: CountsView, b: CountsView)
    ensures
        sum_counts(a, b).lines == a.lines + b.lines,
        sum_counts(a, b).words == a.words + b.words,
        sum_counts(a, b).bytes == a.bytes + b.bytes,
        sum_counts(a, b).chars == a.chars + b.chars,
        sum_counts(a, b).max_line_len >= a.max_line_len,
        sum_counts(a, b).max_line_len >= b.max_line_len,
        sum_counts(a, b).max_line_len == a.max_line_len || sum_counts(a, b).max_line_len == b.max_line_len,
{
}

/// A character from U+0080 on takes the columns that `unicode_width` gives
/// it, or none when it gives none.
pub proof fn lemma_character_columns(c: char)
    requires
        (c as u32) >= 0x80,
    ensures
        max_line_width(vstd::utf8::encode_scalar(c as u32)) == match crate::boundary::unicode_width(c) {
            Some(w) => w as nat,
            None => 0nat,
        },
{
    let v = c as u32;
    let e = vstd::utf8::encode_scalar(v);
    vstd::utf8::char_is_scalar(c);
    lemma_encoded_bytes(v);
    assert(e.subrange(0, e.len() as int) =~= e);
    lemma_decode_encoded(e, 0, c);
    assert(e[0] >= 0x80);
    assert(width_scan(e, e.len() as int, token_step(e, 0, 0, 0).1, 0) == (token_step(e, 0, 0, 0).1, 0nat));
}

/// Printable ASCII takes one column a byte.
pub proof fn lemma_printable_ascii_width(s: Seq<u8>, i: int, cur: nat)
    requires
        0 <= i <= s.len(),
        forall|k: int| 0 <= k < s.len() ==> 0x20 <= #[trigger] s[k] <= 0x7E,
    ensures
        width_scan(s, i, cur, 0) == ((cur + s.len() - i) as nat, 0nat),
        i == 0 && cur == 0 ==> max_line_width(s) == s.len(),
    decreases s.len() - i,
{
    if i < s.len() {
        assert(0x20 <= s[i] <= 0x7E);
        lemma_printable_ascii_width(s, i + 1, cur + 1);
    }
}

/// A tab after printable ASCII moves to the next multiple of 8 columns.
pub proof fn lemma_tab_width(a: Seq<u8>)
    requires
        forall|k: int| 0 <= k < a.len() ==> 0x20 <= #[trigger] a[k] <= 0x7E,
    ensures
        max_line_width(a + seq![9u8]) == (a.len() / 8 + 1) * 8,
{
    let r = seq![9u8];
    let u = a + r;
    lemma_scan_prefix(a, r, 0, 0, 0);
    lemma_printable_ascii_width(a, 0, 0);
    assert(u[a.len() as int] == 9u8);
    let n = a.len();
    assert(width_scan(a, 0, 0, 0) == (n, 0nat));
    assert(token_step(u, n as int, n, 0) == (1int, crate::model::tab_stop(n), 0nat));
    assert(width_scan(u, (n + 1) as int, crate::model::tab_stop(n), 0) == (crate::model::tab_stop(n), 0nat));
}

/// A newline, form feed or carriage return splits the text into segments:
/// the widest of the whole is the wider of the widest of each part.
pub proof fn lemma_max_line_width_split(a: Seq<u8>, b: Seq<u8>, x: u8)
    requires
        x == 10 || x == 12 || x == 13,
    ensures
        max_line_width(a + seq![x] + b) == larger(max_line_width(a), max_line_width(b)),
{
    let r = seq![x] + b;
    let u = a + r;
    assert(a + seq![x] + b =~= u);
    assert(r[0] == x);
    lemma_scan_prefix(a, r, 0, 0, 0);
    let wa = width_scan(a, 0, 0, 0);
    assert(u[a.len() as int] == x);
    assert(token_step(u, a.len() as int, wa.0, wa.1) == (1int, 0nat, settle(wa)));
    assert(u =~= (a + seq![x]) + b);
    lemma_scan_suffix(a + seq![x], b, 0, 0, settle(wa));
    lemma_width_scan_max(b, 0, 0, settle(wa));
}

/// The value of a string of decimal digits.
pub open spec fn digits_value(d: Seq<u8>) -> nat
    decreases d.len(),
{
    if d.len() == 0 {
        0
    } else {
        digits_value(d.drop_last()) * 10 + (d.last() - 48) as nat
    }
}

/// The decimal text of a number is made of ASCII digits, has no leading zero
/// (but for 0 itself), and reads back as the number.
pub proof fn lemma_decimal_digits(n: nat)
    ensures
        decimal(n).len() >= 1,
        forall|i: int| 0 <= i < decimal(n).len() ==> 48 <= #[trigger] decimal(n)[i] <= 57,
        decimal(n)[0] != 48 || n == 0,
        digits_value(decimal(n)) == n,
    decreases n,
{
    if n >= 10 {
        lemma_decimal_digits(n / 10);
        let d = decimal(n);
        assert(d.drop_last() =~= decimal(n / 10));
        assert forall|i: int| 0 <= i < d.len() implies 48 <= #[trigger] d[i] <= 57 by {
            if i < d.len() - 1 {
                assert(d[i] == decimal(n / 10)[i]);
            }
        }
        assert(d[0] == decimal(n / 10)[0]);
        assert(d.last() == (48 + n % 10) as u8);
        assert(digits_value(d) == digits_value(decimal(n / 10)) * 10 + (d.last() - 48) as nat);
        assert((n / 10) * 10 + n % 10 == n);
    } else {
        let d = decimal(n);
        assert(d.drop_last() =~= Seq::<u8>::empty());
        assert(digits_value(d.drop_last()) == 0);
        assert(d.last() == (48 + n) as u8);
    }
}

/// The column width of the report: 7 when no input is named or standard
/// input is among them (and bytes or characters are shown), 1 when neither
/// bytes nor characters are shown, and otherwise, whether bytes or
/// characters or both are shown, the number of digits of the total size.
pub proof fn lemma_field_width_rules(inputs: Seq<InputSize>, f: CountFlags)
    ensures
        inputs.len() == 0 ==> field_width(inputs, f) == 7,
        inputs.len() > 0 && !f.bytes && !f.chars ==> field_width(inputs, f) == 1,
        inputs.len() > 0 && (f.bytes || f.chars) && (exists|i: int|
            0 <= i < inputs.len() && #[trigger] inputs[i] is Stdin) ==> field_width(inputs, f) == 7,
        inputs.len() > 0 && f.chars && (forall|i: int| 0 <= i < inputs.len() ==> !(#[trigger] inputs[i] is Stdin))
            ==> field_width(inputs, f) == decimal(total_size(inputs)).len(),
        inputs.len() > 0 && f.bytes && (forall|i: int| 0 <= i < inputs.len() ==> !(#[trigger] inputs[i] is Stdin))
            ==> field_width(inputs, f) == decimal(total_size(inputs)).len(),
{
}

/// The total size adds each reported size and ignores the rest.
pub proof fn lemma_total_size_push(inputs: Seq<InputSize>, n: u64)
    ensures
        total_size(inputs.push(InputSize::Sized(n))) == total_size(inputs) + n,
        total_size(inputs.push(InputSize::Unknown)) == total_size(inputs),
        total_size(inputs.push(InputSize::Stdin)) == total_size(inputs),
        total_size(Seq::<InputSize>::empty()) == 0,
{
    assert(inputs.push(InputSize::Sized(n)).drop_last() =~= inputs);
    assert(inputs.push(InputSize::Unknown).drop_last() =~= inputs);
    assert(inputs.push(InputSize::Stdin).drop_last() =~= inputs);
}

/// One more byte adds a line exactly when it is a newline (byte 10), and a
/// character exactly when it is not a UTF-8 continuation byte (0x80 to 0xBF).
pub proof fn lemma_one_more_byte(s: Seq<u8>, b: u8)
    ensures
        line_count(s.push(b)) == line_count(s) + if b == 10 { 1nat } else { 0nat },
        char_count(s.push(b)) == char_count(s) + if b < 0x80 || b >= 0xC0 { 1nat } else { 0nat },
        line_count(Seq::<u8>::empty()) == 0,
        char_count(Seq::<u8>::empty()) == 0,
{
    assert(s.push(b).drop_last() =~= s);
}

/// A text none of whose bytes can begin a word (printable ASCII other than
/// space, or a UTF-8 lead byte) holds no word.
pub proof fn lemma_no_word_bytes_no_words(s: Seq<u8>)
    requires
        forall|i: int|
            0 <= i < s.len() ==> !((0x21 <= #[trigger] s[i] <= 0x7E) || (0xC2 <= s[i] <= 0xF4)),
    ensures
        word_count(s) == 0,
        !word_scan(s, (false, 0)).0,
    decreases s.len(),
{
    if s.len() > 0 {
        let p = s.drop_last();
        assert forall|i: int| 0 <= i < p.len() implies !((0x21 <= #[trigger] p[i] <= 0x7E) || (0xC2 <= p[i] <= 0xF4)) by {
            assert(p[i] == s[i]);
        }
        lemma_no_word_bytes_no_words(p);
        assert(s.last() == s[s.len() - 1]);
    }
}

/// A byte that is not a lead byte, read where a character should start,
/// decodes to no character and takes one byte.
pub proof fn lemma_decode_stray_byte(s: Seq<u8>, pos: int)
    requires
        0 <= pos < s.len(),
        (0x80 <= s[pos] <= 0xC1) || s[pos] >= 0xF5,
    ensures
        decode(s, pos) == (None::<char>, 1int),
{
}

/// Control bytes other than tab, newline, form feed and carriage return, and
/// DEL, take no columns: between printable ASCII texts they add nothing.
pub proof fn lemma_control_bytes_take_no_columns(a: Seq<u8>, b: Seq<u8>, x: u8)
    requires
        (x < 0x20 && x != 9 && x != 10 && x != 12 && x != 13) || x == 0x7F,
        forall|k: int| 0 <= k < a.len() ==> 0x20 <= #[trigger] a[k] <= 0x7E,
        forall|k: int| 0 <= k < b.len() ==> 0x20 <= #[trigger] b[k] <= 0x7E,
    ensures
        max_line_width(a + seq![x] + b) == a.len() + b.len(),
{
    let r = seq![x] + b;
    let u = a + r;
    assert(a + seq![x] + b =~= u);
    assert(r[0] == x);
    lemma_scan_prefix(a, r, 0, 0, 0);
    lemma_printable_ascii_width(a, 0, 0);
    assert(u[a.len() as int] == x);
    assert(token_step(u, a.len() as int, a.len(), 0) == (1int, a.len(), 0nat));
    assert(u =~= (a + seq![x]) + b);
    lemma_scan_suffix(a + seq![x], b, 0, a.len(), 0);
    lemma_printable_ascii_width(b, 0, a.len());
}

/// The counts of a text: lines and bytes always, the other counts when
/// asked for and 0 otherwise.
pub proof fn lemma_counts_of_fields(s: Seq<u8>, f: CountFlags)
    ensures
        counts_of(s, f).lines == line_count(s),
        counts_of(s, f).bytes == s.len(),
        counts_of(s, f).words == if f.words { word_count(s) } else { 0 },
        counts_of(s, f).chars == if f.chars { char_count(s) } else { 0 },
        counts_of(s, f).max_line_len == if f.max_line_len { max_line_width(s) } else { 0 },
{
}

/// Two counts can be added when each sum of lines, words, bytes and
/// characters fits in 64 bits.
pub proof fn lemma_sums_fit(a: CountsView, b: CountsView)
    ensures
        sums_fit(a, b) <==> (a.lines + b.lines <= 0xFFFF_FFFF_FFFF_FFFF && a.words + b.words <= 0xFFFF_FFFF_FFFF_FFFF
            && a.bytes + b.bytes <= 0xFFFF_FFFF_FFFF_FFFF && a.chars + b.chars <= 0xFFFF_FFFF_FFFF_FFFF),
{
}

/// The counts a report line shows come in the order lines, words,
/// characters, bytes, maximum line width; one flag shows its count alone.
pub proof fn lemma_shown_order(c: CountsView)
    ensures
        shown(c, CountFlags { lines: true, words: true, bytes: true, chars: true, max_line_len: true })
            == seq![c.lines, c.words, c.chars, c.bytes, c.max_line_len],
        shown(c, CountFlags { lines: true, words: true, bytes: true, chars: false, max_line_len: false })
            == seq![c.lines, c.words, c.bytes],
        shown(c, CountFlags { lines: true, words: false, bytes: false, chars: false, max_line_len: false })
            == seq![c.lines],
        shown(c, CountFlags { lines: false, words: true, bytes: false, chars: false, max_line_len: false })
            == seq![c.words],
        shown(c, CountFlags { lines: false, words: false, bytes: true, chars: false, max_line_len: false })
            == seq![c.bytes],
        shown(c, CountFlags { lines: false, words: false, bytes: false, chars: true, max_line_len: false })
            == seq![c.chars],
        shown(c, CountFlags { lines: false, words: false, bytes: false, chars: false, max_line_len: true })
            == seq![c.max_line_len],
        shown(c, CountFlags { lines: false, words: false, bytes: false, chars: false, max_line_len: false })
            == Seq::<nat>::empty(),
{
    assert(shown(c, CountFlags { lines: true, words: true, bytes: true, chars: true, max_line_len: true })
        =~= seq![c.lines, c.words, c.chars, c.bytes, c.max_line_len]);
    assert(shown(c, CountFlags { lines: true, words: true, bytes: true, chars: false, max_line_len: false })
        =~= seq![c.lines, c.words, c.bytes]);
    assert(shown(c, CountFlags { lines: true, words: false, bytes: false, chars: false, max_line_len: false })
        =~= seq![c.lines]);
    assert(shown(c, CountFlags { lines: false, words: true, bytes: false, chars: false, max_line_len: false })
        =~= seq![c.words]);
    assert(shown(c, CountFlags { lines: false, words: false, bytes: true, chars: false, max_line_len: false })
        =~= seq![c.bytes]);
    assert(shown(c, CountFlags { lines: false, words: false, bytes: false, chars: true, max_line_len: false })
        =~= seq![c.chars]);
    assert(shown(c, CountFlags { lines: false, words: false, bytes: false, chars: false, max_line_len: true })
        =~= seq![c.max_line_len]);
    assert(shown(c, CountFlags { lines: false, words: false, bytes: false, chars: false, max_line_len: false })
        =~= Seq::<nat>::empty());
}

/// A report line ends with a space and the name when there is one, and with
/// a newline.
pub proof fn lemma_report_line_end(c: CountsView, f: CountFlags, width: nat, name: Seq<u8>)
    ensures
        report_line(c, f, width, Some(name)) == joined(shown(c, f), width) + seq![32u8] + name + seq![10u8],
        report_line(c, f, width, None) == joined(shown(c, f), width) + seq![10u8],
{
    assert(report_line(c, f, width, Some(name)) =~= joined(shown(c, f), width) + seq![32u8] + name + seq![10u8]);
    assert(report_line(c, f, width, None) =~= joined(shown(c, f), width) + seq![10u8]);
}

/// Only the byte count, with no other count, is counted from a regular
/// file's size.
pub proof fn lemma_bytes_only(f: CountFlags)
    ensures
        bytes_only(f) <==> (f.bytes && !f.lines && !f.words && !f.chars && !f.max_line_len),
{
}

} // verus!
