//! Counting over a whole buffer held in memory.
use vstd::prelude::*;
use crate::boundary::{char_from_u32, char_width, memchr_count};
use crate::model::{
    MAX_INPUT, char_count, columns_of, decode, decode_rest, embeds, has_room, is_blank,
    is_continuation, lemma_decode_len, lemma_decode_rest_stop, lemma_token_embedded, line_count,
    max_line_width, sequence_len, starts_word, tab_stop, token_step, width_scan, word_count,
    word_scan, word_step,
};

verus! {

/// The five counts that `wc` reports.
#[derive(Debug, Clone, Copy)]
pub struct Counts {
    pub lines: u64,
    pub words: u64,
    pub bytes: u64,
    pub chars: u64,
    pub max_line_len: u64,
}

/// The counts as mathematical integers.
pub struct CountsView {
    pub lines: nat,
    pub words: nat,
    pub bytes: nat,
    pub chars: nat,
    pub max_line_len: nat,
}

impl View for Counts {
    type V = CountsView;

    open spec fn view(&self) -> CountsView {
        CountsView {
            lines: self.lines as nat,
            words: self.words as nat,
            bytes: self.bytes as nat,
            chars: self.chars as nat,
            max_line_len: self.max_line_len as nat,
        }
    }
}

/// All counts zero.
pub open spec fn zero_counts() -> CountsView {
    CountsView { lines: 0, words: 0, bytes: 0, chars: 0, max_line_len: 0 }
}

/// What `Counts::add` makes of two counts: the sums, and the larger maximum
/// line width.
pub open spec fn sum_counts(a: CountsView, b: CountsView) -> CountsView {
    CountsView {
        lines: a.lines + b.lines,
        words: a.words + b.words,
        bytes: a.bytes + b.bytes,
        chars: a.chars + b.chars,
        max_line_len: if b.max_line_len > a.max_line_len { b.max_line_len } else { a.max_line_len },
    }
}

/// Whether the sums of `a` and `b` fit in 64-bit counters.
pub open spec fn sums_fit(a: CountsView, b: CountsView) -> bool {
    &&& a.lines + b.lines <= u64::MAX
    &&& a.words + b.words <= u64::MAX
    &&& a.bytes + b.bytes <= u64::MAX
    &&& a.chars + b.chars <= u64::MAX
}

impl Default for Counts {
    fn default() -> (r: Counts)
        ensures
            r@ == zero_counts(),
    {
        Counts { lines: 0, words: 0, bytes: 0, chars: 0, max_line_len: 0 }
    }
}

impl Counts {
    /// Adds `other` into `self`: sums of the counts, and the larger of the two
    /// maximum line widths.
    pub fn add(&mut self, other: &Counts)
        requires
            sums_fit(old(self)@, other@),
        ensures
            final(self)@ == sum_counts(old(self)@, other@),
            final(self).lines == old(self).lines + other.lines,
            final(self).words == old(self).words + other.words,
            final(self).bytes == old(self).bytes + other.bytes,
            final(self).chars == old(self).chars + other.chars,
            final(self).max_line_len == if other.max_line_len > old(self).max_line_len {
                other.max_line_len
            } else {
                old(self).max_line_len
            },
    {
        self.lines = self.lines + other.lines;
        self.words = self.words + other.words;
        self.bytes = self.bytes + other.bytes;
        self.chars = self.chars + other.chars;
        if other.max_line_len > self.max_line_len {
            self.max_line_len = other.max_line_len;
        }
    }

    /// Whether `add(other)` can be called on `self`, that is, whether the sums
    /// fit in 64-bit counters.
    pub fn can_add(&self, other: &Counts) -> (r: bool)
        ensures
            r == sums_fit(self@, other@),
    {
        other.lines <= u64::MAX - self.lines
            && other.words <= u64::MAX - self.words
            && other.bytes <= u64::MAX - self.bytes
            && other.chars <= u64::MAX - self.chars
    }
}

/// Which counts are asked for.
#[derive(Debug, Clone, Copy)]
pub struct CountFlags {
    pub lines: bool,
    pub words: bool,
    pub bytes: bool,
    pub chars: bool,
    pub max_line_len: bool,
}

impl CountFlags {
    /// No count asked for means lines, words and bytes; otherwise the flags as
    /// they are.
    pub open spec fn defaulted(self) -> CountFlags {
        if !self.lines && !self.words && !self.bytes && !self.chars && !self.max_line_len {
            CountFlags { lines: true, words: true, bytes: true, chars: false, max_line_len: false }
        } else {
            self
        }
    }

    pub fn default_if_none(self) -> (r: Self)
        ensures
            r == self.defaulted(),
    {
        let mut f = self;
        if !f.lines && !f.words && !f.bytes && !f.chars && !f.max_line_len {
            f.lines = true;
            f.words = true;
            f.bytes = true;
        }
        f
    }

    pub fn needs_words(&self) -> (r: bool)
        ensures
            r == self.words,
    {
        self.words
    }

    pub fn needs_chars(&self) -> (r: bool)
        ensures
            r == self.chars,
    {
        self.chars
    }

    pub fn needs_max_line_len(&self) -> (r: bool)
        ensures
            r == self.max_line_len,
    {
        self.max_line_len
    }
}

/// The counts of `s` under flags `f` (already defaulted): lines and bytes
/// always; words, characters and the maximum line width when asked for, else 0.
pub open spec fn counts_of(s: Seq<u8>, f: CountFlags) -> CountsView {
    CountsView {
        lines: line_count(s),
        words: if f.words { word_count(s) } else { 0 },
        bytes: s.len(),
        chars: if f.chars { char_count(s) } else { 0 },
        max_line_len: if f.max_line_len { max_line_width(s) } else { 0 },
    }
}

pub(crate) fn is_blank_byte(b: u8) -> (r: bool)
    ensures
        r == is_blank(b),
{
    b == 9 || b == 10 || b == 11 || b == 12 || b == 13 || b == 32
}

pub(crate) fn starts_word_byte(b: u8) -> (r: bool)
    ensures
        r == starts_word(b),
{
    (0x21 <= b && b <= 0x7E) || (0xC2 <= b && b <= 0xF4)
}

pub(crate) fn is_char_start_byte(b: u8) -> (r: bool)
    ensures
        r == !is_continuation(b),
{
    let r = (b & 0xC0) != 0x80;
    assert(r == !(0x80 <= b && b <= 0xBF)) by (bit_vector)
        requires
            r == ((b & 0xC0) != 0x80),
    ;
    r
}

/// One step of the word automaton on byte `b`.
pub(crate) fn update_word_state(b: u8, in_word: &mut bool, word_count: &mut u64)
    requires
        *old(word_count) < u64::MAX,
    ensures
        (*final(in_word), *final(word_count) as nat) == word_step(
            (*old(in_word), *old(word_count) as nat),
            b,
        ),
{
    if is_blank_byte(b) {
        *in_word = false;
    } else if starts_word_byte(b) && !*in_word {
        *in_word = true;
        *word_count = *word_count + 1;
    }
}

/// Number of words in `data`.
pub fn count_words_scalar(data: &[u8]) -> (r: u64)
    ensures
        r == word_count(data@),
{
    let mut words: u64 = 0;
    let mut in_word = false;
    let mut i: usize = 0;
    while i < data.len()
        invariant
            i <= data.len(),
            words <= i,
            (in_word, words as nat) == word_scan(data@.take(i as int), (false, 0)),
        decreases data.len() - i,
    {
        update_word_state(data[i], &mut in_word, &mut words);
        assert(data@.take(i + 1).drop_last() =~= data@.take(i as int));
        i = i + 1;
    }
    assert(data@.take(i as int) =~= data@);
    words
}

/// Number of characters in `data`: bytes that are not UTF-8 continuation
/// bytes.
pub fn count_chars_scalar(data: &[u8]) -> (r: u64)
    ensures
        r == char_count(data@),
{
    let mut chars: u64 = 0;
    let mut i: usize = 0;
    while i < data.len()
        invariant
            i <= data.len(),
            chars <= i,
            chars == char_count(data@.take(i as int)),
        decreases data.len() - i,
    {
        if is_char_start_byte(data[i]) {
            chars = chars + 1;
        }
        assert(data@.take(i + 1).drop_last() =~= data@.take(i as int));
        i = i + 1;
    }
    assert(data@.take(i as int) =~= data@);
    chars
}

proof fn lemma_lead_bits(b: u8)
    ensures
        0xC2 <= b <= 0xDF ==> ((b as u32) & 0x1F) == (b % 32) as u32,
        0xE0 <= b <= 0xEF ==> ((b as u32) & 0x0F) == (b % 16) as u32,
        0xF0 <= b <= 0xF4 ==> ((b as u32) & 0x07) == (b % 8) as u32,
{
    assert(((b as u32) & 0x1F) == (b % 32) as u32) by (bit_vector);
    assert(((b as u32) & 0x0F) == (b % 16) as u32) by (bit_vector);
    assert(((b as u32) & 0x07) == (b % 8) as u32) by (bit_vector);
}

proof fn lemma_shift_in(cp: u32, cont: u8)
    requires
        cp < 0x80_0000,
    ensures
        ((cp << 6) | ((cont as u32) & 0x3F)) == cp * 64 + cont % 64,
        cp * 64 + cont % 64 < 0x2000_0000,
{
    assert(cp < 0x80_0000 ==> ((cp << 6) | ((cont as u32) & 0x3F)) == cp * 64 + cont % 64)
        by (bit_vector);
    assert(cp < 0x80_0000 ==> cp * 64 + cont % 64 < 0x2000_0000) by (bit_vector);
}

/// Decodes the character that starts at `data[pos]`; see `decode`.
pub fn decode_char_at(data: &[u8], pos: usize) -> (r: (Option<char>, usize))
    requires
        pos < data.len(),
    ensures
        (r.0, r.1 as int) == decode(data@, pos as int),
{
    let b = data[pos];
    if b < 0x80 {
        return (Some(b as char), 1);
    }
    proof {
        lemma_lead_bits(b);
    }
    let len: usize;
    let mut cp: u32;
    if 0xC2 <= b && b <= 0xDF {
        len = 2;
        cp = (b as u32) & 0x1F;
    } else if 0xE0 <= b && b <= 0xEF {
        len = 3;
        cp = (b as u32) & 0x0F;
    } else if 0xF0 <= b && b <= 0xF4 {
        len = 4;
        cp = (b as u32) & 0x07;
    } else {
        return (None, 1);
    }
    if len > data.len() - pos {
        return (None, 1);
    }
    let mut i: usize = 1;
    while i < len
        invariant
            1 <= i <= len,
            len == sequence_len(b),
            2 <= len <= 4,
            b == data@[pos as int],
            pos + len <= data.len(),
            i == 1 ==> cp < 32,
            i == 2 ==> cp < 2048,
            i == 3 ==> cp < 0x2_0000,
            i == 4 ==> cp < 0x80_0000,
            decode(data@, pos as int) == decode_rest(data@, pos as int, len as int, i as int, cp),
        decreases len - i,
    {
        let cont = data[pos + i];
        if is_char_start_byte(cont) {
            proof {
                lemma_decode_rest_stop(data@, pos as int, len as int, i as int, cp);
            }
            return (None, i);
        }
        proof {
            lemma_shift_in(cp, cont);
        }
        cp = (cp << 6) | ((cont as u32) & 0x3F);
        i = i + 1;
    }
    match char_from_u32(cp) {
        Some(c) => {
            proof {
                vstd::utf8::char_u32_cast(c, cp);
            }
            (Some(c), len)
        },
        None => (None, len),
    }
}

/// Display columns of a character: its `unicode_width` width, or 0 when it
/// has none.
pub(crate) fn char_display_width(c: char) -> (r: u64)
    ensures
        r == columns_of(Some(c)),
        r <= 3,
{
    match char_width(c) {
        Some(w) => w as u64,
        None => 0,
    }
}

pub(crate) proof fn lemma_tab_stop(x: u64)
    requires
        x <= 0xFFFF_FFFF_FFFF_FFF7,
    ensures
        (((x + 8) as u64) & !7u64) == tab_stop(x as nat),
        tab_stop(x as nat) <= x + 8,
{
    assert(x <= 0xFFFF_FFFF_FFFF_FFF7 ==> (((x + 8) as u64) & !7u64) == (x / 8 + 1) * 8) by (bit_vector);
    assert((x as nat / 8 + 1) * 8 <= x + 8) by (nonlinear_arith);
}

/// One token of the display-width scan at `buf[i]`: the bytes it takes and
/// the new (current, maximum) widths.
fn width_token(buf: &[u8], i: usize, cur: u64, max: u64) -> (r: (usize, u64, u64))
    requires
        i < buf.len(),
        cur <= u64::MAX - 8,
    ensures
        (r.0 as int, r.1 as nat, r.2 as nat) == token_step(buf@, i as int, cur as nat, max as nat),
        1 <= r.0,
        i + r.0 <= buf.len(),
        r.1 <= cur + 8 * r.0,
        r.2 == max || r.2 == cur,
{
    let b = buf[i];
    if b == 10 || b == 12 || b == 13 {
        let m = if cur > max { cur } else { max };
        (1, 0, m)
    } else if b == 9 {
        proof {
            lemma_tab_stop(cur);
        }
        (1, (cur + 8) & !7, max)
    } else if b < 0x20 || b == 0x7F {
        (1, cur, max)
    } else if b < 0x80 {
        (1, cur + 1, max)
    } else {
        let (ch, len) = decode_char_at(buf, i);
        proof {
            lemma_decode_len(buf@, i as int);
        }
        let w = match ch {
            Some(c) => char_display_width(c),
            None => 0,
        };
        (len, cur + w, max)
    }
}

/// Scans the display width of `buf` from `start` on, from widths (`cur`,
/// `max`).  Unless `last`, it stops before a multi-byte sequence that runs
/// past the end of `buf`.  What it returns is where it stopped and the widths
/// there; scanning any sequence that holds `buf` from the same state gives
/// the same result (when `last`, any sequence that ends where `buf` ends).
pub(crate) fn scan_width(buf: &[u8], start: usize, cur: u64, max: u64, last: bool) -> (r: (usize, u64, u64))
    requires
        start <= buf.len(),
        cur + 8 * (buf.len() - start) <= u64::MAX,
    ensures
        start <= r.0 <= buf.len(),
        last ==> r.0 == buf.len(),
        r.0 < buf.len() ==> !has_room(buf@, r.0 as int) && buf.len() - r.0 <= 3,
        r.1 <= cur + 8 * (r.0 - start),
        r.2 <= max || r.2 <= cur + 8 * (r.0 - start),
        forall|u: Seq<u8>, o: int|
            #[trigger] embeds(u, o, buf@) && (last ==> u.len() == o + buf.len()) ==> width_scan(
                u,
                o + start,
                cur as nat,
                max as nat,
            ) == width_scan(u, o + r.0, r.1 as nat, r.2 as nat),
{
    let mut i = start;
    let mut c = cur;
    let mut m = max;
    while i < buf.len()
        invariant_except_break
            start <= i <= buf.len(),
            cur + 8 * (buf.len() - start) <= u64::MAX,
            c <= cur + 8 * (i - start),
            m <= max || m <= cur + 8 * (i - start),
            forall|u: Seq<u8>, o: int|
                #[trigger] embeds(u, o, buf@) && (last ==> u.len() == o + buf.len()) ==> width_scan(
                    u,
                    o + start,
                    cur as nat,
                    max as nat,
                ) == width_scan(u, o + i, c as nat, m as nat),
        ensures
            start <= i <= buf.len(),
            last ==> i == buf.len(),
            i < buf.len() ==> !has_room(buf@, i as int) && buf.len() - i <= 3,
            c <= cur + 8 * (i - start),
            m <= max || m <= cur + 8 * (i - start),
            forall|u: Seq<u8>, o: int|
                #[trigger] embeds(u, o, buf@) && (last ==> u.len() == o + buf.len()) ==> width_scan(
                    u,
                    o + start,
                    cur as nat,
                    max as nat,
                ) == width_scan(u, o + i, c as nat, m as nat),
        decreases buf.len() - i,
    {
        let b = buf[i];
        if !last && b >= 0x80 && sequence_len_of(b) > buf.len() - i {
            assert(!has_room(buf@, i as int));
            break;
        }
        let (len, c2, m2) = width_token(buf, i, c, m);
        proof {
            assert forall|u: Seq<u8>, o: int|
                #[trigger] embeds(u, o, buf@) && (last ==> u.len() == o + buf.len()) implies width_scan(
                    u,
                    o + i,
                    c as nat,
                    m as nat,
                ) == width_scan(u, o + i + len, c2 as nat, m2 as nat) by {
                lemma_token_embedded(buf@, i as int, u, o, c as nat, m as nat);
            }
        }
        i = i + len;
        c = c2;
        m = m2;
    }
    (i, c, m)
}

/// Exec form of `sequence_len`.
fn sequence_len_of(b: u8) -> (r: usize)
    ensures
        r as int == sequence_len(b),
        r <= 4,
{
    if 0xC2 <= b && b <= 0xDF {
        2
    } else if 0xE0 <= b && b <= 0xEF {
        3
    } else if 0xF0 <= b && b <= 0xF4 {
        4
    } else {
        0
    }
}

/// The maximum display width of a line of `data`; never more than 8 columns
/// per byte.
pub fn max_line_width_of(data: &[u8]) -> (r: u64)
    requires
        data@.len() <= MAX_INPUT,
    ensures
        r == max_line_width(data@),
        r <= 8 * data@.len(),
{
    let (_, cur, max) = scan_width(data, 0, 0, 0, true);
    assert(data@.subrange(0, data@.len() as int) =~= data@);
    assert(embeds(data@, 0, data@));
    if cur > max {
        cur
    } else {
        max
    }
}

/// All counts of `data` under `flags`, the maximum line width among them when
/// asked for.
fn count_bytes_full(data: &[u8], flags: CountFlags) -> (r: Counts)
    requires
        flags.max_line_len ==> data@.len() <= MAX_INPUT,
    ensures
        r@ == counts_of(data@, flags),
{
    let lines = memchr_count(10u8, data) as u64;
    let words = if flags.needs_words() { count_words_scalar(data) } else { 0 };
    let chars = if flags.needs_chars() { count_chars_scalar(data) } else { 0 };
    let max_line_len = if flags.needs_max_line_len() { max_line_width_of(data) } else { 0 };
    Counts { lines, words, bytes: data.len() as u64, chars, max_line_len }
}

/// Counts `data`, a whole input held in memory, under `flags` (no flag set
/// means lines, words and bytes).  Lines and bytes are always counted; words,
/// characters and the maximum line width only when asked for, else they are 0.
pub fn count_bytes(data: &[u8], flags: CountFlags) -> (r: Counts)
    requires
        flags.defaulted().max_line_len ==> data@.len() <= MAX_INPUT,
    ensures
        r@ == counts_of(data@, flags.defaulted()),
{
    let flags = flags.default_if_none();
    if flags.needs_max_line_len() {
        count_bytes_full(data, flags)
    } else if flags.needs_words() {
        let words = count_words_scalar(data);
        let lines = memchr_count(10u8, data) as u64;
        let chars = if flags.needs_chars() { count_chars_scalar(data) } else { 0 };
        Counts { lines, words, bytes: data.len() as u64, chars, max_line_len: 0 }
    } else if flags.needs_chars() {
        Counts {
            lines: memchr_count(10u8, data) as u64,
            words: 0,
            bytes: data.len() as u64,
            chars: count_chars_scalar(data),
            max_line_len: 0,
        }
    } else {
        Counts {
            lines: memchr_count(10u8, data) as u64,
            words: 0,
            bytes: data.len() as u64,
            chars: 0,
            max_line_len: 0,
        }
    }
}

} // verus!
