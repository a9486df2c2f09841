//! Counting a stream that arrives in chunks, such as standard input: a state
//! that each chunk read advances, and that gives the counts at the end.
use vstd::prelude::*;
use crate::boundary::memchr_count;
use crate::count::{
    counts_of, is_char_start_byte, scan_width, update_word_state, CountFlags, Counts,
};
use crate::model::{
    MAX_INPUT, char_count, embeds, is_continuation, lemma_extend, lemma_extend_none,
    lemma_line_count_bound, lemma_line_count_concat, line_count, width_scan, word_scan, word_step,
};

verus! {

/// The views of a list of chunks.
pub open spec fn chunk_views(chunks: Seq<Vec<u8>>) -> Seq<Seq<u8>> {
    chunks.map_values(|v: Vec<u8>| v@)
}

/// Appends `bytes[0..k]` to `out`.
fn push_prefix(out: &mut Vec<u8>, bytes: &[u8], k: usize)
    requires
        k <= bytes.len(),
    ensures
        final(out)@ == old(out)@ + bytes@.take(k as int),
{
    let ghost start = out@;
    let mut j: usize = 0;
    while j < k
        invariant
            j <= k,
            k <= bytes.len(),
            out@ == start + bytes@.take(j as int),
        decreases k - j,
    {
        out.push(bytes[j]);
        assert(bytes@.take(j + 1) =~= bytes@.take(j as int).push(bytes@[j as int]));
        j = j + 1;
    }
}

/// The bytes of `buf` from `from` on.
fn tail_of(buf: &[u8], from: usize) -> (r: Vec<u8>)
    requires
        from <= buf.len(),
    ensures
        r@ == buf@.subrange(from as int, buf@.len() as int),
{
    let mut r: Vec<u8> = Vec::new();
    let mut j: usize = from;
    while j < buf.len()
        invariant
            from <= j <= buf.len(),
            r@ == buf@.subrange(from as int, j as int),
        decreases buf.len() - j,
    {
        r.push(buf[j]);
        assert(buf@.subrange(from as int, j + 1) =~= buf@.subrange(from as int, j as int).push(buf@[j as int]));
        j = j + 1;
    }
    r
}

/// Word and character counting of one byte, as asked for.
fn tally_byte(
    b: u8,
    need_words: bool,
    need_chars: bool,
    in_word: &mut bool,
    words: &mut u64,
    chars: &mut u64,
)
    requires
        *old(words) < u64::MAX,
        *old(chars) < u64::MAX,
    ensures
        need_words ==> (*final(in_word), *final(words) as nat) == word_step(
            (*old(in_word), *old(words) as nat),
            b,
        ),
        !need_words ==> *final(in_word) == *old(in_word) && *final(words) == *old(words),
        need_chars ==> *final(chars) as nat == *old(chars) as nat + if is_continuation(b) {
            0nat
        } else {
            1nat
        },
        !need_chars ==> *final(chars) == *old(chars),
{
    if need_words {
        update_word_state(b, in_word, words);
    }
    if need_chars && is_char_start_byte(b) {
        *chars = *chars + 1;
    }
}

/// The state of a count over a stream: the counts of the bytes read so far,
/// whether they end inside a word, and the display-width state.  A
/// multi-byte sequence that the last chunk cut short waits in `pending` for
/// the bytes that complete it.
pub struct ReaderCounter {
    flags: CountFlags,
    counts: Counts,
    in_word: bool,
    line_len: u64,
    pending: Vec<u8>,
    chunks: Ghost<Seq<Seq<u8>>>,
}

impl ReaderCounter {
    /// The flags counted under (defaulted).
    pub closed spec fn flags(self) -> CountFlags {
        self.flags
    }

    /// The chunks read so far.
    pub closed spec fn chunks(self) -> Seq<Seq<u8>> {
        self.chunks@
    }

    /// The number of bytes read so far.
    pub open spec fn bytes_read(self) -> nat {
        self.chunks().flatten().len()
    }

    /// Whether `n` more bytes can be read: the byte count stays within 64
    /// bits, and within `MAX_INPUT` when the display width is counted.
    pub open spec fn can_take(self, n: nat) -> bool {
        &&& self.bytes_read() + n <= u64::MAX
        &&& self.flags().max_line_len ==> self.bytes_read() + n <= MAX_INPUT
    }

    closed spec fn counts_ok(self, s: Seq<u8>) -> bool {
        &&& self.counts.bytes == s.len()
        &&& self.counts.lines == line_count(s)
        &&& self.flags.words ==> (self.in_word, self.counts.words as nat) == word_scan(
            s,
            (false, 0),
        )
        &&& !self.flags.words ==> self.counts.words == 0
        &&& self.flags.chars ==> self.counts.chars == char_count(s)
        &&& !self.flags.chars ==> self.counts.chars == 0
        &&& self.counts.lines <= s.len()
        &&& self.counts.words <= s.len()
        &&& self.counts.chars <= s.len()
    }

    closed spec fn width_ok(self, s: Seq<u8>) -> bool {
        let pos = s.len() - self.pending@.len();
        if self.flags.max_line_len {
            &&& s.len() <= MAX_INPUT
            &&& self.pending@.len() <= 3
            &&& self.pending@.len() <= s.len()
            &&& self.pending@ == s.subrange(pos, s.len() as int)
            &&& self.line_len <= 8 * pos
            &&& self.counts.max_line_len <= 8 * pos
            &&& forall|t: Seq<u8>|
                #[trigger] width_scan(s + t, 0, 0, 0) == width_scan(
                    s + t,
                    pos,
                    self.line_len as nat,
                    self.counts.max_line_len as nat,
                )
        } else {
            &&& self.pending@.len() == 0
            &&& self.line_len == 0
            &&& self.counts.max_line_len == 0
        }
    }

    pub closed spec fn wf(self) -> bool {
        &&& self.flags == self.flags.defaulted()
        &&& self.counts_ok(self.chunks@.flatten())
        &&& self.width_ok(self.chunks@.flatten())
    }

    /// A count under `flags` (no flag set means lines, words and bytes) that
    /// has read nothing yet.
    pub fn new(flags: CountFlags) -> (r: Self)
        ensures
            r.wf(),
            r.flags() == flags.defaulted(),
            r.chunks() == Seq::<Seq<u8>>::empty(),
    {
        let r = ReaderCounter {
            flags: flags.default_if_none(),
            counts: Counts { lines: 0, words: 0, bytes: 0, chars: 0, max_line_len: 0 },
            in_word: false,
            line_len: 0,
            pending: Vec::new(),
            chunks: Ghost(Seq::empty()),
        };
        assert(r.chunks@.flatten() =~= Seq::<u8>::empty());
        assert(r.pending@ =~= Seq::<u8>::empty().subrange(0, 0));
        r
    }

    /// Whether `n` more bytes can be read.
    pub fn can_feed(&self, n: usize) -> (r: bool)
        requires
            self.wf(),
        ensures
            r == self.can_take(n as nat),
    {
        if self.flags.needs_max_line_len() {
            n as u64 <= MAX_INPUT - self.counts.bytes
        } else {
            n as u64 <= u64::MAX - self.counts.bytes
        }
    }

    /// Reads one more chunk.
    pub fn feed(&mut self, chunk: &[u8])
        requires
            old(self).wf(),
            old(self).can_take(chunk@.len()),
        ensures
            final(self).wf(),
            final(self).flags() == old(self).flags(),
            final(self).chunks() == old(self).chunks().push(chunk@),
    {
        let ghost old_chunks = self.chunks@;
        let ghost s = self.chunks@.flatten();
        if self.flags.needs_max_line_len() {
            self.feed_width(chunk, Ghost(s));
        }
        self.feed_counters(chunk, Ghost(s));
        self.chunks = Ghost(old_chunks.push(chunk@));
        proof {
            old_chunks.lemma_flatten_push(chunk@);
        }
    }

    /// The counts of all the bytes read.
    pub fn finish(&self) -> (r: Counts)
        requires
            self.wf(),
        ensures
            r@ == counts_of(self.chunks().flatten(), self.flags()),
    {
        let ghost s = self.chunks@.flatten();
        let mut c = self.counts;
        if self.flags.needs_max_line_len() {
            let ghost pos = s.len() - self.pending@.len();
            let (_, cur, max) = scan_width(self.pending.as_slice(), 0, self.line_len, self.counts.max_line_len, true);
            proof {
                assert(s + Seq::<u8>::empty() =~= s);
                assert(width_scan(s + Seq::<u8>::empty(), 0, 0, 0) == width_scan(
                    s + Seq::<u8>::empty(),
                    pos,
                    self.line_len as nat,
                    self.counts.max_line_len as nat,
                ));
                assert(embeds(s, pos, self.pending@));
            }
            c.max_line_len = if cur > max { cur } else { max };
        }
        c
    }

    /// Counts bytes and lines of a chunk, and words and characters as asked
    /// for.
    fn feed_counters(&mut self, chunk: &[u8], Ghost(d): Ghost<Seq<u8>>)
        requires
            old(self).counts_ok(d),
            d.len() + chunk@.len() <= u64::MAX,
        ensures
            final(self).counts_ok(d + chunk@),
            final(self).flags == old(self).flags,
            final(self).line_len == old(self).line_len,
            final(self).counts.max_line_len == old(self).counts.max_line_len,
            final(self).pending == old(self).pending,
            final(self).chunks == old(self).chunks,
    {
        let ghost c = chunk@;
        let need_words = self.flags.needs_words();
        let need_chars = self.flags.needs_chars();
        let n = memchr_count(10u8, chunk) as u64;
        proof {
            lemma_line_count_concat(d, c);
            lemma_line_count_bound(c);
            lemma_extend_none(d, c);
        }
        self.counts.bytes = self.counts.bytes + chunk.len() as u64;
        self.counts.lines = self.counts.lines + n;
        if need_words || need_chars {
            let mut in_word = self.in_word;
            let mut words = self.counts.words;
            let mut chars = self.counts.chars;
            let mut i: usize = 0;
            while i < chunk.len()
                invariant
                    i <= chunk.len(),
                    c == chunk@,
                    d.len() + c.len() <= u64::MAX,
                    need_words ==> (in_word, words as nat) == word_scan(d + c.take(i as int), (false, 0)),
                    !need_words ==> words == 0,
                    need_chars ==> chars == char_count(d + c.take(i as int)),
                    !need_chars ==> chars == 0,
                    words <= d.len() + i,
                    chars <= d.len() + i,
                decreases chunk.len() - i,
            {
                proof {
                    lemma_extend(d, c, i as int, (false, 0));
                }
                tally_byte(chunk[i], need_words, need_chars, &mut in_word, &mut words, &mut chars);
                i = i + 1;
            }
            self.in_word = in_word;
            self.counts.words = words;
            self.counts.chars = chars;
        }
    }

    /// Advances the display-width scan over a chunk: tokens that have all
    /// their bytes are scanned, and a cut-short sequence at the end waits for
    /// the next chunk.
    fn feed_width(&mut self, chunk: &[u8], Ghost(d): Ghost<Seq<u8>>)
        requires
            old(self).flags.max_line_len,
            old(self).width_ok(d),
            d.len() + chunk@.len() <= MAX_INPUT,
        ensures
            final(self).width_ok(d + chunk@),
            final(self).flags == old(self).flags,
            final(self).in_word == old(self).in_word,
            final(self).counts.lines == old(self).counts.lines,
            final(self).counts.words == old(self).counts.words,
            final(self).counts.bytes == old(self).counts.bytes,
            final(self).counts.chars == old(self).counts.chars,
            final(self).chunks == old(self).chunks,
    {
        let ghost c = chunk@;
        let ghost d2 = d + c;
        let p = self.pending.len();
        let ghost pos = d.len() - p;
        let cur = self.line_len;
        let max = self.counts.max_line_len;
        let k = if chunk.len() < 3 { chunk.len() } else { 3 };
        let mut head: Vec<u8> = Vec::new();
        push_prefix(&mut head, self.pending.as_slice(), p);
        push_prefix(&mut head, chunk, k);
        proof {
            assert(self.pending@.take(p as int) =~= self.pending@);
            assert(head@ =~= d2.subrange(pos, d.len() + k));
        }
        let (r0, c1, m1) = scan_width(head.as_slice(), 0, cur, max, false);
        let new_cur;
        let new_max;
        let new_pending;
        let ghost new_pos;
        if r0 < p {
            proof {
                assert(k == chunk.len());
                assert(head@ =~= d2.subrange(pos, d2.len() as int));
            }
            new_cur = c1;
            new_max = m1;
            new_pending = tail_of(head.as_slice(), r0);
            proof {
                new_pos = pos + r0;
                assert(new_pending@ =~= d2.subrange(new_pos, d2.len() as int));
            }
        } else {
            let (r1, c2, m2) = scan_width(chunk, r0 - p, c1, m1, false);
            new_cur = c2;
            new_max = m2;
            new_pending = tail_of(chunk, r1);
            proof {
                new_pos = d.len() + r1;
                assert(new_pending@ =~= d2.subrange(new_pos, d2.len() as int));
            }
            assert forall|t2: Seq<u8>| #[trigger] embeds(d2 + t2, d.len() as int, c) by {
                assert((d2 + t2).subrange(d.len() as int, (d.len() + c.len()) as int) =~= c);
            }
        }
        proof {
            assert forall|t2: Seq<u8>|
                #[trigger] width_scan(d2 + t2, 0, 0, 0) == width_scan(
                    d2 + t2,
                    new_pos,
                    new_cur as nat,
                    new_max as nat,
                ) by {
                let t = c + t2;
                assert(d + t =~= d2 + t2);
                assert(width_scan(d + t, 0, 0, 0) == width_scan(d + t, pos, cur as nat, max as nat));
                assert((d2 + t2).subrange(pos, pos + head@.len()) =~= head@);
                assert(embeds(d2 + t2, pos, head@));
                if r0 >= p {
                    assert(embeds(d2 + t2, d.len() as int, c));
                    assert(pos + r0 == d.len() + (r0 - p));
                }
            }
        }
        self.line_len = new_cur;
        self.counts.max_line_len = new_max;
        self.pending = new_pending;
    }
}

/// Counts a stream read as `chunks`, each element what one read gave, under
/// `flags` (no flag set means lines, words and bytes): the counts are those
/// of all the bytes read, however they were split into chunks.
pub fn count_reader(chunks: &Vec<Vec<u8>>, flags: CountFlags) -> (r: Counts)
    requires
        chunk_views(chunks@).flatten().len() <= u64::MAX,
        flags.defaulted().max_line_len ==> chunk_views(chunks@).flatten().len() <= MAX_INPUT,
    ensures
        r@ == counts_of(chunk_views(chunks@).flatten(), flags.defaulted()),
{
    let ghost all = chunk_views(chunks@);
    let mut st = ReaderCounter::new(flags);
    let mut k: usize = 0;
    while k < chunks.len()
        invariant
            k <= chunks.len(),
            all == chunk_views(chunks@),
            all.flatten().len() <= u64::MAX,
            flags.defaulted().max_line_len ==> all.flatten().len() <= MAX_INPUT,
            st.wf(),
            st.flags() == flags.defaulted(),
            st.chunks() == all.take(k as int),
        decreases chunks.len() - k,
    {
        proof {
            vstd::seq_lib::lemma_flatten_concat(all.take(k + 1), all.skip(k + 1));
            assert(all.take(k + 1) + all.skip(k + 1) =~= all);
            all.take(k as int).lemma_flatten_push(all[k as int]);
            assert(all.take(k + 1) =~= all.take(k as int).push(all[k as int]));
        }
        st.feed(chunks[k].as_slice());
        k = k + 1;
    }
    assert(all.take(k as int) =~= all);
    st.finish()
}

} // verus!
