//! The report: which counts a file gets them from, how wide the columns are,
//! and the text of one report line.
use vstd::prelude::*;
use vstd::string::StringSliceAdditionalSpecFns;
use crate::count::{CountFlags, Counts, CountsView};

verus! {

/// The decimal digits of `n` as ASCII bytes, most significant first.
pub open spec fn decimal(n: nat) -> Seq<u8>
    decreases n,
{
    if n < 10 {
        seq![(48 + n) as u8]
    } else {
        decimal(n / 10).push((48 + n % 10) as u8)
    }
}

pub open spec fn pow10(k: nat) -> nat
    decreases k,
{
    if k == 0 {
        1
    } else {
        10 * pow10((k - 1) as nat)
    }
}

/// A number below `10^k` has at most `k` digits.
pub proof fn lemma_decimal_len_bound(n: nat, k: nat)
    requires
        k >= 1,
        n < pow10(k),
    ensures
        1 <= decimal(n).len() <= k,
    decreases k,
{
    if n >= 10 {
        if k == 1 {
            assert(pow10(1) == 10) by {
                reveal_with_fuel(pow10, 2);
            }
        }
        lemma_decimal_len_bound(n / 10, (k - 1) as nat);
    }
}

/// A 64-bit number has at most 20 digits.
pub proof fn lemma_decimal_len_u64(n: u64)
    ensures
        1 <= decimal(n as nat).len() <= 20,
{
    assert(pow10(20) == 100_000_000_000_000_000_000) by {
        reveal_with_fuel(pow10, 21);
    }
    lemma_decimal_len_bound(n as nat, 20);
}

/// The number of decimal digits of `n`.
pub fn number_width(n: u64) -> (r: usize)
    ensures
        r == decimal(n as nat).len(),
{
    if n == 0 {
        return 1;
    }
    proof {
        lemma_decimal_len_u64(n);
    }
    let mut w: usize = 0;
    let mut v = n;
    while v > 0
        invariant
            decimal(n as nat).len() <= 20,
            v > 0 ==> w + decimal(v as nat).len() == decimal(n as nat).len(),
            v == 0 ==> w == decimal(n as nat).len(),
        decreases v,
    {
        w = w + 1;
        v = v / 10;
    }
    w
}

/// Appends the decimal digits of `n` to `out`.
fn push_decimal(out: &mut Vec<u8>, n: u64)
    ensures
        final(out)@ == old(out)@ + decimal(n as nat),
    decreases n,
{
    if n >= 10 {
        push_decimal(out, n / 10);
    }
    out.push(48u8 + (n % 10) as u8);
    assert(decimal(n as nat) =~= if n < 10 {
        seq![(48 + n) as u8]
    } else {
        decimal((n / 10) as nat).push((48 + n % 10) as u8)
    });
}

/// `k` spaces.
pub open spec fn spaces(k: nat) -> Seq<u8> {
    Seq::new(k, |i: int| 32u8)
}

/// `n` right-aligned in a field of at least `width` columns.
pub open spec fn padded(n: nat, width: nat) -> Seq<u8> {
    let digits = decimal(n);
    if width > digits.len() {
        spaces((width - digits.len()) as nat) + digits
    } else {
        digits
    }
}

/// The counts shown under `f`, in the order lines, words, characters,
/// bytes, maximum line width.
pub open spec fn shown(c: CountsView, f: CountFlags) -> Seq<nat> {
    (if f.lines { seq![c.lines] } else { seq![] }) + (if f.words { seq![c.words] } else { seq![] })
        + (if f.chars { seq![c.chars] } else { seq![] }) + (if f.bytes { seq![c.bytes] } else { seq![] })
        + (if f.max_line_len { seq![c.max_line_len] } else { seq![] })
}

/// The fields of `values`, each right-aligned to `width`, separated by one
/// space.
pub open spec fn joined(values: Seq<nat>, width: nat) -> Seq<u8>
    decreases values.len(),
{
    if values.len() == 0 {
        seq![]
    } else if values.len() == 1 {
        padded(values[0], width)
    } else {
        joined(values.drop_last(), width) + seq![32u8] + padded(values.last(), width)
    }
}

/// One report line: the shown counts, then a space and the name when there
/// is one, then a newline.
pub open spec fn report_line(c: CountsView, f: CountFlags, width: nat, name: Option<Seq<u8>>) -> Seq<u8> {
    joined(shown(c, f), width) + match name {
        Some(n) => seq![32u8] + n,
        None => seq![],
    } + seq![10u8]
}

/// Appends `n` right-aligned to `width`.
fn push_padded(out: &mut Vec<u8>, n: u64, width: usize)
    ensures
        final(out)@ == old(out)@ + padded(n as nat, width as nat),
{
    let digits = number_width(n);
    let ghost start = out@;
    if width > digits {
        let mut k: usize = 0;
        while k < width - digits
            invariant
                k <= width - digits,
                out@ == start + spaces(k as nat),
            decreases width - digits - k,
        {
            out.push(32u8);
            assert(spaces((k + 1) as nat) =~= spaces(k as nat).push(32u8));
            k = k + 1;
        }
    }
    let ghost before = out@;
    push_decimal(out, n);
    assert(out@ =~= start + padded(n as nat, width as nat));
}

/// The counts that `flags` shows, in report order.
fn shown_values(counts: &Counts, flags: &CountFlags) -> (r: Vec<u64>)
    ensures
        r@.map_values(|v: u64| v as nat) == shown(counts@, *flags),
{
    let mut values: Vec<u64> = Vec::new();
    if flags.lines {
        values.push(counts.lines);
    }
    if flags.words {
        values.push(counts.words);
    }
    if flags.chars {
        values.push(counts.chars);
    }
    if flags.bytes {
        values.push(counts.bytes);
    }
    if flags.max_line_len {
        values.push(counts.max_line_len);
    }
    assert(values@.map_values(|v: u64| v as nat) =~= shown(counts@, *flags));
    values
}

/// Appends the fields of `values`, right-aligned to `width` and separated by
/// spaces.
fn push_joined(out: &mut Vec<u8>, values: &Vec<u64>, width: usize)
    ensures
        final(out)@ == old(out)@ + joined(values@.map_values(|v: u64| v as nat), width as nat),
{
    let ghost vals = values@.map_values(|v: u64| v as nat);
    let ghost start = out@;
    let mut k: usize = 0;
    while k < values.len()
        invariant
            k <= values.len(),
            vals == values@.map_values(|v: u64| v as nat),
            out@ == start + joined(vals.take(k as int), width as nat),
        decreases values.len() - k,
    {
        let ghost prev = out@;
        if k > 0 {
            out.push(32u8);
        }
        push_padded(out, values[k], width);
        proof {
            let t = vals.take(k + 1);
            assert(t.drop_last() =~= vals.take(k as int));
            assert(t.last() == values@[k as int] as nat);
            if k == 0 {
                assert(joined(vals.take(0), width as nat) =~= Seq::<u8>::empty());
                assert(out@ =~= start + joined(t, width as nat));
            } else {
                assert(out@ =~= start + joined(t, width as nat));
            }
        }
        k = k + 1;
    }
    assert(vals.take(k as int) =~= vals);
}

/// Appends the bytes of `bytes`.
fn push_bytes(out: &mut Vec<u8>, bytes: &[u8])
    ensures
        final(out)@ == old(out)@ + bytes@,
{
    let ghost start = out@;
    let mut j: usize = 0;
    while j < bytes.len()
        invariant
            j <= bytes.len(),
            out@ == start + bytes@.take(j as int),
        decreases bytes.len() - j,
    {
        out.push(bytes[j]);
        assert(bytes@.take(j + 1) =~= bytes@.take(j as int).push(bytes@[j as int]));
        j = j + 1;
    }
    assert(bytes@.take(j as int) =~= bytes@);
}

/// The text of one report line for `counts`: the counts asked for by `flags`
/// in the order lines, words, characters, bytes, maximum line width, each
/// right-aligned to `width` columns and separated by a space, then a space
/// and the file name when there is one, then a newline.
pub fn format_counts(counts: &Counts, flags: &CountFlags, width: usize, filename: Option<&str>) -> (r: Vec<u8>)
    ensures
        r@ == report_line(counts@, *flags, width as nat, match filename {
            Some(s) => Some(s.spec_bytes()),
            None => None,
        }),
{
    let values = shown_values(counts, flags);
    let mut out: Vec<u8> = Vec::new();
    push_joined(&mut out, &values, width);
    match filename {
        Some(name) => {
            out.push(32u8);
            push_bytes(&mut out, name.as_bytes());
        },
        None => {},
    }
    out.push(10u8);
    assert(out@ =~= report_line(counts@, *flags, width as nat, match filename {
        Some(s) => Some(s.spec_bytes()),
        None => None,
    }));
    out
}

/// What is known of one input before it is counted: it is standard input,
/// or a path whose size the file system reported, or a path whose size is
/// unknown.
#[derive(Debug, Clone, Copy)]
pub enum InputSize {
    Stdin,
    Sized(u64),
    Unknown,
}

/// The sum of the reported sizes.
pub open spec fn total_size(inputs: Seq<InputSize>) -> nat
    decreases inputs.len(),
{
    if inputs.len() == 0 {
        0
    } else {
        total_size(inputs.drop_last()) + match inputs.last() {
            InputSize::Sized(n) => n as nat,
            _ => 0,
        }
    }
}

pub proof fn lemma_total_size_prefix(inputs: Seq<InputSize>, i: int)
    requires
        0 <= i <= inputs.len(),
    ensures
        total_size(inputs.take(i)) <= total_size(inputs),
    decreases inputs.len(),
{
    if i < inputs.len() {
        lemma_total_size_prefix(inputs.drop_last(), i);
        assert(inputs.drop_last().take(i) =~= inputs.take(i));
    } else {
        assert(inputs.take(i) =~= inputs);
    }
}

/// The column width of the report: 7 when standard input is read (no input
/// named, or one of them is standard input), 1 when neither bytes nor
/// characters are shown, else the number of digits of the total size.
pub open spec fn field_width(inputs: Seq<InputSize>, f: CountFlags) -> nat {
    if inputs.len() == 0 {
        7
    } else if !f.bytes && !f.chars {
        1
    } else if exists|i: int| 0 <= i < inputs.len() && #[trigger] inputs[i] is Stdin {
        7
    } else {
        decimal(total_size(inputs)).len()
    }
}

/// The column width of the report for `inputs` shown under `flags`.
pub fn compute_field_width(inputs: &Vec<InputSize>, flags: &CountFlags) -> (r: usize)
    requires
        total_size(inputs@) <= u64::MAX,
    ensures
        r == field_width(inputs@, *flags),
{
    if inputs.len() == 0 {
        return 7;
    }
    if !flags.bytes && !flags.chars {
        return 1;
    }
    let mut total_size_sum: u64 = 0;
    let mut i: usize = 0;
    while i < inputs.len()
        invariant
            i <= inputs.len(),
            total_size(inputs@) <= u64::MAX,
            inputs.len() > 0,
            flags.bytes || flags.chars,
            total_size_sum == total_size(inputs@.take(i as int)),
            forall|k: int| 0 <= k < i ==> !(#[trigger] inputs@[k] is Stdin),
        decreases inputs.len() - i,
    {
        proof {
            lemma_total_size_prefix(inputs@, i + 1);
            assert(inputs@.take(i + 1).drop_last() =~= inputs@.take(i as int));
        }
        match inputs[i] {
            InputSize::Stdin => {
                assert(inputs@[i as int] is Stdin);
                return 7;
            },
            InputSize::Sized(n) => {
                total_size_sum = total_size_sum + n;
            },
            InputSize::Unknown => {},
        }
        i = i + 1;
    }
    assert(inputs@.take(i as int) =~= inputs@);
    let w = number_width(total_size_sum);
    if w < 1 {
        1
    } else {
        w
    }
}

/// Where the counts of a named file come from.
#[derive(Debug, Clone, Copy)]
pub enum CountSource {
    /// Only bytes are asked for of a regular file: the size the file system
    /// reports is the count.
    Metadata(Counts),
    /// A regular file with content: count it mapped into memory as a whole.
    Mapped,
    /// Anything else: count it as a stream of reads.
    Streamed,
}

/// Only the byte count is asked for.
pub open spec fn bytes_only(f: CountFlags) -> bool {
    f.bytes && !f.lines && !f.words && !f.chars && !f.max_line_len
}

/// The counts of a file of `size` bytes when only bytes are asked for.
pub open spec fn size_counts(size: nat) -> CountsView {
    CountsView { lines: 0, words: 0, bytes: size, chars: 0, max_line_len: 0 }
}

/// Chooses how to count a named file under `flags` (no flag set means lines,
/// words and bytes), given whether it is a regular file and its size.  Only a
/// regular file's size is its byte count; anything else (a pipe, a device)
/// is read.
pub fn choose_source(flags: CountFlags, is_regular_file: bool, size: u64) -> (r: CountSource)
    ensures
        bytes_only(flags.defaulted()) && is_regular_file ==> (r matches CountSource::Metadata(c)
            && c@ == size_counts(size as nat)),
        !bytes_only(flags.defaulted()) && is_regular_file && size > 0 ==> (r is Mapped),
        !(bytes_only(flags.defaulted()) && is_regular_file) && !(is_regular_file && size > 0) ==> (r is Streamed),
{
    let effective = flags.default_if_none();
    let only_bytes = effective.bytes && !effective.lines && !effective.words && !effective.chars
        && !effective.max_line_len;
    if only_bytes && is_regular_file {
        return CountSource::Metadata(
            Counts { lines: 0, words: 0, bytes: size, chars: 0, max_line_len: 0 },
        );
    }
    if is_regular_file && size > 0 {
        return CountSource::Mapped;
    }
    CountSource::Streamed
}

} // verus!
