//! The calls into other crates and into std that the counting logic makes,
//! each with the contract that the callee's source or documentation shows.
use vstd::prelude::*;
use unicode_width::UnicodeWidthChar;

verus! {

/// The number of occurrences of `needle` in `s`.
pub open spec fn occurrences(s: Seq<u8>, needle: u8) -> nat
    decreases s.len(),
{
    if s.len() == 0 {
        0
    } else {
        occurrences(s.drop_last(), needle) + if s.last() == needle { 1nat } else { 0nat }
    }
}

/// Counts the occurrences of `needle` in `haystack` with
/// `memchr::memchr_iter(needle, haystack).count()`.
///
/// Trusted: `memchr_iter` yields the position of every occurrence of the needle
/// in the haystack, and its `count` counts them; the contract says that the
/// result is that number.
#[verifier::external_body]
pub(crate) fn memchr_count(needle: u8, haystack: &[u8]) -> (r: usize)
    ensures
        r == occurrences(haystack@, needle),
{
    memchr::memchr_iter(needle, haystack).count()
}

/// The display width that `unicode_width` gives a character:
/// `UnicodeWidthChar::width(c)`.
pub uninterp spec fn unicode_width(c: char) -> Option<usize>;

/// Calls `unicode_width::UnicodeWidthChar::width`.
///
/// Trusted: the result is the named width of `c`.  The crate's source (version
/// 0.2) returns `None` below U+0020 and from U+007F up to U+00A0, `Some(1)` from
/// U+0020 up to U+007F, and from U+00A0 on a table entry of two bits (0, 1 or
/// 2) or, for the entries marked 3, a width of 0, 1, 2 or 3 (3 only for
/// U+17D8), so never more than 3.  Which width a character from U+00A0 on has
/// is left to the name.
#[verifier::external_body]
pub(crate) fn char_width(c: char) -> (r: Option<usize>)
    ensures
        r == unicode_width(c),
        (c as u32) < 0x20 ==> r is None,
        0x20 <= (c as u32) < 0x7F ==> r == Some(1usize),
        0x7F <= (c as u32) < 0xA0 ==> r is None,
        r matches Some(w) ==> w <= 3,
{
    UnicodeWidthChar::width(c)
}

/// Calls `char::from_u32`.
///
/// Trusted: std documents that it returns `None` exactly when `cp` is not a
/// Unicode scalar value (a surrogate or above U+10FFFF), and otherwise the
/// character whose code point is `cp`.
#[verifier::external_body]
pub(crate) fn char_from_u32(cp: u32) -> (r: Option<char>)
    ensures
        r is Some <==> vstd::utf8::is_scalar(cp),
        r matches Some(c) ==> c as u32 == cp,
{
    char::from_u32(cp)
}

} // verus!
