//! Text helpers: comparisons and conversions between characters and the
//! byte and UTF-16 code units that emulated memory holds.
use vstd::prelude::*;
use vstd::string::*;

verus! {

/// Lower-cased form of a string, as Rust's `str::to_lowercase` computes it
/// (full Unicode case mapping).
pub uninterp spec fn lowercase(s: Seq<char>) -> Seq<char>;

/// Whether every character is ASCII.
pub open spec fn ascii_only(s: Seq<char>) -> bool {
    forall|i: int| 0 <= i < s.len() ==> ((#[trigger] s[i]) as u32) < 0x80
}

/// An ASCII capital letter made small; any other character as it is.
pub open spec fn ascii_lower_char(c: char) -> char {
    if 0x41 <= (c as u32) && (c as u32) <= 0x5a {
        ((c as u32) + 0x20) as char
    } else {
        c
    }
}

/// An ASCII small letter made capital; any other character as it is.
pub open spec fn ascii_upper_char(c: char) -> char {
    if 0x61 <= (c as u32) && (c as u32) <= 0x7a {
        ((c as u32) - 0x20) as char
    } else {
        c
    }
}

/// The string with its ASCII capital letters made small.
pub open spec fn ascii_lowercase(s: Seq<char>) -> Seq<char> {
    s.map_values(|c: char| ascii_lower_char(c))
}

/// The string with its ASCII small letters made capital.
pub open spec fn ascii_uppercase(s: Seq<char>) -> Seq<char> {
    s.map_values(|c: char| ascii_upper_char(c))
}

/// Calls `str::to_lowercase`. Claims that the result is the named
/// lower-cased form of the argument, a function of its characters alone,
/// and, for an all-ASCII argument, the argument with `A`-`Z` made `a`-`z`
/// (the Unicode lower-case mapping of those letters; every other ASCII
/// character maps to itself). Nothing more is said of other characters.
#[verifier::external_body]
pub(crate) fn to_lowercase(s: &str) -> (r: String)
    ensures
        r@ == lowercase(s@),
        ascii_only(s@) ==> r@ == ascii_lowercase(s@),
{
    s.to_lowercase()
}

/// Calls `String::push`. Claims that the character is appended at the end.
#[verifier::external_body]
pub(crate) fn push_char(s: &mut String, c: char)
    ensures
        final(s)@ == old(s)@.push(c),
{
    s.push(c)
}

/// Whether a code point is a Unicode scalar value (a valid `char`).
pub open spec fn is_scalar(code: u32) -> bool {
    code < 0xd800 || (0xe000 <= code && code <= 0x10ffff)
}

/// Calls `char::from_u32`. Claims what its documentation states: `None`
/// exactly for code points that are no Unicode scalar value, else the
/// character with that code.
#[verifier::external_body]
pub(crate) fn char_from_u32(code: u32) -> (r: Option<char>)
    ensures
        r == (if is_scalar(code) { Some(code as char) } else { None }),
{
    char::from_u32(code)
}

/// The character that a UTF-16 code unit stands for when read on its own:
/// the unit itself, or U+FFFD for a lone surrogate.
pub open spec fn wide_char(w: u16) -> char {
    if is_scalar(w as u32) { (w as u32) as char } else { '\u{fffd}' }
}

pub fn decode_wide_char(w: u16) -> (c: char)
    ensures
        c == wide_char(w),
{
    match char_from_u32(w as u32) {
        Some(c) => c,
        None => '\u{fffd}',
    }
}

/// The character that a byte stands for (ISO 8859-1).
pub open spec fn byte_char(b: u8) -> char {
    (b as u32) as char
}

pub fn decode_byte_char(b: u8) -> (c: char)
    ensures
        c == byte_char(b),
{
    b as char
}

/// Whether two strings hold the same characters.
pub fn str_eq(a: &str, b: &str) -> (r: bool)
    ensures
        r == (a@ == b@),
{
    let n = a.unicode_len();
    if n != b.unicode_len() {
        return false;
    }
    let mut i: usize = 0;
    while i < n
        invariant
            n == a@.len(),
            n == b@.len(),
            i <= n,
            forall|j: int| 0 <= j < i ==> a@[j] == b@[j],
        decreases n - i,
    {
        if a.get_char(i) != b.get_char(i) {
            return false;
        }
        i += 1;
    }
    assert(a@ =~= b@);
    true
}

/// Whether `s` ends with the characters of `suffix`.
pub open spec fn ends_with(s: Seq<char>, suffix: Seq<char>) -> bool {
    suffix.len() <= s.len() && s.subrange(s.len() - suffix.len(), s.len() as int) == suffix
}

pub fn str_ends_with(s: &str, suffix: &str) -> (r: bool)
    ensures
        r == ends_with(s@, suffix@),
{
    let n = s.unicode_len();
    let k = suffix.unicode_len();
    if k > n {
        return false;
    }
    let mut i: usize = 0;
    while i < k
        invariant
            n == s@.len(),
            k == suffix@.len(),
            k <= n,
            i <= k,
            forall|j: int| 0 <= j < i ==> s@[n - k + j] == suffix@[j],
        decreases k - i,
    {
        if s.get_char(n - k + i) != suffix.get_char(i) {
            assert(s@.subrange(n - k, n as int)[i as int] != suffix@[i as int]);
            return false;
        }
        i += 1;
    }
    assert(s@.subrange(n - k, n as int) =~= suffix@);
    true
}

} // verus!
