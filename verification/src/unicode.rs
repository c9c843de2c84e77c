//! The Unicode character classes that identifiers are made of. Within ASCII
//! they are stated here; beyond ASCII their tables belong to the standard
//! library, and this module names what it answers.
use vstd::prelude::*;

use crate::text::is_ws;

verus! {

/// What `char::is_alphanumeric` answers for a character beyond ASCII.
pub uninterp spec fn alphanumeric_beyond_ascii(c: char) -> bool;

/// What `char::is_alphabetic` answers for a character beyond ASCII that is
/// not white space.
pub uninterp spec fn alphabetic_beyond_ascii(c: char) -> bool;

/// An ASCII letter, `a` to `z` or `A` to `Z`.
pub open spec fn is_ascii_letter(c: char) -> bool {
    let u = c as u32;
    (0x61 <= u && u <= 0x7a) || (0x41 <= u && u <= 0x5a)
}

/// An ASCII digit, `0` to `9`.
pub open spec fn is_ascii_digit(c: char) -> bool {
    let u = c as u32;
    0x30 <= u && u <= 0x39
}

/// Whether `c` is a letter or a digit in Unicode's sense (the `Alphabetic`
/// property, or a numeric general category): within ASCII exactly the ASCII
/// letters and digits.
pub open spec fn alphanumeric(c: char) -> bool {
    if (c as u32) < 0x80 {
        is_ascii_letter(c) || is_ascii_digit(c)
    } else {
        alphanumeric_beyond_ascii(c)
    }
}

/// Whether `c` is a letter in Unicode's sense (the `Alphabetic` property):
/// within ASCII exactly the ASCII letters, and never a white space character.
pub open spec fn alphabetic(c: char) -> bool {
    if (c as u32) < 0x80 {
        is_ascii_letter(c)
    } else {
        alphabetic_beyond_ascii(c) && !is_ws(c)
    }
}

/// Calls `char::is_alphanumeric`, documented as `is_alphabetic() ||
/// is_numeric()`. Claimed: within ASCII the answer is true exactly for the
/// ASCII letters and digits (no other ASCII character has the `Alphabetic`
/// property or a numeric category); beyond ASCII it is
/// `alphanumeric_beyond_ascii(c)`, a function of `c` alone, of which nothing
/// more is said than that it holds for every alphabetic character.
#[verifier::external_body]
pub fn is_alphanumeric(c: char) -> (r: bool)
    ensures
        r == (if (c as u32) < 0x80 {
            is_ascii_letter(c) || is_ascii_digit(c)
        } else {
            alphanumeric_beyond_ascii(c)
        }),
        alphabetic(c) ==> r,
{
    c.is_alphanumeric()
}

/// Calls `char::is_alphabetic`, documented as the Unicode `Alphabetic`
/// property. Claimed: within ASCII the answer is true exactly for the ASCII
/// letters; beyond ASCII it is false for white space (no `White_Space`
/// character is `Alphabetic`: those are controls and separators, and
/// `Alphabetic` is made of letters, letter numbers and `Other_Alphabetic`
/// marks and symbols) and otherwise `alphabetic_beyond_ascii(c)`, a function
/// of `c` alone, of which nothing more is said.
#[verifier::external_body]
pub fn is_alphabetic(c: char) -> (r: bool)
    ensures
        r == (if (c as u32) < 0x80 {
            is_ascii_letter(c)
        } else {
            alphabetic_beyond_ascii(c) && !is_ws(c)
        }),
{
    c.is_alphabetic()
}

} // verus!
