//! Character classes, as Unicode defines them.
use vstd::prelude::*;

verus! {

/// Whether `c` has the Unicode `White_Space` property: the control characters from tab to
/// carriage return, the space, next line, the no-break space, the Ogham space mark, the spaces
/// from the en quad to the hair space, the line and paragraph separators, the narrow no-break
/// space, the medium mathematical space and the ideographic space.
pub open spec fn white_space(c: char) -> bool {
    ||| '\u{9}' <= c <= '\u{d}'
    ||| c == ' '
    ||| c == '\u{85}'
    ||| c == '\u{a0}'
    ||| c == '\u{1680}'
    ||| '\u{2000}' <= c <= '\u{200a}'
    ||| c == '\u{2028}'
    ||| c == '\u{2029}'
    ||| c == '\u{202f}'
    ||| c == '\u{205f}'
    ||| c == '\u{3000}'
}

/// Whether `c` has the Unicode `Alphabetic` property.
pub uninterp spec fn alphabetic(c: char) -> bool;

/// Whether `c` is in one of the Unicode numeric general categories.
pub uninterp spec fn numeric(c: char) -> bool;

/// Whether `c` has the Unicode `White_Space` property, as `char::is_whitespace` tells.
pub fn is_whitespace(c: char) -> (result: bool)
    ensures
        result == white_space(c),
{
    match c {
        '\u{9}'..='\u{d}' | ' ' | '\u{85}' | '\u{a0}' | '\u{1680}' | '\u{2000}'..='\u{200a}'
        | '\u{2028}' | '\u{2029}' | '\u{202f}' | '\u{205f}' | '\u{3000}' => true,
        _ => false,
    }
}

/// Calls `char::is_alphabetic`, which tells whether `c` has the Unicode
/// `Alphabetic` property; the contract names that property and says no more.
#[verifier::external_body]
pub(crate) fn is_alphabetic(c: char) -> (result: bool)
    ensures
        result == alphabetic(c),
{
    c.is_alphabetic()
}

/// Calls `char::is_alphanumeric`, which std documents as holding exactly when
/// `is_alphabetic` or `is_numeric` holds.
#[verifier::external_body]
pub(crate) fn is_alphanumeric(c: char) -> (result: bool)
    ensures
        result == (alphabetic(c) || numeric(c)),
{
    c.is_alphanumeric()
}

/// The value of `c` as a decimal digit, if it is one of `0` to `9`.
pub open spec fn decimal_digit(c: char) -> Option<u32> {
    if '0' <= c <= '9' {
        Some((c as u32 - '0' as u32) as u32)
    } else {
        None
    }
}

/// The value of `c` as a decimal digit, as `char::to_digit(10)` gives it.
pub fn to_decimal_digit(c: char) -> (digit: Option<u32>)
    ensures
        digit == decimal_digit(c),
{
    if '0' <= c && c <= '9' {
        Some(c as u32 - '0' as u32)
    } else {
        None
    }
}

} // verus!
