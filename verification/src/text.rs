//! Writing text: characters, strings and numbers in decimal.
use vstd::prelude::*;

verus! {

/// Appends a character to a string, as `String::push` does.
#[verifier::external_body]
pub(crate) fn push_char(text: &mut String, character: char)
    ensures
        final(text)@ == old(text)@.push(character),
{
    text.push(character)
}

/// The character of a decimal digit.
pub open spec fn digit_char(digit: nat) -> char {
    seq!['0', '1', '2', '3', '4', '5', '6', '7', '8', '9'][digit as int]
}

/// The decimal numeral of `n`, without leading zeros.
pub open spec fn decimal(n: nat) -> Seq<char>
    decreases n,
{
    if n < 10 {
        seq![digit_char(n)]
    } else {
        decimal(n / 10).push(digit_char(n % 10))
    }
}

/// Appends the decimal numeral of `n`.
pub fn push_decimal(text: &mut String, n: u128)
    ensures
        final(text)@ == old(text)@ + decimal(n as nat),
    decreases n,
{
    let digits = ['0', '1', '2', '3', '4', '5', '6', '7', '8', '9'];
    if n >= 10 {
        push_decimal(text, n / 10);
    }
    let digit = digits[(n % 10) as usize];
    assert(digit == digit_char((n % 10) as nat));
    push_char(text, digit);
}

/// How `{:?}` writes a character: quoted, with escapes, as std's `Debug` for `char` does.
pub uninterp spec fn char_debug(c: char) -> Seq<char>;

/// Writes a character as `{:?}` does, by calling std's `Debug` for `char`; the contract names
/// the result and says no more of it.
#[verifier::external_body]
pub(crate) fn debug_char(c: char) -> (text: String)
    ensures
        text@ == char_debug(c),
{
    format!("{:?}", c)
}

} // verus!
