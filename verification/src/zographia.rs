//! Sizing a drawing canvas within the page element that holds it.
use std::num::ParseIntError;
use vstd::prelude::*;

verus! {

/// A coordinate in whole pixels.
pub type IntCoord = u32;

/// How the canvas's display size follows its parent element when the window is resized.
#[derive(Debug, Clone, Copy)]
pub enum ResizeStrategy {
    /// The display size is left as it is.
    NoResize,
    /// The display size is the logical size.
    KeepSize,
    /// The display size is as large as the parent allows with the ratio of the logical size.
    KeepRatio,
    /// The display size is the parent's.
    AdaptRatio,
}

impl Default for ResizeStrategy {
    /// Keeping the ratio.
    fn default() -> (strategy: Self)
        ensures
            strategy is KeepRatio,
    {
        ResizeStrategy::KeepRatio
    }
}

/// A width and a height, in pixels.
#[derive(Debug, Clone, Copy, PartialEq, Eq, Structural)]
pub struct Size {
    pub x: IntCoord,
    pub y: IntCoord,
}

/// Whether resizing by `strategy` stays within the integers: keeping the ratio multiplies each
/// side of the parent by the other side of the logical size, and divides by a logical side.
pub open spec fn resizable(strategy: ResizeStrategy, logical: Size, parent: Size) -> bool {
    strategy is KeepRatio ==> {
        &&& parent.y * logical.x <= u32::MAX
        &&& parent.x * logical.y <= u32::MAX
        &&& parent.y * logical.x <= parent.x * logical.y ==> logical.y > 0
        &&& parent.y * logical.x > parent.x * logical.y ==> logical.x > 0
    }
}

/// The display size that `strategy` gives the canvas, from its logical size and the size of
/// its parent element; `None` when the display size is left as it is.
pub open spec fn resized(strategy: ResizeStrategy, logical: Size, parent: Size) -> Option<Size> {
    match strategy {
        ResizeStrategy::NoResize => None,
        ResizeStrategy::KeepSize => Some(logical),
        ResizeStrategy::KeepRatio => if parent.y * logical.x <= parent.x * logical.y {
            Some(Size { x: ((parent.y * logical.x) / (logical.y as int)) as u32, y: parent.y })
        } else {
            Some(Size { x: parent.x, y: ((parent.x * logical.y) / (logical.x as int)) as u32 })
        },
        ResizeStrategy::AdaptRatio => Some(parent),
    }
}

/// Keeping the ratio fits the canvas in its parent, and fills the parent along one side.
pub proof fn lemma_keep_ratio_fits(logical: Size, parent: Size)
    requires
        resizable(ResizeStrategy::KeepRatio, logical, parent),
    ensures
        resized(ResizeStrategy::KeepRatio, logical, parent) matches Some(size) && size.x <= parent.x
            && size.y <= parent.y && (size.x == parent.x || size.y == parent.y),
{
    let horizontal = parent.y * logical.x;
    let vertical = parent.x * logical.y;
    if horizontal <= vertical {
        let ly = logical.y as int;
        let px = parent.x as int;
        assert(horizontal / ly <= px) by (nonlinear_arith)
            requires
                horizontal <= px * ly,
                ly > 0,
                px >= 0,
                horizontal >= 0,
        ;
    } else {
        let lx = logical.x as int;
        let py = parent.y as int;
        assert(vertical / lx <= py) by (nonlinear_arith)
            requires
                vertical < py * lx,
                lx > 0,
                py >= 0,
                vertical >= 0,
        ;
    }
}

/// The display size that `strategy` gives the canvas, from its logical size and the size of
/// its parent element; `None` when the display size is to be left as it is.
pub fn resize_target(strategy: ResizeStrategy, logical: Size, parent: Size) -> (target: Option<Size>)
    requires
        resizable(strategy, logical, parent),
    ensures
        target == resized(strategy, logical, parent),
{
    match strategy {
        ResizeStrategy::NoResize => None,
        ResizeStrategy::KeepSize => Some(logical),
        ResizeStrategy::KeepRatio => {
            // Is the logical size narrower than the parent, as ratios go?
            let relative = Size { x: parent.y * logical.x, y: parent.x * logical.y };
            if relative.x <= relative.y {
                Some(Size { x: relative.x / logical.y, y: parent.y })
            } else {
                Some(Size { x: parent.x, y: relative.y / logical.x })
            }
        },
        ResizeStrategy::AdaptRatio => Some(parent),
    }
}

/// The size inside an element: its client size less its paddings, given in the order top,
/// left, bottom, right.
pub open spec fn padded(client: Size, top: IntCoord, left: IntCoord, bottom: IntCoord, right: IntCoord) -> Size {
    Size { x: (client.x - left - right) as u32, y: (client.y - top - bottom) as u32 }
}

/// The size inside an element: its client size less its paddings.
pub fn inner_size(client: Size, top: IntCoord, left: IntCoord, bottom: IntCoord, right: IntCoord) -> (size: Size)
    requires
        left + right <= client.x,
        top + bottom <= client.y,
    ensures
        size == padded(client, top, left, bottom, right),
{
    let mut size = client;
    size.x = size.x - left;
    size.x = size.x - right;
    size.y = size.y - top;
    size.y = size.y - bottom;
    size
}

/// Why a computed length was refused: its number, text after `px`, or no `px` at all.
#[derive(Debug, Clone)]
pub enum ParseComputedPxError {
    IntParseError(ParseIntError),
    TrailingChars,
    MissingPx,
}

/// The declaration of std's error for refused integers, which the library only carries.
#[verifier::external_type_specification]
#[verifier::external_body]
pub struct ExParseIntError(ParseIntError);

/// std's `Clone` for `ParseIntError`, which the derived `Clone` of `ParseComputedPxError`
/// calls; nothing is said of the copy.
pub assume_specification[ <ParseIntError as Clone>::clone ](error: &ParseIntError) -> ParseIntError;

/// The value of a decimal numeral as std reads a `u32`: an optional `+`, then one digit or
/// more, the value fitting in 32 bits.
pub open spec fn decimal_value(text: Seq<char>) -> Option<u32> {
    let digits = if text.len() > 0 && text[0] == '+' {
        text.subrange(1, text.len() as int)
    } else {
        text
    };
    if digits.len() > 0 && (forall|i: int| 0 <= i < digits.len() ==> '0' <= #[trigger] digits[i] <= '9')
        && digits_value(digits) <= u32::MAX {
        Some(digits_value(digits) as u32)
    } else {
        None
    }
}

/// The value of a sequence of decimal digits.
pub open spec fn digits_value(digits: Seq<char>) -> nat
    decreases digits.len(),
{
    if digits.len() == 0 {
        0
    } else {
        digits_value(digits.drop_last()) * 10 + (digits.last() as nat - '0' as nat) as nat
    }
}

/// Calls `str::parse::<u32>`, which std documents as taking an optional `+` and then only
/// decimal digits, and refusing the text when the value does not fit.
#[verifier::external_body]
fn parse_u32(text: &str) -> (result: Result<u32, ParseIntError>)
    ensures
        result is Ok <==> decimal_value(text@) is Some,
        result matches Ok(value) ==> decimal_value(text@) == Some(value),
{
    text.parse()
}

/// The position of the first `px` in `text`, if there is one.
pub open spec fn first_px(text: Seq<char>) -> Option<int>
    decreases text.len(),
{
    if text.len() < 2 {
        None
    } else {
        match first_px(text.drop_last()) {
            Some(i) => Some(i),
            None => if text[text.len() - 2] == 'p' && text[text.len() - 1] == 'x' {
                Some(text.len() - 2)
            } else {
                None
            },
        }
    }
}

/// What `first_px` comes to: the lowest position where `px` starts.
pub proof fn lemma_first_px(text: Seq<char>)
    ensures
        match first_px(text) {
            Some(i) => 0 <= i && i + 1 < text.len() && text[i] == 'p' && text[i + 1] == 'x' && forall|j: int|
                0 <= j < i ==> !(text[j] == 'p' && #[trigger] text[j + 1] == 'x'),
            None => forall|j: int| 0 <= j && j + 1 < text.len() ==> !(text[j] == 'p' && #[trigger] text[j + 1] == 'x'),
        },
    decreases text.len(),
{
    if text.len() >= 2 {
        lemma_first_px(text.drop_last());
        assert forall|j: int| 0 <= j < text.len() - 1 implies text.drop_last()[j] == #[trigger] text[j] by {
        }
    }
}

/// Reads a computed CSS length in pixels, such as `12px`: a whole number, then `px`, then
/// nothing more.
pub fn parse_computed_px(input: &str) -> (result: Result<IntCoord, ParseComputedPxError>)
    ensures
        match first_px(input@) {
            None => result matches Err(ParseComputedPxError::MissingPx),
            Some(i) => if i + 2 < input@.len() {
                result matches Err(ParseComputedPxError::TrailingChars)
            } else {
                match decimal_value(input@.subrange(0, i)) {
                    Some(value) => result == Ok::<IntCoord, ParseComputedPxError>(value),
                    None => result matches Err(ParseComputedPxError::IntParseError(_)),
                }
            },
        },
{
    proof {
        lemma_first_px(input@);
    }
    let length = input.unicode_len();
    let mut i: usize = 0;
    let mut head = String::new();
    while length > 0 && i < length - 1
        invariant
            length == input@.len(),
            i + 1 <= length || length == 0,
            head@ == input@.subrange(0, i as int),
            forall|j: int| 0 <= j < i ==> !(input@[j] == 'p' && #[trigger] input@[j + 1] == 'x'),
        decreases length - i,
    {
        let c = input.get_char(i);
        if c == 'p' && input.get_char(i + 1) == 'x' {
            proof {
                lemma_first_px(input@);
                if first_px(input@) != Some(i as int) {
                    let k = first_px(input@)->0;
                    assert(input@[k] == 'p' && input@[k + 1] == 'x');
                }
            }
            if i + 2 < length {
                return Err(ParseComputedPxError::TrailingChars);
            }
            return match parse_u32(head.as_str()) {
                Ok(value) => Ok(value),
                Err(error) => Err(ParseComputedPxError::IntParseError(error)),
            };
        }
        crate::text::push_char(&mut head, c);
        assert(head@ =~= input@.subrange(0, i + 1));
        i = i + 1;
    }
    proof {
        lemma_first_px(input@);
        if first_px(input@) is Some {
            let k = first_px(input@)->0;
            assert(input@[k] == 'p' && input@[k + 1] == 'x');
        }
    }
    Err(ParseComputedPxError::MissingPx)
}

/// Writes std's error for a refused integer, as its `Display` does; nothing is said of the
/// text.
#[verifier::external_body]
fn int_error_text(error: &ParseIntError) -> String {
    format!("{}", error)
}

impl ParseComputedPxError {
    /// The error written out: std's message for a refused number, or what is wrong around the
    /// `px`.
    pub fn to_string(&self) -> (text: String)
        ensures
            self is TrailingChars ==> text@ == "trailing characters after px"@,
            self is MissingPx ==> text@ == "missing px"@,
    {
        match self {
            ParseComputedPxError::IntParseError(error) => int_error_text(error),
            ParseComputedPxError::TrailingChars => String::from_str("trailing characters after px"),
            ParseComputedPxError::MissingPx => String::from_str("missing px"),
        }
    }
}

} // verus!
