//! Settings of a run: reading sizes from text and rejecting settings that
//! make no sense before any file is touched.

use vstd::prelude::*;
use vstd::string::StringSliceAdditionalSpecFns;

verus! {

/// Why a size given as text was not taken.
#[derive(Clone, Copy, Debug, PartialEq, Eq, Structural)]
pub enum SizeError {
    /// The text is no size, or a size that does not fit in 64 bits.
    Invalid,
    /// The size is smaller than the least value allowed.
    TooSmall,
}

/// Why the settings of a run were refused.
#[derive(Clone, Copy, Debug, PartialEq, Eq, Structural)]
pub enum ConfigError {
    /// The minimum size is below one byte.
    ZeroMinimum,
    /// Fewer than two files cannot be duplicates of each other.
    ThresholdBelowTwo,
    /// The scan window is empty.
    ZeroScanWindow,
    /// The minimum size exceeds a finite maximum size.
    MinimumAboveMaximum,
}

/// The validated settings of a run. A `maxsize` of zero means no upper bound.
#[derive(Clone, Copy, Debug, PartialEq, Eq, Structural)]
pub struct Settings {
    pub minsize: u64,
    pub maxsize: u64,
    pub count: u64,
    pub scansize: u64,
}

/// The number of bytes that `parse_size::parse_size` reads out of a text such
/// as `10 KB`, `0.2 MiB` or `14.2e+8`, or `None` where it reports an error.
pub uninterp spec fn parsed_size(text: Seq<u8>) -> Option<u64>;

/// The byte is an `e` or an `E`.
pub open spec fn is_exponent_mark(b: u8) -> bool {
    b == 101 || b == 69
}

/// Some byte of the text is an `e` or an `E`.
pub open spec fn has_exponent_mark(text: Seq<u8>) -> bool
    decreases text.len(),
{
    if text.len() == 0 {
        false
    } else {
        has_exponent_mark(text.drop_last()) || is_exponent_mark(text.last())
    }
}

/// The significant digits of the mantissa: the decimal digits that stand
/// before the first `e` or `E`, without leading zeros.
pub open spec fn mantissa_digits(text: Seq<u8>) -> Seq<u8>
    decreases text.len(),
{
    if text.len() == 0 {
        Seq::empty()
    } else {
        let rest = mantissa_digits(text.drop_last());
        let b = text.last();
        if has_exponent_mark(text.drop_last()) || !(48 <= b <= 57) || (b == 48 && rest.len() == 0) {
            rest
        } else {
            rest.push(b)
        }
    }
}

/// The digits of 18446744073709551615, the largest 64-bit number.
pub open spec fn largest_mantissa() -> Seq<u8> {
    seq![49u8, 56, 52, 52, 54, 55, 52, 52, 48, 55, 51, 55, 48, 57, 53, 53, 49, 54, 49, 53]
}

/// The mantissa begins with the largest 64-bit number and goes on with a
/// digit of five or more, which would round it up.
pub open spec fn rounds_past_largest(text: Seq<u8>) -> bool {
    let digits = mantissa_digits(text);
    digits.len() > 20 && digits.take(20) == largest_mantissa() && digits[20] >= 53
}

/// The longest text that is read as a size, in bytes.
pub const MAX_TEXT: usize = 0x7fff_ffff;

/// A text that can be handed to the parser.
pub open spec fn readable(text: Seq<u8>) -> bool {
    text.len() <= MAX_TEXT && !rounds_past_largest(text)
}

/// Calls `parse_size::parse_size`, which reads a byte count with an optional
/// decimal or binary unit, and keeps of its error only that there was one.
/// The result is a function of the text alone, so the contract names it.
/// Two texts are kept away from the outside parser, which counts without a
/// check in two places. It adds one to its 64-bit mantissa to round a digit
/// of five or more that no longer fits, which fails where the mantissa is
/// the largest 64-bit number. And it counts digits in a 32-bit exponent, one
/// step a byte at most, which fails only on a text of 2^31 bytes or more.
#[verifier::external_body]
fn parse_size_text(text: &[u8]) -> (parsed: Option<u64>)
    requires
        readable(text@),
    ensures
        parsed == parsed_size(text@),
{
    match parse_size::parse_size(text) {
        Ok(bytes) => Some(bytes),
        Err(_) => None,
    }
}

/// What becomes of a parsed size that must be at least `least`.
pub open spec fn checked_size(parsed: Option<u64>, least: u64) -> Result<u64, SizeError> {
    match parsed {
        None => Err(SizeError::Invalid),
        Some(bytes) => if bytes < least {
            Err(SizeError::TooSmall)
        } else {
            Ok(bytes)
        },
    }
}

/// What becomes of a size given as text. Every text is read but two kinds,
/// which are invalid: one whose mantissa would round past the largest 64-bit
/// number, and one of 2^31 bytes or more.
pub open spec fn size_of_text(text: Seq<u8>, least: u64) -> Result<u64, SizeError> {
    if readable(text) {
        checked_size(parsed_size(text), least)
    } else {
        Err(SizeError::Invalid)
    }
}

/// The first reason to refuse the settings, if there is one.
pub open spec fn config_error(minsize: u64, maxsize: u64, count: u64, scansize: u64) -> Option<
    ConfigError,
> {
    if minsize < 1 {
        Some(ConfigError::ZeroMinimum)
    } else if count < 2 {
        Some(ConfigError::ThresholdBelowTwo)
    } else if scansize == 0 {
        Some(ConfigError::ZeroScanWindow)
    } else if maxsize != 0 && minsize > maxsize {
        Some(ConfigError::MinimumAboveMaximum)
    } else {
        None
    }
}

fn significant_digits(text: &[u8]) -> (digits: Vec<u8>)
    ensures
        digits@ == mantissa_digits(text@),
{
    let mut digits: Vec<u8> = Vec::new();
    let mut ended = false;
    let mut i: usize = 0;
    while i < text.len()
        invariant
            i <= text.len(),
            ended == has_exponent_mark(text@.take(i as int)),
            digits@ == mantissa_digits(text@.take(i as int)),
        decreases text.len() - i,
    {
        proof {
            assert(text@.take(i + 1).drop_last() == text@.take(i as int));
        }
        let b: u8 = text[i];
        if !ended {
            if b == 101 || b == 69 {
                ended = true;
            } else if 48 <= b && b <= 57 && !(b == 48 && digits.len() == 0) {
                digits.push(b);
            }
        }
        i = i + 1;
    }
    proof {
        assert(text@.take(text.len() as int) == text@);
    }
    digits
}

fn begins_with_largest(digits: &Vec<u8>) -> (hit: bool)
    requires
        digits.len() >= 20,
    ensures
        hit == (digits@.take(20) == largest_mantissa()),
{
    let hit = digits[0] == 49 && digits[1] == 56 && digits[2] == 52 && digits[3] == 52
        && digits[4] == 54 && digits[5] == 55 && digits[6] == 52 && digits[7] == 52 && digits[8]
        == 48 && digits[9] == 55 && digits[10] == 51 && digits[11] == 55 && digits[12] == 48
        && digits[13] == 57 && digits[14] == 53 && digits[15] == 53 && digits[16] == 49
        && digits[17] == 54 && digits[18] == 49 && digits[19] == 53;
    proof {
        let first = digits@.take(20);
        let largest = largest_mantissa();
        if hit {
            assert(first =~= largest);
        } else if first == largest {
            assert(forall|k: int| 0 <= k < 20 ==> first[k] == largest[k]);
            assert(first[0] == digits[0] && first[1] == digits[1] && first[2] == digits[2]
                && first[3] == digits[3] && first[4] == digits[4] && first[5] == digits[5]
                && first[6] == digits[6] && first[7] == digits[7] && first[8] == digits[8]
                && first[9] == digits[9] && first[10] == digits[10] && first[11] == digits[11]
                && first[12] == digits[12] && first[13] == digits[13] && first[14] == digits[14]
                && first[15] == digits[15] && first[16] == digits[16] && first[17] == digits[17]
                && first[18] == digits[18] && first[19] == digits[19]);
        }
    }
    hit
}

fn rounds_past(text: &[u8]) -> (hit: bool)
    ensures
        hit == rounds_past_largest(text@),
{
    let digits = significant_digits(text);
    digits.len() > 20 && begins_with_largest(&digits) && digits[20] >= 53
}

/// Accepts a parsed size that is at least `least`.
pub fn check_size(parsed: Option<u64>, least: u64) -> (res: Result<u64, SizeError>)
    ensures
        res == checked_size(parsed, least),
{
    match parsed {
        None => Err(SizeError::Invalid),
        Some(bytes) => {
            if bytes < least {
                Err(SizeError::TooSmall)
            } else {
                Ok(bytes)
            }
        },
    }
}

/// Reads a size such as `1B`, `1MiB` or `2.5 GB` and accepts it where it is
/// at least `least`. A text that cannot be handed to the parser is invalid.
pub fn parse_bytes(s: &str, least: u64) -> (res: Result<u64, SizeError>)
    ensures
        res == size_of_text(s.spec_bytes(), least),
{
    let text = s.as_bytes();
    if text.len() > MAX_TEXT || rounds_past(text) {
        return Err(SizeError::Invalid);
    }
    check_size(parse_size_text(text), least)
}

/// Reads the minimum file size: at least one byte.
pub fn parse_min_bytes(s: &str) -> (res: Result<u64, SizeError>)
    ensures
        res == size_of_text(s.spec_bytes(), 1),
{
    parse_bytes(s, 1)
}

/// Reads the maximum file size: any size, zero for no upper bound.
pub fn parse_max_bytes(s: &str) -> (res: Result<u64, SizeError>)
    ensures
        res == size_of_text(s.spec_bytes(), 0),
{
    parse_bytes(s, 0)
}

/// Reads the size of the scan window: at least one byte.
pub fn parse_scansize_bytes(s: &str) -> (res: Result<u64, SizeError>)
    ensures
        res == size_of_text(s.spec_bytes(), 1),
{
    parse_bytes(s, 1)
}

/// Checks the settings of a run before anything is read.
pub fn validate_settings(minsize: u64, maxsize: u64, count: u64, scansize: u64) -> (res: Result<
    Settings,
    ConfigError,
>)
    ensures
        match res {
            Ok(s) => config_error(minsize, maxsize, count, scansize) is None && s == (Settings {
                minsize,
                maxsize,
                count,
                scansize,
            }),
            Err(e) => config_error(minsize, maxsize, count, scansize) == Some(e),
        },
{
    if minsize < 1 {
        Err(ConfigError::ZeroMinimum)
    } else if count < 2 {
        Err(ConfigError::ThresholdBelowTwo)
    } else if scansize == 0 {
        Err(ConfigError::ZeroScanWindow)
    } else if maxsize != 0 && minsize > maxsize {
        Err(ConfigError::MinimumAboveMaximum)
    } else {
        Ok(Settings { minsize, maxsize, count, scansize })
    }
}

} // verus!
