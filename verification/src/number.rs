//! Numeric literals: the grammar is checked here, the conversion of the
//! literal's text to a double is done by `nom`.

use crate::error::{ErrorKind, Failure, ParseError};
use crate::lexical::{byte_at, cut, has_byte};
use crate::value::is_finite_bits;
use vstd::prelude::*;
use vstd::string::StringSliceAdditionalSpecFns;
use vstd::utf8::*;

verus! {

/// The byte `-`.
pub const MINUS: u8 = 0x2d;

/// The byte `+`.
pub const PLUS: u8 = 0x2b;

/// The byte `.`.
pub const DOT: u8 = 0x2e;

/// The byte `e`.
pub const LOWER_E: u8 = 0x65;

/// The byte `E`.
pub const UPPER_E: u8 = 0x45;

/// `0`-`9`.
pub open spec fn is_digit(b: u8) -> bool {
    0x30 <= b <= 0x39
}

/// The length of the run of decimal digits that `s` holds from `i` on.
pub open spec fn digits_len(s: Seq<u8>, i: int) -> nat
    decreases s.len() - i,
{
    if 0 <= i < s.len() && is_digit(s[i]) {
        1 + digits_len(s, i + 1)
    } else {
        0
    }
}

/// The length of an optional sign at `i`: a minus, and a plus too where
/// `plus` says so.
pub open spec fn sign_len(s: Seq<u8>, i: int, plus: bool) -> nat {
    if has_byte(s, i, MINUS) || (plus && has_byte(s, i, PLUS)) {
        1
    } else {
        0
    }
}

/// The length of an optional fraction at `i`: a dot and one or more
/// digits.
pub open spec fn fraction_len(s: Seq<u8>, i: int) -> nat {
    if has_byte(s, i, DOT) && digits_len(s, i + 1) > 0 {
        1 + digits_len(s, i + 1)
    } else {
        0
    }
}

/// The length of an optional exponent at `i`: `e` or `E`, an optional
/// sign, and one or more digits.
pub open spec fn exponent_len(s: Seq<u8>, i: int) -> nat {
    let sign = sign_len(s, i + 1, true);
    if (has_byte(s, i, LOWER_E) || has_byte(s, i, UPPER_E)) && digits_len(s, i + 1 + sign) > 0 {
        1 + sign + digits_len(s, i + 1 + sign)
    } else {
        0
    }
}

/// The length of the numeric literal at `i`, 0 where there is none.
///
/// A literal is an optional minus, one or more digits, an optional
/// fraction and an optional exponent; it is the longest such prefix.
pub open spec fn number_len(s: Seq<u8>, i: int) -> nat {
    let sign = sign_len(s, i, false);
    let whole = digits_len(s, i + sign);
    if whole == 0 {
        0
    } else {
        let fraction = fraction_len(s, i + sign + whole);
        let exponent = exponent_len(s, i + sign + whole + fraction);
        sign + whole + fraction + exponent
    }
}

/// What `nom::number::complete::double` makes of a text: nothing, or the
/// text that it left unread and the bit pattern of the double that it
/// read.
pub uninterp spec fn double_of(text: Seq<char>) -> Option<(Seq<char>, u64)>;

/// The bit pattern that an outcome of the conversion stands for: the
/// whole text must have been read, and the double must be finite.
pub open spec fn accepted(outcome: Option<(Seq<char>, u64)>) -> Option<u64> {
    match outcome {
        Some((rest, bits)) => if rest.len() == 0 && is_finite_bits(bits) {
            Some(bits)
        } else {
            None
        },
        None => None,
    }
}

/// A number at `i`: the bit pattern of its double and the length of its
/// literal.
///
/// Where no literal stands at `i`, that is a number format error at the
/// byte where a digit is missing: at `i`, or behind a minus at `i`. Where
/// the text of the literal does not convert to a finite double, it is a
/// number format error behind the literal.
pub open spec fn spec_number(s: Seq<u8>, i: int) -> Result<(u64, nat), Failure> {
    let n = number_len(s, i);
    if n == 0 {
        Err(Failure::at(ErrorKind::NumberFormatError, i + sign_len(s, i, false)))
    } else {
        match accepted(double_of(decode_utf8(s.subrange(i, i + n)))) {
            Some(bits) => Ok((bits, n)),
            None => Err(Failure::at(ErrorKind::NumberFormatError, i + n)),
        }
    }
}

/// Whether `b` is a decimal digit.
pub fn digit(b: u8) -> (r: bool)
    ensures
        r == is_digit(b),
{
    0x30 <= b && b <= 0x39
}

/// The end of the run of digits that starts at `pos`.
pub fn digits_end(src: &[u8], pos: usize) -> (end: usize)
    ensures
        end == pos + digits_len(src@, pos as int),
        pos < src@.len() ==> end <= src@.len(),
        end > pos ==> end <= src@.len() && is_digit(src@[end - 1]),
{
    let mut cur: usize = pos;
    while cur < src.len() && digit(src[cur])
        invariant
            pos <= cur,
            pos < src@.len() ==> cur <= src@.len(),
            cur > pos ==> cur <= src@.len() && is_digit(src@[cur - 1]),
            pos + digits_len(src@, pos as int) == cur + digits_len(src@, cur as int),
        decreases src@.len() - cur,
    {
        cur = cur + 1;
    }
    cur
}

/// The end of the numeric literal that starts at `pos`; `pos` itself
/// where none starts there.
pub fn number_end(src: &[u8], pos: usize) -> (end: usize)
    ensures
        end == pos + number_len(src@, pos as int),
        end <= src@.len() || end == pos,
        end > pos ==> src@[pos as int] < 0x80 && src@[end - 1] < 0x80,
{
    if pos >= src.len() {
        return pos;
    }
    let start = if src[pos] == MINUS {
        pos + 1
    } else {
        pos
    };
    let whole = digits_end(src, start);
    if whole == start {
        return pos;
    }
    let mut end = whole;
    if end < src.len() && src[end] == DOT {
        let fraction = digits_end(src, end + 1);
        if fraction > end + 1 {
            end = fraction;
        }
    }
    if end < src.len() && (src[end] == LOWER_E || src[end] == UPPER_E) {
        let digits = if end + 1 < src.len() && (src[end + 1] == MINUS || src[end + 1] == PLUS) {
            end + 2
        } else {
            end + 1
        };
        let exponent = digits_end(src, digits);
        if exponent > digits {
            end = exponent;
        }
    }
    end
}

/// Hands `text` to `nom::number::complete::double`. The result is what
/// that function returned: `None` for an error, else the text that it
/// left unread and the bits of the double that it read. The contract
/// only gives this result its name, [`double_of`].
#[verifier::external_body]
fn nom_double<'a>(text: &'a str) -> (r: Option<(&'a str, u64)>)
    ensures
        match r {
            Some((rest, bits)) => double_of(text@) == Some((rest@, bits)),
            None => double_of(text@) is None,
        },
{
    match nom::number::complete::double::<&str, (&str, nom::error::ErrorKind)>(text) {
        Ok((rest, x)) => Some((rest, x.to_bits())),
        Err(_) => None,
    }
}

/// Whether `bits` is the bit pattern of a finite double.
pub fn finite(bits: u64) -> (r: bool)
    ensures
        r == is_finite_bits(bits),
{
    (bits >> 52) & 0x7ff != 0x7ff
}

/// Judges what the conversion of a literal made of it: the bits of the
/// double where the whole text was read and the double is finite, else a
/// number format error at `end`, the position behind the literal.
pub fn number_from(outcome: Option<(&str, u64)>, end: usize) -> (r: Result<u64, ParseError>)
    ensures
        match accepted(
            match outcome {
                Some((rest, bits)) => Some((rest@, bits)),
                None => None,
            },
        ) {
            Some(bits) => r == Ok::<u64, ParseError>(bits),
            None => r matches Err(e) && e@ == Failure::at(
                ErrorKind::NumberFormatError,
                end as int,
            ),
        },
{
    match outcome {
        Some((rest, bits)) => {
            if rest.is_empty() && finite(bits) {
                Ok(bits)
            } else {
                Err(ParseError::new(ErrorKind::NumberFormatError, end))
            }
        },
        None => Err(ParseError::new(ErrorKind::NumberFormatError, end)),
    }
}

/// A number at the byte offset `pos` of `text`, see [`spec_number`]: the
/// bits of its double and the position after its literal.
pub fn number_at(text: &str, pos: usize) -> (r: Result<(u64, usize), ParseError>)
    ensures
        match spec_number(text.spec_bytes(), pos as int) {
            Ok((bits, n)) => r matches Ok((b, next)) && b == bits && next == pos + n,
            Err(f) => r matches Err(e) && e@ == f,
        },
        r matches Ok((b, next)) ==> pos < next <= text.spec_bytes().len() && is_finite_bits(b)
            && text.spec_bytes()[next - 1] < 0x80,
{
    let src = text.as_bytes();
    let end = number_end(src, pos);
    if end == pos {
        let at = if byte_at(src, pos, MINUS) {
            pos + 1
        } else {
            pos
        };
        return Err(ParseError::new(ErrorKind::NumberFormatError, at));
    }
    let literal = cut(text, pos, end);
    let outcome = nom_double(literal);
    match number_from(outcome, end) {
        Ok(bits) => Ok((bits, end)),
        Err(e) => Err(e),
    }
}

} // verus!
