//! String literals: a quoted run of ordinary bytes and escape tokens.
//!
//! Escapes are checked, not decoded: what a literal yields is the text
//! between its quotes exactly as written.

use crate::error::{ErrorKind, Failure, ParseError, Production};
use crate::lexical::{has_byte, has_literal, BACKSLASH, QUOTE};
use vstd::prelude::*;

verus! {

/// The byte `u`, which starts a unicode escape.
pub const LOWER_U: u8 = 0x75;

/// A byte that ends a run of ordinary string content: a backslash, a
/// quote, or an ASCII control character.
pub open spec fn is_stop(b: u8) -> bool {
    b == BACKSLASH || b == QUOTE || b < 0x20 || b == 0x7f
}

/// `0`-`9`, `a`-`f` or `A`-`F`.
pub open spec fn is_hex_digit(b: u8) -> bool {
    (0x30 <= b <= 0x39) || (0x41 <= b <= 0x46) || (0x61 <= b <= 0x66)
}

/// A byte that forms an escape token by itself: one of `"`, `\`, `/`, `b`,
/// `f`, `n`, `r`, `t`.
pub open spec fn is_simple_escape(b: u8) -> bool {
    b == QUOTE || b == BACKSLASH || b == 0x2f || b == 0x62 || b == 0x66 || b == 0x6e || b == 0x72
        || b == 0x74
}

/// The length of the run of ordinary bytes that `s` holds from `i` on.
pub open spec fn normal_len(s: Seq<u8>, i: int) -> nat
    decreases s.len() - i,
{
    if 0 <= i < s.len() && !is_stop(s[i]) {
        1 + normal_len(s, i + 1)
    } else {
        0
    }
}

/// The number of hexadecimal digits that `s` holds from `i` on, counted up
/// to `limit`.
pub open spec fn hex_run(s: Seq<u8>, i: int, limit: nat) -> nat
    decreases limit,
{
    if limit > 0 && 0 <= i < s.len() && is_hex_digit(s[i]) {
        1 + hex_run(s, i + 1, (limit - 1) as nat)
    } else {
        0
    }
}

/// A run of ordinary bytes at `i`: its length, which is at least one.
/// Where no ordinary byte stands at `i`, that is a tag mismatch at `i`.
pub open spec fn spec_normal(s: Seq<u8>, i: int) -> Result<nat, Failure> {
    if normal_len(s, i) > 0 {
        Ok(normal_len(s, i))
    } else {
        Err(Failure::at(ErrorKind::TagMismatch, i))
    }
}

/// A unicode escape at `i`: the letter `u` and four hexadecimal digits,
/// five bytes in all. Without the `u` it is a tag mismatch at `i`; with
/// fewer than four digits it is a hex digit error at the first byte that
/// is no digit.
pub open spec fn spec_parse_hex(s: Seq<u8>, i: int) -> Result<nat, Failure> {
    if !has_byte(s, i, LOWER_U) {
        Err(Failure::at(ErrorKind::TagMismatch, i).within(Production::HexString, i))
    } else {
        let digits = hex_run(s, i + 1, 4);
        if digits == 4 {
            Ok(5)
        } else {
            Err(
                Failure::at(ErrorKind::HexDigitError, i + 1 + digits).within(
                    Production::HexString,
                    i,
                ),
            )
        }
    }
}

/// An escape token at `i`, the position after a backslash: a simple
/// escape of one byte, or a unicode escape. Anything else is an escape
/// error at `i`.
pub open spec fn spec_escapable(s: Seq<u8>, i: int) -> Result<nat, Failure> {
    if 0 <= i < s.len() && is_simple_escape(s[i]) {
        Ok(1)
    } else if has_byte(s, i, LOWER_U) {
        match spec_parse_hex(s, i) {
            Ok(n) => Ok(n),
            Err(e) => Err(e.within(Production::Escaped, i)),
        }
    } else {
        Err(Failure::at(ErrorKind::EscapeError, i).within(Production::Escaped, i))
    }
}

/// What is left to read from `i` on.
pub open spec fn remaining(s: Seq<u8>, i: int) -> nat {
    if i < s.len() {
        (s.len() - i) as nat
    } else {
        0
    }
}

/// The length of the string content that starts at `i`: runs of ordinary
/// bytes and escape tokens, up to the first quote or control character, or
/// to the end of the input. Where no run of ordinary bytes stands, the
/// content goes on with an escape or ends. It fails where a backslash is
/// not followed by an escape token.
pub open spec fn spec_content(s: Seq<u8>, i: int) -> Result<nat, Failure>
    decreases remaining(s, i),
{
    let run = match spec_normal(s, i) {
        Ok(n) => n,
        Err(_) => 0,
    };
    if has_byte(s, i + run, BACKSLASH) {
        match spec_escapable(s, i + run + 1) {
            Ok(token) => match spec_content(s, i + run + 1 + token) {
                Ok(rest) => Ok(run + 1 + token + rest),
                Err(e) => Err(e),
            },
            Err(e) => Err(e),
        }
    } else {
        Ok(run)
    }
}

/// String content at `i` that is not empty, unless the input ends at `i`:
/// an immediate quote or control character is an escape error at `i`.
pub open spec fn spec_parse_str(s: Seq<u8>, i: int) -> Result<nat, Failure> {
    match spec_content(s, i) {
        Ok(n) => if n == 0 && 0 <= i < s.len() {
            Err(Failure::at(ErrorKind::EscapeError, i))
        } else {
            Ok(n)
        },
        Err(e) => Err(e),
    }
}

/// The two quote characters of the empty literal.
pub open spec fn empty_literal() -> Seq<u8> {
    seq![QUOTE, QUOTE]
}

/// A string literal at `i`: the number of bytes it takes, quotes included.
///
/// The literal is either the empty literal, or a quote, content that is
/// not empty, and a quote. Where the content ends at the end of the input
/// the literal is unterminated; where it ends before any other byte than
/// a quote, that is a tag mismatch there.
pub open spec fn spec_string(s: Seq<u8>, i: int) -> Result<nat, Failure> {
    if has_literal(s, i, empty_literal()) {
        Ok(2)
    } else if has_byte(s, i, QUOTE) {
        match spec_parse_str(s, i + 1) {
            Ok(n) => {
                let end = i + 1 + n;
                if has_byte(s, end, QUOTE) {
                    Ok(n + 2)
                } else if end >= s.len() {
                    Err(
                        Failure::at(ErrorKind::UnterminatedLiteral, end).within(
                            Production::Str,
                            i,
                        ),
                    )
                } else {
                    Err(Failure::at(ErrorKind::TagMismatch, end).within(Production::Str, i))
                }
            },
            Err(e) => Err(e.within(Production::Str, i)),
        }
    } else {
        Err(Failure::at(ErrorKind::TagMismatch, i).within(Production::Str, i))
    }
}

/// The text between the quotes of a literal of `n` bytes that starts at
/// `i`.
pub open spec fn raw_text(s: Seq<u8>, i: int, n: nat) -> Seq<u8> {
    s.subrange(i + 1, i + n - 1)
}

/// Whether a scan that started at `pos` ended as `expected` says: at the
/// position `pos + n`, or with the same failure.
pub open spec fn agrees(
    r: Result<usize, ParseError>,
    pos: int,
    expected: Result<nat, Failure>,
) -> bool {
    match expected {
        Ok(n) => r matches Ok(next) && next == pos + n,
        Err(f) => r matches Err(e) && e@ == f,
    }
}

/// Whether `b` ends a run of ordinary string content.
pub fn stops(b: u8) -> (r: bool)
    ensures
        r == is_stop(b),
{
    b == BACKSLASH || b == QUOTE || b < 0x20 || b == 0x7f
}

/// Whether `b` is a hexadecimal digit.
pub fn hex_digit(b: u8) -> (r: bool)
    ensures
        r == is_hex_digit(b),
{
    (0x30 <= b && b <= 0x39) || (0x41 <= b && b <= 0x46) || (0x61 <= b && b <= 0x66)
}

/// Whether `b` forms an escape token by itself.
pub fn simple_escape(b: u8) -> (r: bool)
    ensures
        r == is_simple_escape(b),
{
    b == QUOTE || b == BACKSLASH || b == 0x2f || b == 0x62 || b == 0x66 || b == 0x6e || b == 0x72
        || b == 0x74
}

/// A run of ordinary bytes at `pos`, see [`spec_normal`]: the position
/// of the first backslash, quote or control character behind `pos`, or the
/// end of the input. The run holds at least one byte: where none stands at
/// `pos`, the call fails with a tag mismatch at `pos`.
pub fn normal_at(src: &[u8], pos: usize) -> (r: Result<usize, ParseError>)
    ensures
        agrees(r, pos as int, spec_normal(src@, pos as int)),
        r matches Ok(end) ==> pos < end <= src@.len() && !is_stop(src@[end - 1]) && (end
            < src@.len() ==> is_stop(src@[end as int])),
        r is Err ==> pos >= src@.len() || is_stop(src@[pos as int]),
{
    let mut cur: usize = pos;
    while cur < src.len() && !stops(src[cur])
        invariant
            pos <= cur,
            cur > pos ==> cur <= src@.len() && !is_stop(src@[cur - 1]),
            pos + normal_len(src@, pos as int) == cur + normal_len(src@, cur as int),
        decreases src@.len() - cur,
    {
        cur = cur + 1;
    }
    if cur == pos {
        Err(ParseError::new(ErrorKind::TagMismatch, pos))
    } else {
        Ok(cur)
    }
}

/// A unicode escape at `pos`, see [`spec_parse_hex`].
pub fn hex_at(src: &[u8], pos: usize) -> (r: Result<usize, ParseError>)
    ensures
        agrees(r, pos as int, spec_parse_hex(src@, pos as int)),
        r matches Ok(next) ==> pos < next <= src@.len() && is_hex_digit(src@[next - 1]),
{
    if !(pos < src.len() && src[pos] == LOWER_U) {
        return Err(
            ParseError::new(ErrorKind::TagMismatch, pos).within(Production::HexString, pos),
        );
    }
    let mut k: usize = 0;
    while k < 4 && pos + 1 + k < src.len() && hex_digit(src[pos + 1 + k])
        invariant
            k <= 4,
            pos < src@.len() <= usize::MAX,
            pos + 1 + k <= src@.len(),
            k > 0 ==> is_hex_digit(src@[pos + k]),
            hex_run(src@, pos + 1, 4) == k + hex_run(src@, pos + 1 + k, (4 - k) as nat),
        decreases 4 - k,
    {
        k = k + 1;
    }
    if k == 4 {
        Ok(pos + 5)
    } else {
        Err(
            ParseError::new(ErrorKind::HexDigitError, pos + 1 + k).within(
                Production::HexString,
                pos,
            ),
        )
    }
}

/// An escape token at `pos`, see [`spec_escapable`].
pub fn escapable_at(src: &[u8], pos: usize) -> (r: Result<usize, ParseError>)
    ensures
        agrees(r, pos as int, spec_escapable(src@, pos as int)),
        r is Ok ==> pos < r->Ok_0 <= src@.len(),
{
    if pos < src.len() && simple_escape(src[pos]) {
        Ok(pos + 1)
    } else if pos < src.len() && src[pos] == LOWER_U {
        match hex_at(src, pos) {
            Ok(next) => Ok(next),
            Err(e) => Err(e.within(Production::Escaped, pos)),
        }
    } else {
        Err(ParseError::new(ErrorKind::EscapeError, pos).within(Production::Escaped, pos))
    }
}

/// String content at `pos`, see [`spec_content`].
pub fn content_at(src: &[u8], pos: usize) -> (r: Result<usize, ParseError>)
    ensures
        agrees(r, pos as int, spec_content(src@, pos as int)),
        r matches Ok(end) ==> pos <= end && (pos <= src@.len() ==> end <= src@.len()),
        r matches Ok(end) ==> end < src@.len() ==> is_stop(src@[end as int]) && src@[end as int]
            != BACKSLASH,
{
    let mut cur: usize = pos;
    loop
        invariant
            pos <= cur,
            pos <= src@.len() ==> cur <= src@.len(),
            match spec_content(src@, cur as int) {
                Ok(n) => spec_content(src@, pos as int) == Ok::<nat, Failure>(
                    (cur - pos + n) as nat,
                ),
                Err(e) => spec_content(src@, pos as int) == Err::<nat, Failure>(e),
            },
        decreases src@.len() - cur,
    {
        let end = match normal_at(src, cur) {
            Ok(end) => end,
            Err(_) => cur,
        };
        if end < src.len() && src[end] == BACKSLASH {
            match escapable_at(src, end + 1) {
                Ok(next) => {
                    cur = next;
                },
                Err(e) => {
                    return Err(e);
                },
            }
        } else {
            return Ok(end);
        }
    }
}

/// String content at `pos` that is not empty, see [`spec_parse_str`].
pub fn parse_str_at(src: &[u8], pos: usize) -> (r: Result<usize, ParseError>)
    ensures
        agrees(r, pos as int, spec_parse_str(src@, pos as int)),
        r matches Ok(end) ==> pos <= end && (pos <= src@.len() ==> end <= src@.len()),
        r matches Ok(end) ==> end < src@.len() ==> is_stop(src@[end as int]) && src@[end as int]
            != BACKSLASH,
{
    let end = content_at(src, pos)?;
    if end == pos && pos < src.len() {
        Err(ParseError::new(ErrorKind::EscapeError, pos))
    } else {
        Ok(end)
    }
}

/// A string literal at `pos`, see [`spec_string`]: the position after its
/// closing quote.
pub fn string_at(src: &[u8], pos: usize) -> (r: Result<usize, ParseError>)
    ensures
        agrees(r, pos as int, spec_string(src@, pos as int)),
        r is Ok ==> pos + 2 <= r->Ok_0 <= src@.len(),
        r is Ok ==> src@[pos as int] == QUOTE && src@[r->Ok_0 - 1] == QUOTE,
{
    if !(pos < src.len() && src[pos] == QUOTE) {
        proof {
            if has_literal(src@, pos as int, empty_literal()) {
                assert(src@.subrange(pos as int, pos + 2)[0] == QUOTE);
            }
        }
        return Err(ParseError::new(ErrorKind::TagMismatch, pos).within(Production::Str, pos));
    }
    if pos + 1 < src.len() && src[pos + 1] == QUOTE {
        assert(src@.subrange(pos as int, pos + 2) =~= empty_literal());
        return Ok(pos + 2);
    }
    proof {
        if has_literal(src@, pos as int, empty_literal()) {
            assert(src@.subrange(pos as int, pos + 2)[1] == QUOTE);
        }
    }
    match parse_str_at(src, pos + 1) {
        Ok(end) => {
            if end < src.len() && src[end] == QUOTE {
                Ok(end + 1)
            } else if end >= src.len() {
                Err(
                    ParseError::new(ErrorKind::UnterminatedLiteral, end).within(
                        Production::Str,
                        pos,
                    ),
                )
            } else {
                Err(ParseError::new(ErrorKind::TagMismatch, end).within(Production::Str, pos))
            }
        },
        Err(e) => Err(e.within(Production::Str, pos)),
    }
}

} // verus!
