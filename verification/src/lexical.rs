//! Lexical primitives: bytes of the grammar, whitespace, literal tags, and
//! cutting a piece out of the input text.

use crate::error::{ErrorKind, Failure, ParseError};
use vstd::prelude::*;
use vstd::string::StringSliceAdditionalSpecFns;
use vstd::utf8::*;

verus! {

/// The byte `"`.
pub const QUOTE: u8 = 0x22;

/// The byte `\`.
pub const BACKSLASH: u8 = 0x5c;

/// The byte `,`.
pub const COMMA: u8 = 0x2c;

/// The byte `:`.
pub const COLON: u8 = 0x3a;

/// The byte `[`.
pub const OPEN_BRACKET: u8 = 0x5b;

/// The byte `]`.
pub const CLOSE_BRACKET: u8 = 0x5d;

/// The byte `{`.
pub const OPEN_BRACE: u8 = 0x7b;

/// The byte `}`.
pub const CLOSE_BRACE: u8 = 0x7d;

/// Space, tab, line feed or carriage return.
pub open spec fn is_space(b: u8) -> bool {
    b == 0x20 || b == 0x09 || b == 0x0a || b == 0x0d
}

/// The number of whitespace bytes that `s` holds from `i` on, up to the
/// first byte that is no whitespace.
pub open spec fn ws_len(s: Seq<u8>, i: int) -> nat
    decreases s.len() - i,
{
    if 0 <= i < s.len() && is_space(s[i]) {
        1 + ws_len(s, i + 1)
    } else {
        0
    }
}

/// Whether `s` holds exactly the bytes of `tag` from `i` on.
pub open spec fn has_literal(s: Seq<u8>, i: int, tag: Seq<u8>) -> bool {
    0 <= i && i + tag.len() <= s.len() && s.subrange(i, i + tag.len()) == tag
}

/// Whether `s` holds the byte `b` at `i`.
pub open spec fn has_byte(s: Seq<u8>, i: int, b: u8) -> bool {
    0 <= i < s.len() && s[i] == b
}

/// A position at which text may be cut without splitting a character: an
/// end of the input, or a position next to an ASCII byte.
pub open spec fn clean_cut(s: Seq<u8>, p: int) -> bool {
    0 <= p <= s.len() && (p == 0 || p == s.len() || s[p] < 0x80 || s[p - 1] < 0x80)
}

/// Whether `b` is a space, a tab, a line feed or a carriage return.
pub fn is_whitespace(b: u8) -> (r: bool)
    ensures
        r == is_space(b),
{
    b == 0x20 || b == 0x09 || b == 0x0a || b == 0x0d
}

/// Skips whitespace: the position of the first byte at or after `pos` that
/// is no whitespace. Never fails; a position past the end is handed back
/// as it is.
pub fn skip_whitespace(src: &[u8], pos: usize) -> (next: usize)
    ensures
        next == pos + ws_len(src@, pos as int),
        pos <= src@.len() ==> next <= src@.len(),
        next > pos ==> next <= src@.len() && is_space(src@[next - 1]),
{
    let mut cur: usize = pos;
    while cur < src.len() && is_whitespace(src[cur])
        invariant
            pos <= cur,
            pos <= src@.len() ==> cur <= src@.len(),
            cur > pos ==> cur <= src@.len() && is_space(src@[cur - 1]),
            pos + ws_len(src@, pos as int) == cur + ws_len(src@, cur as int),
        decreases src@.len() - cur,
    {
        cur = cur + 1;
    }
    cur
}

/// Matches the literal `tag` at `pos`: the position after it, or a tag
/// mismatch at `pos` where the input does not hold these bytes there.
pub fn literal(src: &[u8], pos: usize, tag: &[u8]) -> (r: Result<usize, ParseError>)
    ensures
        match r {
            Ok(next) => has_literal(src@, pos as int, tag@) && next == pos + tag@.len(),
            Err(e) => !has_literal(src@, pos as int, tag@) && e@ == Failure::at(
                ErrorKind::TagMismatch,
                pos as int,
            ),
        },
{
    if tag.len() > src.len() || pos > src.len() - tag.len() {
        return Err(ParseError::new(ErrorKind::TagMismatch, pos));
    }
    let mut k: usize = 0;
    while k < tag.len()
        invariant
            k <= tag@.len(),
            pos + tag@.len() <= src@.len() <= usize::MAX,
            forall|j: int| 0 <= j < k ==> src@[pos + j] == tag@[j],
        decreases tag@.len() - k,
    {
        if src[pos + k] != tag[k] {
            proof {
                let sub = src@.subrange(pos as int, pos + tag@.len());
                assert(sub[k as int] == src@[pos + k]);
            }
            return Err(ParseError::new(ErrorKind::TagMismatch, pos));
        }
        k = k + 1;
    }
    assert(src@.subrange(pos as int, pos + tag@.len()) =~= tag@);
    Ok(pos + tag.len())
}

/// Matches the single byte `b` at `pos`.
pub fn byte_at(src: &[u8], pos: usize, b: u8) -> (r: bool)
    ensures
        r == has_byte(src@, pos as int, b),
        r ==> pos < usize::MAX,
{
    pos < src.len() && src[pos] == b
}

/// In well-formed UTF-8 the byte after an ASCII byte starts a character.
proof fn lemma_after_ascii(s: Seq<u8>, p: int)
    requires
        valid_utf8(s),
        0 < p < s.len(),
        s[p - 1] < 0x80,
    ensures
        !is_continuation_byte(s[p]),
{
    is_char_boundary_iff_not_is_continuation_byte(s, p - 1);
    valid_utf8_split(s, p - 1);
    let tail = s.subrange(p - 1, s.len() as int);
    assert(tail[0] == s[p - 1]);
    assert(valid_utf8(tail));
    assert(length_of_first_scalar(tail) == 1);
    let rest = pop_first_scalar(tail);
    assert(rest =~= s.subrange(p, s.len() as int));
    assert(valid_utf8(rest));
    assert(rest.len() > 0);
    assert(valid_first_scalar(rest));
    assert(rest[0] == s[p]);
}

/// In well-formed UTF-8 a clean cut falls between two characters.
pub proof fn lemma_clean_cut_is_char_boundary(s: Seq<u8>, p: int)
    requires
        valid_utf8(s),
        clean_cut(s, p),
    ensures
        is_char_boundary(s, p),
{
    if p == 0 || p == s.len() {
        is_char_boundary_start_end_of_seq(s);
    } else {
        if s[p] >= 0x80 {
            lemma_after_ascii(s, p);
        }
        is_char_boundary_iff_not_is_continuation_byte(s, p);
    }
}

/// The piece of `text` between the byte offsets `from` and `to`.
pub(crate) fn cut<'a>(text: &'a str, from: usize, to: usize) -> (piece: &'a str)
    requires
        from <= to,
        clean_cut(text.spec_bytes(), from as int),
        clean_cut(text.spec_bytes(), to as int),
    ensures
        piece.spec_bytes() == text.spec_bytes().subrange(from as int, to as int),
        piece@ == decode_utf8(text.spec_bytes().subrange(from as int, to as int)),
{
    let ghost s = text.spec_bytes();
    proof {
        encode_utf8_valid_utf8(text@);
        lemma_clean_cut_is_char_boundary(s, to as int);
        lemma_clean_cut_is_char_boundary(s, from as int);
    }
    let (head, _) = text.split_at(to);
    proof {
        let h = head.spec_bytes();
        assert(h =~= s.subrange(0, to as int));
        encode_utf8_valid_utf8(head@);
        if from == to {
            is_char_boundary_start_end_of_seq(h);
        } else {
            is_char_boundary_iff_not_is_continuation_byte(s, from as int);
            assert(h[from as int] == s[from as int]);
            is_char_boundary_iff_not_is_continuation_byte(h, from as int);
        }
    }
    let (_, piece) = head.split_at(from);
    proof {
        assert(piece.spec_bytes() =~= s.subrange(from as int, to as int));
        encode_utf8_decode_utf8(piece@);
    }
    piece
}

} // verus!
