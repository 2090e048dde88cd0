//! Laws of the tokens: a scan of string content reads only the bytes that
//! it takes and the byte behind them, the raw text of a string literal can
//! be put between quotes again, and the scans of string content and of
//! numeric literals take just what the written forms of the two allow.

use crate::document::{is_content, is_digits, is_numeral, is_numeral_at};
use crate::error::Failure;
use crate::lexical::{has_byte, has_literal, BACKSLASH, QUOTE};
use crate::number::{digits_len, exponent_len, fraction_len, is_digit, number_len, sign_len};
use crate::string::{
    empty_literal, hex_run, is_simple_escape, is_stop, normal_len, raw_text, spec_content,
    spec_escapable, spec_parse_hex, spec_parse_str, spec_string,
};
use vstd::prelude::*;

verus! {

/// Whether `a` from `i` on and `b` from `j` on hold the same `n` bytes.
pub open spec fn same_bytes(a: Seq<u8>, i: int, b: Seq<u8>, j: int, n: int) -> bool {
    &&& 0 <= n
    &&& 0 <= i && i + n <= a.len()
    &&& 0 <= j && j + n <= b.len()
    &&& a.subrange(i, i + n) == b.subrange(j, j + n)
}

/// Whether `s` ends at `i` or holds there a byte that ends string content
/// for good: a quote or a control character.
pub open spec fn content_ends(s: Seq<u8>, i: int) -> bool {
    i >= s.len() || (0 <= i && is_stop(s[i]) && s[i] != BACKSLASH)
}

/// Two stretches that hold the same bytes hold the same byte at each
/// place.
pub proof fn lemma_same_byte(a: Seq<u8>, i: int, b: Seq<u8>, j: int, n: int, k: int)
    requires
        same_bytes(a, i, b, j, n),
        0 <= k < n,
    ensures
        a[i + k] == b[j + k],
{
    assert(a.subrange(i, i + n)[k] == b.subrange(j, j + n)[k]);
}

/// Two stretches that hold the same bytes hold the same bytes in each
/// part.
pub proof fn lemma_same_part(a: Seq<u8>, i: int, b: Seq<u8>, j: int, n: int, from: int, len: int)
    requires
        same_bytes(a, i, b, j, n),
        0 <= from,
        0 <= len,
        from + len <= n,
    ensures
        same_bytes(a, i + from, b, j + from, len),
{
    let x = a.subrange(i + from, i + from + len);
    let y = b.subrange(j + from, j + from + len);
    assert forall|k: int| 0 <= k < len implies x[k] == y[k] by {
        lemma_same_byte(a, i, b, j, n, from + k);
    }
    assert(x =~= y);
}

/// A run of ordinary bytes lies inside the input, and what follows it is
/// no ordinary byte.
pub proof fn lemma_normal_len(s: Seq<u8>, i: int)
    requires
        0 <= i <= s.len(),
    ensures
        i + normal_len(s, i) <= s.len(),
        forall|p: int| i <= p < i + normal_len(s, i) ==> !is_stop(#[trigger] s[p]),
        i + normal_len(s, i) < s.len() ==> is_stop(s[i + normal_len(s, i)]),
    decreases s.len() - i,
{
    if i < s.len() && !is_stop(s[i]) {
        lemma_normal_len(s, i + 1);
    }
}

/// A stretch of bytes that are all ordinary, followed by the end of the
/// input or by a byte that is not, is a run of that length.
pub proof fn lemma_normal_run(s: Seq<u8>, i: int, n: int)
    requires
        0 <= i,
        0 <= n,
        i + n <= s.len(),
        forall|p: int| i <= p < i + n ==> !is_stop(#[trigger] s[p]),
        i + n == s.len() || is_stop(s[i + n]),
    ensures
        normal_len(s, i) == n,
    decreases n,
{
    if n > 0 {
        assert(!is_stop(s[i]));
        lemma_normal_run(s, i + 1, n - 1);
    }
}

/// A full count of hexadecimal digits lies inside the input.
pub proof fn lemma_hex_run_inside(s: Seq<u8>, i: int, limit: nat)
    requires
        0 <= i,
        hex_run(s, i, limit) == limit,
    ensures
        i + limit <= s.len() || limit == 0,
    decreases limit,
{
    if limit > 0 {
        lemma_hex_run_inside(s, i + 1, (limit - 1) as nat);
    }
}

/// A count of hexadecimal digits reads only the bytes that it counts.
pub proof fn lemma_hex_run_agrees(a: Seq<u8>, i: int, b: Seq<u8>, j: int, limit: nat)
    requires
        hex_run(a, i, limit) == limit,
        same_bytes(a, i, b, j, limit as int),
    ensures
        hex_run(b, j, limit) == limit,
    decreases limit,
{
    if limit > 0 {
        lemma_same_byte(a, i, b, j, limit as int, 0);
        lemma_same_part(a, i, b, j, limit as int, 1, limit - 1);
        lemma_hex_run_agrees(a, i + 1, b, j + 1, (limit - 1) as nat);
    }
}

/// An escape token lies inside the input.
pub proof fn lemma_escapable_inside(s: Seq<u8>, i: int)
    requires
        spec_escapable(s, i) is Ok,
    ensures
        0 <= i,
        0 < spec_escapable(s, i)->Ok_0,
        i + spec_escapable(s, i)->Ok_0 <= s.len(),
{
    if 0 <= i < s.len() && is_simple_escape(s[i]) {
    } else {
        lemma_hex_run_inside(s, i + 1, 4);
    }
}

/// An escape token reads only its own bytes: where `a` holds a token at
/// `i` and `b` holds the same bytes at `j`, `b` holds that token at `j`.
pub proof fn lemma_escapable_agrees(a: Seq<u8>, i: int, b: Seq<u8>, j: int)
    requires
        spec_escapable(a, i) is Ok,
        same_bytes(a, i, b, j, spec_escapable(a, i)->Ok_0 as int),
    ensures
        spec_escapable(b, j) == spec_escapable(a, i),
{
    let n = spec_escapable(a, i)->Ok_0 as int;
    lemma_escapable_inside(a, i);
    lemma_same_byte(a, i, b, j, n, 0);
    if is_simple_escape(a[i]) {
    } else {
        assert(spec_parse_hex(a, i) is Ok);
        assert(n == 5);
        lemma_same_part(a, i, b, j, n, 1, 4);
        lemma_hex_run_agrees(a, i + 1, b, j + 1, 4);
    }
}

/// String content lies inside the input and ends where the input ends, or
/// before a quote or a control character.
pub proof fn lemma_content_inside(s: Seq<u8>, i: int)
    requires
        0 <= i <= s.len(),
        spec_content(s, i) is Ok,
    ensures
        i + spec_content(s, i)->Ok_0 <= s.len(),
        content_ends(s, i + spec_content(s, i)->Ok_0),
    decreases s.len() - i,
{
    let run = normal_len(s, i);
    lemma_normal_len(s, i);
    if has_byte(s, i + run, BACKSLASH) {
        let token = spec_escapable(s, i + run + 1)->Ok_0;
        lemma_escapable_inside(s, i + run + 1);
        lemma_content_inside(s, i + run + 1 + token);
    }
}

/// String content reads only its own bytes and the byte that ends it:
/// where `a` holds content at `i`, and `b` holds the same bytes at `j` and
/// ends behind them or goes on with a quote or a control character, `b`
/// holds the same content at `j`.
pub proof fn lemma_content_agrees(a: Seq<u8>, i: int, b: Seq<u8>, j: int)
    requires
        spec_content(a, i) is Ok,
        same_bytes(a, i, b, j, spec_content(a, i)->Ok_0 as int),
        content_ends(b, j + spec_content(a, i)->Ok_0),
    ensures
        spec_content(b, j) == spec_content(a, i),
    decreases a.len() - i,
{
    let n = spec_content(a, i)->Ok_0 as int;
    let run = normal_len(a, i) as int;
    lemma_normal_len(a, i);
    assert(run <= n);
    assert forall|p: int| j <= p < j + run implies !is_stop(#[trigger] b[p]) by {
        lemma_same_byte(a, i, b, j, n, p - j);
        assert(!is_stop(a[i + (p - j)]));
    }
    if has_byte(a, i + run, BACKSLASH) {
        let token = spec_escapable(a, i + run + 1)->Ok_0 as int;
        let rest = spec_content(a, i + run + 1 + token)->Ok_0 as int;
        assert(n == run + 1 + token + rest);
        lemma_escapable_inside(a, i + run + 1);
        lemma_same_byte(a, i, b, j, n, run);
        lemma_normal_run(b, j, run);
        lemma_same_part(a, i, b, j, n, run + 1, token);
        lemma_escapable_agrees(a, i + run + 1, b, j + run + 1);
        lemma_same_part(a, i, b, j, n, run + 1 + token, rest);
        lemma_content_agrees(a, i + run + 1 + token, b, j + run + 1 + token);
    } else {
        assert(n == run);
        lemma_normal_run(b, j, run);
    }
}

/// The raw text of a string literal, put between quotes again, is a
/// string literal that fills its input and has the same raw text.
pub proof fn lemma_raw_text_reparses(s: Seq<u8>, i: int)
    requires
        spec_string(s, i) is Ok,
    ensures
        ({
            let raw = raw_text(s, i, spec_string(s, i)->Ok_0);
            let again = seq![QUOTE] + raw + seq![QUOTE];
            &&& spec_string(again, 0) == Ok::<nat, Failure>(again.len())
            &&& raw_text(again, 0, again.len()) == raw
        }),
{
    let total = spec_string(s, i)->Ok_0;
    let raw = raw_text(s, i, total);
    let again = seq![QUOTE] + raw + seq![QUOTE];
    if has_literal(s, i, empty_literal()) {
        assert(raw =~= Seq::empty());
        assert(again =~= empty_literal());
        assert(again.subrange(0, 2) =~= empty_literal());
        assert(raw_text(again, 0, again.len()) =~= raw);
    } else {
        let n = spec_parse_str(s, i + 1)->Ok_0 as int;
        assert(total == n + 2);
        assert(spec_content(s, i + 1) == Ok::<nat, Failure>(n as nat));
        assert(has_byte(s, i + 1 + n, QUOTE));
        assert(raw.len() == n);
        assert(n > 0);
        assert(again.len() == n + 2);
        assert(again[0] == QUOTE);
        assert(again[n + 1] == QUOTE);
        assert(s.subrange(i + 1, i + 1 + n) =~= again.subrange(1, 1 + n));
        lemma_content_agrees(s, i + 1, again, 1);
        if s[i + 1] == QUOTE {
            assert(s.subrange(i, i + 2) =~= empty_literal());
        }
        lemma_same_byte(s, i + 1, again, 1, n, 0);
        if has_literal(again, 0, empty_literal()) {
            assert(again.subrange(0, 2)[1] == QUOTE);
        }
        assert(raw_text(again, 0, again.len()) =~= raw);
    }
}

/// Bytes may stand between quotes just when they are string content from
/// the first to the last: the scan of `raw` from `i` on reaches the end of
/// `raw` just when what `raw` holds from `i` on may stand between quotes.
pub proof fn lemma_content_scans(raw: Seq<u8>, i: int)
    requires
        0 <= i <= raw.len(),
    ensures
        is_content(raw.skip(i)) <==> spec_content(raw, i) == Ok::<nat, Failure>(
            (raw.len() - i) as nat,
        ),
    decreases raw.len() - i,
{
    let t = raw.skip(i);
    if i < raw.len() {
        assert(t[0] == raw[i]);
        if raw[i] != BACKSLASH {
            if !is_stop(raw[i]) {
                assert(t.skip(1) =~= raw.skip(i + 1));
                lemma_content_scans(raw, i + 1);
                assert(normal_len(raw, i) == 1 + normal_len(raw, i + 1));
            }
        } else if i + 1 < raw.len() && is_simple_escape(raw[i + 1]) {
            assert(t[1] == raw[i + 1]);
            assert(t.skip(2) =~= raw.skip(i + 2));
            lemma_content_scans(raw, i + 2);
        } else if i + 1 < raw.len() {
            assert(t[1] == raw[i + 1]);
            reveal_with_fuel(hex_run, 5);
            if i + 6 <= raw.len() {
                assert(t[2] == raw[i + 2]);
                assert(t[3] == raw[i + 3]);
                assert(t[4] == raw[i + 4]);
                assert(t[5] == raw[i + 5]);
                assert(t.skip(6) =~= raw.skip(i + 6));
                lemma_content_scans(raw, i + 6);
            }
        }
    }
}

/// Bytes may stand between quotes just when the scan of them alone
/// reaches their end.
pub proof fn lemma_content_is_scanned(raw: Seq<u8>)
    ensures
        is_content(raw) <==> spec_content(raw, 0) == Ok::<nat, Failure>(raw.len()),
{
    assert(raw.skip(0) =~= raw);
    lemma_content_scans(raw, 0);
}

/// A run of digits lies inside the input, is made of digits, and what
/// follows it is no digit.
pub proof fn lemma_digits_len(s: Seq<u8>, i: int)
    requires
        0 <= i <= s.len(),
    ensures
        i + digits_len(s, i) <= s.len(),
        forall|p: int| i <= p < i + digits_len(s, i) ==> is_digit(#[trigger] s[p]),
        i + digits_len(s, i) < s.len() ==> !is_digit(s[i + digits_len(s, i)]),
    decreases s.len() - i,
{
    if i < s.len() && is_digit(s[i]) {
        lemma_digits_len(s, i + 1);
    }
}

/// A stretch of digits, followed by the end of the input or by a byte
/// that is no digit, is a run of that length.
pub proof fn lemma_digits_run(s: Seq<u8>, i: int, n: int)
    requires
        0 <= i,
        0 <= n,
        i + n <= s.len(),
        forall|p: int| i <= p < i + n ==> is_digit(#[trigger] s[p]),
        i + n == s.len() || !is_digit(s[i + n]),
    ensures
        digits_len(s, i) == n,
    decreases n,
{
    if n > 0 {
        assert(is_digit(s[i]));
        lemma_digits_run(s, i + 1, n - 1);
    }
}

/// A piece of the input that is digits, followed by the end of the input
/// or by a byte that is no digit, is a run of digits.
pub proof fn lemma_digits_piece(t: Seq<u8>, from: int, to: int)
    requires
        0 <= from <= to <= t.len(),
        is_digits(t.subrange(from, to)),
        to == t.len() || !is_digit(t[to]),
    ensures
        digits_len(t, from) == to - from,
{
    let piece = t.subrange(from, to);
    assert forall|p: int| from <= p < to implies is_digit(#[trigger] t[p]) by {
        assert(piece[p - from] == t[p]);
    }
    lemma_digits_run(t, from, to - from);
}

/// A run of digits that is not empty is a piece of digits.
pub proof fn lemma_digits_run_is_digits(t: Seq<u8>, from: int)
    requires
        0 <= from <= t.len(),
        digits_len(t, from) > 0,
    ensures
        from + digits_len(t, from) <= t.len(),
        is_digits(t.subrange(from, from + digits_len(t, from))),
{
    lemma_digits_len(t, from);
}

/// A text is a numeric literal just when the longest numeric literal at
/// its start is the whole of it.
pub proof fn lemma_numeral_is_scanned(t: Seq<u8>)
    ensures
        is_numeral(t) <==> t.len() > 0 && number_len(t, 0) == t.len(),
{
    let len = t.len() as int;
    if is_numeral(t) {
        let (a, b, c) = choose|a: int, b: int, c: int| is_numeral_at(t, a, b, c);
        let whole = t.subrange(a, b);
        assert(whole[0] == t[a]);
        assert(sign_len(t, 0, false) == a);
        if b < c {
            let fraction = t.subrange(b, c);
            assert(fraction[0] == t[b]);
            assert(fraction.skip(1) =~= t.subrange(b + 1, c));
        }
        if c < len {
            let exponent = t.subrange(c, len);
            assert(exponent[0] == t[c]);
            assert(exponent[1] == t[c + 1]);
            assert(exponent.skip(1) =~= t.subrange(c + 1, len));
            assert(exponent.skip(2) =~= t.subrange(c + 2, len));
            if is_digits(exponent.skip(1)) {
                assert(exponent.skip(1)[0] == t[c + 1]);
                lemma_digits_piece(t, c + 1, len);
            } else {
                lemma_digits_piece(t, c + 2, len);
            }
            assert(exponent_len(t, c) == len - c);
        }
        if b < c {
            lemma_digits_piece(t, b + 1, c);
        }
        assert(fraction_len(t, b) == c - b);
        lemma_digits_piece(t, a, b);
    }
    if t.len() > 0 && number_len(t, 0) == t.len() {
        let a = sign_len(t, 0, false) as int;
        let b = a + digits_len(t, a);
        let c = b + fraction_len(t, b);
        lemma_digits_run_is_digits(t, a);
        if b < c {
            lemma_digits_run_is_digits(t, b + 1);
            let fraction = t.subrange(b, c);
            assert(fraction[0] == t[b]);
            assert(fraction.skip(1) =~= t.subrange(b + 1, c));
        }
        if c < len {
            let sign = sign_len(t, c + 1, true) as int;
            lemma_digits_run_is_digits(t, c + 1 + sign);
            let exponent = t.subrange(c, len);
            assert(exponent[0] == t[c]);
            assert(exponent[1] == t[c + 1]);
            assert(exponent.skip(1 + sign) =~= t.subrange(c + 1 + sign, len));
        }
        assert(is_numeral_at(t, a, b, c));
    }
}

} // verus!
