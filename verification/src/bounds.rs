//! Where results lie: what a parse takes lies inside the input, and a
//! failure points at a place between two characters of it.

use crate::error::{ErrorKind, Failure, Production};
use crate::grammar::{
    false_tag, null_tag, spec_array, spec_composite, spec_items, spec_key, spec_member,
    spec_members, spec_object, spec_parse, spec_root, spec_scalar, spec_value, true_tag,
};
use crate::laws::lemma_normal_len;
use crate::lexical::{
    clean_cut, has_byte, has_literal, is_space, lemma_clean_cut_is_char_boundary, ws_len,
    BACKSLASH, CLOSE_BRACE, CLOSE_BRACKET, COLON, COMMA, OPEN_BRACE, OPEN_BRACKET, QUOTE,
};
use crate::number::{digits_len, fraction_len, is_digit, number_len, sign_len, spec_number};
use crate::string::{
    empty_literal, hex_run, is_hex_digit, is_simple_escape, normal_len, remaining, spec_content,
    spec_escapable, spec_parse_hex, spec_parse_str, spec_string, LOWER_U,
};
use crate::value::Json;
use vstd::prelude::*;
use vstd::utf8::{is_char_boundary, valid_utf8};

verus! {

/// Whether `f` is a failure that a parse from `i` on can end with: it lies
/// at or behind `i`, inside `s`, at a place where `s` can be cut, and so
/// does each production of its trail, none behind the failure itself.
pub open spec fn lies_within(f: Failure, s: Seq<u8>, i: int) -> bool {
    &&& i <= f.offset
    &&& clean_cut(s, f.offset)
    &&& forall|k: int|
        0 <= k < f.trail.len() ==> i <= (#[trigger] f.trail[k]).1 <= f.offset && clean_cut(
            s,
            f.trail[k].1,
        )
}

/// Whether a parse from `i` on that took `n` bytes stayed inside `s` and
/// ended at a place where `s` can be cut.
pub open spec fn ends_within(s: Seq<u8>, i: int, n: nat) -> bool {
    i + n <= s.len() && clean_cut(s, i + n)
}

/// Whether a parse from `i` on that took `n` bytes took at least one,
/// stayed inside `s` and ended behind an ASCII byte.
pub open spec fn moves_within(s: Seq<u8>, i: int, n: nat) -> bool {
    n > 0 && i + n <= s.len() && s[i + n - 1] < 0x80
}

/// A failure that lies within from `j` on lies within from any place
/// before `j`.
pub proof fn lemma_seen_from_before(f: Failure, s: Seq<u8>, i: int, j: int)
    requires
        lies_within(f, s, j),
        i <= j,
    ensures
        lies_within(f, s, i),
{
}

/// A failure that lies within from `i` on still does when seen from a
/// production that started at `i`.
pub proof fn lemma_seen_from_production(f: Failure, s: Seq<u8>, i: int, p: Production)
    requires
        lies_within(f, s, i),
        clean_cut(s, i),
    ensures
        lies_within(f.within(p, i), s, i),
{
    let g = f.within(p, i);
    assert forall|k: int| 0 <= k < g.trail.len() implies i <= (#[trigger] g.trail[k]).1 <= g.offset
        && clean_cut(s, g.trail[k].1) by {
        if k < f.trail.len() {
            assert(g.trail[k] == f.trail[k]);
        }
    }
}

/// Skipped whitespace lies inside the input and ends where it can be cut.
pub proof fn lemma_ws_within(s: Seq<u8>, i: int)
    requires
        clean_cut(s, i),
    ensures
        ends_within(s, i, ws_len(s, i)),
    decreases s.len() - i,
{
    if i < s.len() && is_space(s[i]) {
        lemma_ws_within(s, i + 1);
    }
}

/// A count of hexadecimal digits lies inside the input, behind a digit.
pub proof fn lemma_hex_run_within(s: Seq<u8>, i: int, limit: nat)
    requires
        0 <= i <= s.len(),
    ensures
        i + hex_run(s, i, limit) <= s.len(),
        hex_run(s, i, limit) <= limit,
        hex_run(s, i, limit) > 0 ==> is_hex_digit(s[i + hex_run(s, i, limit) - 1]),
    decreases limit,
{
    if limit > 0 && i < s.len() && is_hex_digit(s[i]) {
        lemma_hex_run_within(s, i + 1, (limit - 1) as nat);
    }
}

/// A unicode escape ends inside the input, and a failure to read one lies
/// within.
pub proof fn lemma_parse_hex_within(s: Seq<u8>, i: int)
    requires
        clean_cut(s, i),
    ensures
        match spec_parse_hex(s, i) {
            Ok(n) => moves_within(s, i, n),
            Err(f) => lies_within(f, s, i),
        },
{
    if has_byte(s, i, LOWER_U) {
        lemma_hex_run_within(s, i + 1, 4);
        let digits = hex_run(s, i + 1, 4);
        if digits != 4 {
            lemma_seen_from_production(
                Failure::at(ErrorKind::HexDigitError, i + 1 + digits),
                s,
                i,
                Production::HexString,
            );
        }
    } else {
        lemma_seen_from_production(
            Failure::at(ErrorKind::TagMismatch, i),
            s,
            i,
            Production::HexString,
        );
    }
}

/// An escape token ends inside the input, and a failure to read one lies
/// within.
pub proof fn lemma_escapable_within(s: Seq<u8>, i: int)
    requires
        clean_cut(s, i),
    ensures
        match spec_escapable(s, i) {
            Ok(n) => moves_within(s, i, n),
            Err(f) => lies_within(f, s, i),
        },
{
    if 0 <= i < s.len() && is_simple_escape(s[i]) {
    } else if has_byte(s, i, LOWER_U) {
        lemma_parse_hex_within(s, i);
        if let Err(f) = spec_parse_hex(s, i) {
            lemma_seen_from_production(f, s, i, Production::Escaped);
        }
    } else {
        lemma_seen_from_production(
            Failure::at(ErrorKind::EscapeError, i),
            s,
            i,
            Production::Escaped,
        );
    }
}

/// String content ends inside the input, and a failure to read it lies
/// within.
pub proof fn lemma_content_within(s: Seq<u8>, i: int)
    requires
        clean_cut(s, i),
    ensures
        match spec_content(s, i) {
            Ok(n) => ends_within(s, i, n),
            Err(f) => lies_within(f, s, i),
        },
    decreases remaining(s, i),
{
    let run = normal_len(s, i);
    lemma_normal_len(s, i);
    if has_byte(s, i + run, BACKSLASH) {
        lemma_escapable_within(s, i + run + 1);
        if let Ok(token) = spec_escapable(s, i + run + 1) {
            lemma_content_within(s, i + run + 1 + token);
        }
    }
}

/// A string literal ends inside the input, and a failure to read one lies
/// within.
pub proof fn lemma_string_within(s: Seq<u8>, i: int)
    requires
        clean_cut(s, i),
    ensures
        match spec_string(s, i) {
            Ok(n) => moves_within(s, i, n),
            Err(f) => lies_within(f, s, i),
        },
{
    if has_literal(s, i, empty_literal()) {
        assert(s.subrange(i, i + 2)[1] == QUOTE);
    } else if has_byte(s, i, QUOTE) {
        lemma_content_within(s, i + 1);
        match spec_parse_str(s, i + 1) {
            Ok(n) => {
                let end = i + 1 + n;
                if !has_byte(s, end, QUOTE) {
                    let kind = if end >= s.len() {
                        ErrorKind::UnterminatedLiteral
                    } else {
                        ErrorKind::TagMismatch
                    };
                    lemma_seen_from_production(Failure::at(kind, end), s, i, Production::Str);
                }
            },
            Err(f) => {
                lemma_seen_from_production(f, s, i, Production::Str);
            },
        }
    } else {
        lemma_seen_from_production(Failure::at(ErrorKind::TagMismatch, i), s, i, Production::Str);
    }
}

/// A run of digits that is not empty ends inside the input, behind a
/// digit.
pub proof fn lemma_digits_within(s: Seq<u8>, i: int)
    requires
        0 <= i,
    ensures
        digits_len(s, i) > 0 ==> i + digits_len(s, i) <= s.len() && is_digit(
            s[i + digits_len(s, i) - 1],
        ),
    decreases s.len() - i,
{
    if i < s.len() && is_digit(s[i]) {
        lemma_digits_within(s, i + 1);
    }
}

/// A numeric literal ends inside the input, behind a digit.
pub proof fn lemma_number_len_within(s: Seq<u8>, i: int)
    requires
        0 <= i,
    ensures
        number_len(s, i) > 0 ==> moves_within(s, i, number_len(s, i)),
{
    let sign = sign_len(s, i, false);
    let whole = digits_len(s, i + sign);
    lemma_digits_within(s, i + sign);
    if whole > 0 {
        let p = i + sign + whole;
        lemma_digits_within(s, p + 1);
        let q = p + fraction_len(s, p);
        let sign2 = sign_len(s, q + 1, true);
        lemma_digits_within(s, q + 1 + sign2);
    }
}

/// A number ends inside the input, and a failure to read one lies within.
pub proof fn lemma_number_within(s: Seq<u8>, i: int)
    requires
        clean_cut(s, i),
    ensures
        match spec_number(s, i) {
            Ok((_, n)) => moves_within(s, i, n),
            Err(f) => lies_within(f, s, i),
        },
{
    lemma_number_len_within(s, i);
}

/// A scalar ends inside the input, and a failure to read one lies within.
pub proof fn lemma_scalar_within(s: Seq<u8>, i: int)
    requires
        clean_cut(s, i),
    ensures
        match spec_scalar(s, i) {
            Ok((_, n)) => moves_within(s, i, n),
            Err(f) => lies_within(f, s, i),
        },
{
    reveal(spec_scalar);
    lemma_string_within(s, i);
    lemma_number_within(s, i);
    if has_literal(s, i, true_tag()) {
        assert(s.subrange(i, i + 4)[3] == 0x65);
    }
    if has_literal(s, i, false_tag()) {
        assert(s.subrange(i, i + 5)[4] == 0x65);
    }
    if has_literal(s, i, null_tag()) {
        assert(s.subrange(i, i + 4)[3] == 0x6c);
    }
}

/// A key ends inside the input, and a failure to read one lies within.
pub proof fn lemma_key_within(s: Seq<u8>, i: int)
    requires
        clean_cut(s, i),
    ensures
        match spec_key(s, i) {
            Ok((_, n)) => moves_within(s, i, n),
            Err(f) => lies_within(f, s, i),
        },
{
    reveal(spec_key);
    lemma_ws_within(s, i);
    let j = i + ws_len(s, i);
    lemma_string_within(s, j);
    if let Ok(n) = spec_string(s, j) {
        lemma_ws_within(s, j + n);
        lemma_ws_last(s, j + n);
    }
}

/// Whitespace that was skipped ends behind a whitespace byte.
pub proof fn lemma_ws_last(s: Seq<u8>, i: int)
    requires
        0 <= i,
    ensures
        ws_len(s, i) > 0 ==> i + ws_len(s, i) <= s.len() && is_space(s[i + ws_len(s, i) - 1]),
    decreases s.len() - i,
{
    if i < s.len() && is_space(s[i]) {
        lemma_ws_last(s, i + 1);
    }
}

/// A value ends inside the input, and a failure to read one lies within.
pub proof fn lemma_value_within(s: Seq<u8>, i: int)
    requires
        clean_cut(s, i),
    ensures
        match spec_value(s, i) {
            Ok((_, n)) => moves_within(s, i, n),
            Err(f) => lies_within(f, s, i),
        },
    decreases remaining(s, i), 4int,
{
    lemma_ws_within(s, i);
    let j = i + ws_len(s, i);
    lemma_composite_within(s, j);
    lemma_scalar_within(s, j);
    match spec_composite(s, j) {
        Ok((_, n)) => {
            lemma_ws_last(s, j + n);
        },
        Err(in_composite) => match spec_scalar(s, j) {
            Ok((_, n)) => {
                lemma_ws_last(s, j + n);
            },
            Err(in_scalar) => {
                let f = in_composite.furthest(in_scalar);
                lemma_seen_from_before(f, s, i, j);
                lemma_seen_from_production(f, s, i, Production::Value);
            },
        },
    }
}

/// An object or an array ends inside the input, and a failure to read one
/// lies within.
pub proof fn lemma_composite_within(s: Seq<u8>, i: int)
    requires
        clean_cut(s, i),
    ensures
        match spec_composite(s, i) {
            Ok((_, n)) => moves_within(s, i, n),
            Err(f) => lies_within(f, s, i),
        },
    decreases remaining(s, i), 3int,
{
    lemma_object_within(s, i);
    lemma_array_within(s, i);
}

/// An array ends inside the input, and a failure to read one lies within.
pub proof fn lemma_array_within(s: Seq<u8>, i: int)
    requires
        clean_cut(s, i),
    ensures
        match spec_array(s, i) {
            Ok((_, n)) => moves_within(s, i, n),
            Err(f) => lies_within(f, s, i),
        },
    decreases remaining(s, i), 2int,
{
    if !has_byte(s, i, OPEN_BRACKET) {
        lemma_seen_from_production(
            Failure::at(ErrorKind::TagMismatch, i),
            s,
            i,
            Production::Array,
        );
    } else {
        lemma_value_within(s, i + 1);
        match spec_value(s, i + 1) {
            Ok((first, n)) => {
                lemma_items_within(s, i + 1 + n, seq![first]);
                if let Err(e) = spec_items(s, i + 1 + n, seq![first]) {
                    lemma_seen_from_before(e, s, i, i + 1 + n);
                    lemma_seen_from_production(e, s, i, Production::Array);
                }
            },
            Err(e) => {
                if !has_byte(s, i + 1, CLOSE_BRACKET) {
                    let f = e.furthest(Failure::at(ErrorKind::TagMismatch, i + 1));
                    lemma_seen_from_before(f, s, i, i + 1);
                    lemma_seen_from_production(f, s, i, Production::Array);
                }
            },
        }
    }
}

/// The rest of an array ends inside the input, and a failure to read it
/// lies within.
pub proof fn lemma_items_within(s: Seq<u8>, i: int, before: Seq<Json>)
    requires
        clean_cut(s, i),
    ensures
        match spec_items(s, i, before) {
            Ok((_, n)) => moves_within(s, i, n),
            Err(f) => lies_within(f, s, i),
        },
    decreases remaining(s, i), 1int,
{
    if has_byte(s, i, COMMA) {
        lemma_value_within(s, i + 1);
        match spec_value(s, i + 1) {
            Ok((item, n)) => {
                lemma_items_within(s, i + 1 + n, before.push(item));
                if let Err(e) = spec_items(s, i + 1 + n, before.push(item)) {
                    lemma_seen_from_before(e, s, i, i + 1 + n);
                }
            },
            Err(e) => {
                lemma_seen_from_before(e, s, i, i + 1);
            },
        }
    }
}

/// A member ends inside the input, and a failure to read one lies within.
pub proof fn lemma_member_within(s: Seq<u8>, i: int)
    requires
        clean_cut(s, i),
    ensures
        match spec_member(s, i) {
            Ok((_, _, n)) => moves_within(s, i, n),
            Err(f) => lies_within(f, s, i),
        },
    decreases remaining(s, i), 1int,
{
    lemma_key_within(s, i);
    if let Ok((_, n)) = spec_key(s, i) {
        if has_byte(s, i + n, COLON) {
            lemma_value_within(s, i + n + 1);
            if let Err(e) = spec_value(s, i + n + 1) {
                lemma_seen_from_before(e, s, i, i + n + 1);
            }
        }
    }
}

/// An object ends inside the input, and a failure to read one lies
/// within.
pub proof fn lemma_object_within(s: Seq<u8>, i: int)
    requires
        clean_cut(s, i),
    ensures
        match spec_object(s, i) {
            Ok((_, n)) => moves_within(s, i, n),
            Err(f) => lies_within(f, s, i),
        },
    decreases remaining(s, i), 2int,
{
    if !has_byte(s, i, OPEN_BRACE) {
        lemma_seen_from_production(
            Failure::at(ErrorKind::TagMismatch, i),
            s,
            i,
            Production::Object,
        );
    } else {
        lemma_member_within(s, i + 1);
        match spec_member(s, i + 1) {
            Ok((key, v, n)) => {
                let first = Map::empty().insert(key, v);
                lemma_members_within(s, i + 1 + n, first);
                if let Err(e) = spec_members(s, i + 1 + n, first) {
                    lemma_seen_from_before(e, s, i, i + 1 + n);
                    lemma_seen_from_production(e, s, i, Production::Object);
                }
            },
            Err(e) => {
                if !has_byte(s, i + 1, CLOSE_BRACE) {
                    let f = e.furthest(Failure::at(ErrorKind::TagMismatch, i + 1));
                    lemma_seen_from_before(f, s, i, i + 1);
                    lemma_seen_from_production(f, s, i, Production::Object);
                }
            },
        }
    }
}

/// The rest of an object ends inside the input, and a failure to read it
/// lies within.
pub proof fn lemma_members_within(s: Seq<u8>, i: int, before: Map<Seq<char>, Json>)
    requires
        clean_cut(s, i),
    ensures
        match spec_members(s, i, before) {
            Ok((_, n)) => moves_within(s, i, n),
            Err(f) => lies_within(f, s, i),
        },
    decreases remaining(s, i), 0int,
{
    if has_byte(s, i, COMMA) {
        lemma_member_within(s, i + 1);
        match spec_member(s, i + 1) {
            Ok((key, v, n)) => {
                lemma_members_within(s, i + 1 + n, before.insert(key, v));
                if let Err(e) = spec_members(s, i + 1 + n, before.insert(key, v)) {
                    lemma_seen_from_before(e, s, i, i + 1 + n);
                }
            },
            Err(e) => {
                lemma_seen_from_before(e, s, i, i + 1);
            },
        }
    }
}

/// What a document takes lies inside the input and ends where the input
/// can be cut, and each failure to read a document points at such a place,
/// as does each production of its trail, which started at or before the
/// failure.
pub proof fn lemma_root_within(s: Seq<u8>)
    ensures
        match spec_root(s) {
            Ok((_, n)) => moves_within(s, 0, n),
            Err(f) => lies_within(f, s, 0),
        },
        match spec_parse(s) {
            Ok(_) => true,
            Err(f) => lies_within(f, s, 0),
        },
{
    lemma_ws_within(s, 0);
    let j = ws_len(s, 0) as int;
    lemma_composite_within(s, j);
    match spec_composite(s, j) {
        Ok((_, n)) => {
            lemma_ws_last(s, j + n);
        },
        Err(f) => {
            lemma_seen_from_before(f, s, 0, j);
        },
    }
}

/// In a text, each place at which a failure lies within falls between two
/// characters.
pub proof fn lemma_failure_can_be_cut(f: Failure, s: Seq<u8>, i: int)
    requires
        valid_utf8(s),
        lies_within(f, s, i),
    ensures
        is_char_boundary(s, f.offset),
        forall|k: int| 0 <= k < f.trail.len() ==> is_char_boundary(s, (#[trigger] f.trail[k]).1),
{
    lemma_clean_cut_is_char_boundary(s, f.offset);
    assert forall|k: int| 0 <= k < f.trail.len() implies is_char_boundary(
        s,
        (#[trigger] f.trail[k]).1,
    ) by {
        lemma_clean_cut_is_char_boundary(s, f.trail[k].1);
    }
}

} // verus!
