//! Keywords, composite values, the value dispatch and the document root.

use crate::error::{ErrorKind, Failure, ParseError, Production};
use crate::lexical::{
    byte_at, cut, has_byte, has_literal, literal, skip_whitespace, ws_len,
    CLOSE_BRACE, CLOSE_BRACKET, COLON, COMMA, OPEN_BRACE, OPEN_BRACKET,
};
use crate::number::{number_at, spec_number};
use crate::string::{raw_text, remaining, spec_string, string_at};
use crate::value::{
    distinct_keys, insert_member, items_view, members_map, members_wf, Json, JsonValue,
};
use vstd::prelude::*;
use vstd::string::StringSliceAdditionalSpecFns;
use vstd::utf8::*;

verus! {

/// The bytes of `true`.
pub open spec fn true_tag() -> Seq<u8> {
    seq![0x74, 0x72, 0x75, 0x65]
}

/// The bytes of `false`.
pub open spec fn false_tag() -> Seq<u8> {
    seq![0x66, 0x61, 0x6c, 0x73, 0x65]
}

/// The bytes of `null`.
pub open spec fn null_tag() -> Seq<u8> {
    seq![0x6e, 0x75, 0x6c, 0x6c]
}

/// A boolean at `i`: `true` or `false`, nothing else.
pub open spec fn spec_boolean(s: Seq<u8>, i: int) -> Result<(bool, nat), Failure> {
    if has_literal(s, i, true_tag()) {
        Ok((true, 4))
    } else if has_literal(s, i, false_tag()) {
        Ok((false, 5))
    } else {
        Err(Failure::at(ErrorKind::TagMismatch, i))
    }
}

/// The literal `null` at `i`.
pub open spec fn spec_null(s: Seq<u8>, i: int) -> Result<nat, Failure> {
    if has_literal(s, i, null_tag()) {
        Ok(4)
    } else {
        Err(Failure::at(ErrorKind::TagMismatch, i))
    }
}

/// A scalar at `i`: the first of string, number, boolean and null that
/// matches. Where none does, the failure is the one that got furthest.
#[verifier::opaque]
pub open spec fn spec_scalar(s: Seq<u8>, i: int) -> Result<(Json, nat), Failure> {
    match spec_string(s, i) {
        Ok(n) => Ok((Json::Str(decode_utf8(raw_text(s, i, n))), n)),
        Err(in_string) => match spec_number(s, i) {
            Ok((bits, n)) => Ok((Json::Num(bits), n)),
            Err(in_number) => match spec_boolean(s, i) {
                Ok((b, n)) => Ok((Json::Boolean(b), n)),
                Err(in_boolean) => match spec_null(s, i) {
                    Ok(n) => Ok((Json::Null, n)),
                    Err(in_null) => Err(
                        in_string.furthest(in_number).furthest(in_boolean).furthest(in_null),
                    ),
                },
            },
        },
    }
}

/// An object or an array at `i`, tried in this order. Where neither
/// matches, the failure is the one that got further, the array's where
/// both stopped at one offset.
pub open spec fn spec_composite(s: Seq<u8>, i: int) -> Result<(Json, nat), Failure>
    decreases remaining(s, i), 3int,
{
    match spec_object(s, i) {
        Ok((map, n)) => Ok((Json::Object(map), n)),
        Err(in_object) => match spec_array(s, i) {
            Ok((items, n)) => Ok((Json::Array(items), n)),
            Err(in_array) => Err(in_object.furthest(in_array)),
        },
    }
}

/// A value at `i`, with the whitespace around it: the value and the
/// number of bytes taken, whitespace included.
///
/// The candidates are tried in the order object, array, string, number,
/// boolean, null, each from the first byte after the leading whitespace.
/// Where none matches, the failure is the one that got furthest, seen
/// from the value that started at `i`.
pub open spec fn spec_value(s: Seq<u8>, i: int) -> Result<(Json, nat), Failure>
    decreases remaining(s, i), 4int,
{
    let lead = ws_len(s, i);
    let j = i + lead;
    match spec_composite(s, j) {
        Ok((v, n)) => Ok((v, lead + n + ws_len(s, j + n))),
        Err(in_composite) => match spec_scalar(s, j) {
            Ok((v, n)) => Ok((v, lead + n + ws_len(s, j + n))),
            Err(in_scalar) => Err(in_composite.furthest(in_scalar).within(Production::Value, i)),
        },
    }
}

/// An array at `i`: `[`, values separated by commas, `]`. Its items and
/// the number of bytes taken.
///
/// The empty array is `[]` with nothing between the brackets. Where the
/// first value fails and no `]` stands in its place, the failure is the
/// value's, if it got further than that place, else a tag mismatch there.
pub open spec fn spec_array(s: Seq<u8>, i: int) -> Result<(Seq<Json>, nat), Failure>
    decreases remaining(s, i), 2int,
{
    if !has_byte(s, i, OPEN_BRACKET) {
        Err(Failure::at(ErrorKind::TagMismatch, i).within(Production::Array, i))
    } else {
        match spec_value(s, i + 1) {
            Ok((first, n)) => match spec_items(s, i + 1 + n, seq![first]) {
                Ok((items, m)) => Ok((items, 1 + n + m)),
                Err(e) => Err(e.within(Production::Array, i)),
            },
            Err(e) => if has_byte(s, i + 1, CLOSE_BRACKET) {
                Ok((Seq::empty(), 2))
            } else {
                Err(
                    e.furthest(Failure::at(ErrorKind::TagMismatch, i + 1)).within(
                        Production::Array,
                        i,
                    ),
                )
            },
        }
    }
}

/// The rest of an array, from the position `i` after one of its values:
/// either a comma and a further value, or the closing bracket. A comma
/// must be followed by a value.
pub open spec fn spec_items(s: Seq<u8>, i: int, before: Seq<Json>) -> Result<
    (Seq<Json>, nat),
    Failure,
>
    decreases remaining(s, i), 1int,
{
    if has_byte(s, i, COMMA) {
        match spec_value(s, i + 1) {
            Ok((item, n)) => match spec_items(s, i + 1 + n, before.push(item)) {
                Ok((items, m)) => Ok((items, 1 + n + m)),
                Err(e) => Err(e),
            },
            Err(e) => Err(e),
        }
    } else if has_byte(s, i, CLOSE_BRACKET) {
        Ok((before, 1))
    } else {
        Err(Failure::at(ErrorKind::TagMismatch, i))
    }
}

/// A key at `i`: a string literal with optional whitespace around it. The
/// raw text of the literal and the number of bytes taken.
#[verifier::opaque]
pub open spec fn spec_key(s: Seq<u8>, i: int) -> Result<(Seq<char>, nat), Failure> {
    let lead = ws_len(s, i);
    match spec_string(s, i + lead) {
        Ok(n) => Ok(
            (decode_utf8(raw_text(s, i + lead, n)), lead + n + ws_len(s, i + lead + n)),
        ),
        Err(e) => Err(e),
    }
}

/// A member of an object at `i`: a key, a colon, and a value. The key,
/// the value, and the number of bytes taken.
pub open spec fn spec_member(s: Seq<u8>, i: int) -> Result<(Seq<char>, Json, nat), Failure>
    decreases remaining(s, i), 1int,
{
    match spec_key(s, i) {
        Ok((key, n)) => if has_byte(s, i + n, COLON) {
            match spec_value(s, i + n + 1) {
                Ok((v, m)) => Ok((key, v, n + 1 + m)),
                Err(e) => Err(e),
            }
        } else {
            Err(Failure::at(ErrorKind::TagMismatch, i + n))
        },
        Err(e) => Err(e),
    }
}

/// An object at `i`: `{`, members separated by commas, `}`. Its mapping
/// and the number of bytes taken. Of two members with one key the later
/// stays.
///
/// The empty object is `{}` with nothing between the braces. Where the
/// first member fails and no `}` stands in its place, the failure is the
/// member's, if it got further than that place, else a tag mismatch there.
pub open spec fn spec_object(s: Seq<u8>, i: int) -> Result<(Map<Seq<char>, Json>, nat), Failure>
    decreases remaining(s, i), 2int,
{
    if !has_byte(s, i, OPEN_BRACE) {
        Err(Failure::at(ErrorKind::TagMismatch, i).within(Production::Object, i))
    } else {
        match spec_member(s, i + 1) {
            Ok((key, v, n)) => match spec_members(s, i + 1 + n, Map::empty().insert(key, v)) {
                Ok((map, m)) => Ok((map, 1 + n + m)),
                Err(e) => Err(e.within(Production::Object, i)),
            },
            Err(e) => if has_byte(s, i + 1, CLOSE_BRACE) {
                Ok((Map::empty(), 2))
            } else {
                Err(
                    e.furthest(Failure::at(ErrorKind::TagMismatch, i + 1)).within(
                        Production::Object,
                        i,
                    ),
                )
            },
        }
    }
}

/// The rest of an object, from the position `i` after one of its
/// members: either a comma and a further member, or the closing brace.
pub open spec fn spec_members(s: Seq<u8>, i: int, before: Map<Seq<char>, Json>) -> Result<
    (Map<Seq<char>, Json>, nat),
    Failure,
>
    decreases remaining(s, i), 0int,
{
    if has_byte(s, i, COMMA) {
        match spec_member(s, i + 1) {
            Ok((key, v, n)) => match spec_members(s, i + 1 + n, before.insert(key, v)) {
                Ok((map, m)) => Ok((map, 1 + n + m)),
                Err(e) => Err(e),
            },
            Err(e) => Err(e),
        }
    } else if has_byte(s, i, CLOSE_BRACE) {
        Ok((before, 1))
    } else {
        Err(Failure::at(ErrorKind::TagMismatch, i))
    }
}

/// A document: optional whitespace, an object or an array, optional
/// whitespace. The value and the number of bytes taken.
///
/// A scalar in that place is refused as such. Any other failure is that of
/// the object or the array, whichever got further.
pub open spec fn spec_root(s: Seq<u8>) -> Result<(Json, nat), Failure> {
    let j = ws_len(s, 0);
    match spec_composite(s, j as int) {
        Ok((v, n)) => Ok((v, j + n + ws_len(s, (j + n) as int))),
        Err(in_composite) => if spec_scalar(s, j as int) is Ok {
            Err(Failure::at(ErrorKind::UnexpectedTopLevelScalar, j as int))
        } else {
            Err(in_composite)
        },
    }
}

/// A document that fills the whole input: what is left after the
/// top-level value and the whitespace behind it is trailing input.
pub open spec fn spec_parse(s: Seq<u8>) -> Result<Json, Failure> {
    match spec_root(s) {
        Ok((v, n)) => if n == s.len() {
            Ok(v)
        } else {
            Err(Failure::at(ErrorKind::TrailingInput, n as int))
        },
        Err(e) => Err(e),
    }
}

/// Whether a parse that started at `pos` ended as `expected` says: with
/// a value of that meaning at the position `pos + n`, or with the same
/// failure.
pub open spec fn yields(
    r: Result<(JsonValue, usize), ParseError>,
    pos: int,
    expected: Result<(Json, nat), Failure>,
) -> bool {
    match expected {
        Ok((v, n)) => r matches Ok((got, next)) && got@ == v && next == pos + n,
        Err(f) => r matches Err(e) && e@ == f,
    }
}

/// What holds of a position that a successful parse hands out: it lies
/// after `pos`, inside the input, behind an ASCII byte.
pub open spec fn advanced(s: Seq<u8>, pos: int, next: int) -> bool {
    pos < next <= s.len() && s[next - 1] < 0x80
}

/// A boolean at `pos`, see [`spec_boolean`].
pub fn boolean_at(src: &[u8], pos: usize) -> (r: Result<(bool, usize), ParseError>)
    ensures
        match spec_boolean(src@, pos as int) {
            Ok((b, n)) => r matches Ok((got, next)) && got == b && next == pos + n,
            Err(f) => r matches Err(e) && e@ == f,
        },
        r matches Ok((_, next)) ==> advanced(src@, pos as int, next as int),
{
    let t: [u8; 4] = [0x74, 0x72, 0x75, 0x65];
    let f: [u8; 5] = [0x66, 0x61, 0x6c, 0x73, 0x65];
    assert(t@ =~= true_tag());
    assert(f@ =~= false_tag());
    match literal(src, pos, t.as_slice()) {
        Ok(next) => {
            assert(src@.subrange(pos as int, pos + 4)[3] == 0x65);
            Ok((true, next))
        },
        Err(_) => match literal(src, pos, f.as_slice()) {
            Ok(next) => {
                assert(src@.subrange(pos as int, pos + 5)[4] == 0x65);
                Ok((false, next))
            },
            Err(e) => Err(e),
        },
    }
}

/// The literal `null` at `pos`, see [`spec_null`].
pub fn null_at(src: &[u8], pos: usize) -> (r: Result<usize, ParseError>)
    ensures
        match spec_null(src@, pos as int) {
            Ok(n) => r matches Ok(next) && next == pos + n,
            Err(f) => r matches Err(e) && e@ == f,
        },
        r matches Ok(next) ==> advanced(src@, pos as int, next as int),
{
    let t: [u8; 4] = [0x6e, 0x75, 0x6c, 0x6c];
    assert(t@ =~= null_tag());
    match literal(src, pos, t.as_slice()) {
        Ok(next) => {
            assert(src@.subrange(pos as int, pos + 4)[3] == 0x6c);
            Ok(next)
        },
        Err(e) => Err(e),
    }
}

/// A scalar at the byte offset `pos` of `text`, see [`spec_scalar`].
pub fn scalar_at(text: &str, pos: usize) -> (r: Result<(JsonValue, usize), ParseError>)
    ensures
        yields(r, pos as int, spec_scalar(text.spec_bytes(), pos as int)),
        r matches Ok((v, next)) ==> v.wf() && advanced(text.spec_bytes(), pos as int, next as int),
{
    reveal(spec_scalar);
    let src = text.as_bytes();
    let in_string = match string_at(src, pos) {
        Ok(next) => {
            let raw = cut(text, pos + 1, next - 1);
            return Ok((JsonValue::Str(raw.to_owned()), next));
        },
        Err(e) => e,
    };
    let in_number = match number_at(text, pos) {
        Ok((bits, next)) => {
            return Ok((JsonValue::Num(bits), next));
        },
        Err(e) => e,
    };
    let in_boolean = match boolean_at(src, pos) {
        Ok((b, next)) => {
            return Ok((JsonValue::Boolean(b), next));
        },
        Err(e) => e,
    };
    match null_at(src, pos) {
        Ok(next) => Ok((JsonValue::Null, next)),
        Err(in_null) => Err(in_string.furthest(in_number).furthest(in_boolean).furthest(in_null)),
    }
}

/// An object or an array at the byte offset `pos` of `text`, see
/// [`spec_composite`].
pub fn composite_at(text: &str, pos: usize) -> (r: Result<(JsonValue, usize), ParseError>)
    ensures
        yields(r, pos as int, spec_composite(text.spec_bytes(), pos as int)),
        r matches Ok((v, next)) ==> v.wf() && advanced(text.spec_bytes(), pos as int, next as int),
    decreases remaining(text.spec_bytes(), pos as int), 3int,
{
    match object_at(text, pos) {
        Ok((members, next)) => Ok((JsonValue::Object(members), next)),
        Err(in_object) => match array_at(text, pos) {
            Ok((items, next)) => Ok((JsonValue::Array(items), next)),
            Err(in_array) => Err(in_object.furthest(in_array)),
        },
    }
}

/// A value at the byte offset `pos` of `text`, see [`spec_value`].
pub fn value_at(text: &str, pos: usize) -> (r: Result<(JsonValue, usize), ParseError>)
    ensures
        yields(r, pos as int, spec_value(text.spec_bytes(), pos as int)),
        r matches Ok((v, next)) ==> v.wf() && advanced(text.spec_bytes(), pos as int, next as int),
    decreases remaining(text.spec_bytes(), pos as int), 4int,
{
    let src = text.as_bytes();
    let start = skip_whitespace(src, pos);
    match composite_at(text, start) {
        Ok((v, next)) => Ok((v, skip_whitespace(src, next))),
        Err(in_composite) => match scalar_at(text, start) {
            Ok((v, next)) => Ok((v, skip_whitespace(src, next))),
            Err(in_scalar) => Err(
                in_composite.furthest(in_scalar).within(Production::Value, pos),
            ),
        },
    }
}

/// An array at the byte offset `pos` of `text`, see [`spec_array`].
pub fn array_at(text: &str, pos: usize) -> (r: Result<(Vec<JsonValue>, usize), ParseError>)
    ensures
        match spec_array(text.spec_bytes(), pos as int) {
            Ok((items, n)) => r matches Ok((got, next)) && items_view(got@) == items && next == pos
                + n,
            Err(f) => r matches Err(e) && e@ == f,
        },
        r matches Ok((got, next)) ==> advanced(text.spec_bytes(), pos as int, next as int)
            && forall|k: int| 0 <= k < got@.len() ==> (#[trigger] got@[k]).wf(),
    decreases remaining(text.spec_bytes(), pos as int), 2int,
{
    let src = text.as_bytes();
    let ghost s = text.spec_bytes();
    if !byte_at(src, pos, OPEN_BRACKET) {
        return Err(ParseError::new(ErrorKind::TagMismatch, pos).within(Production::Array, pos));
    }
    let mut items: Vec<JsonValue> = Vec::new();
    let mut cur: usize;
    match value_at(text, pos + 1) {
        Ok((first, next)) => {
            items.push(first);
            cur = next;
            assert(items_view(items@) =~= seq![first@]);
        },
        Err(e) => {
            if byte_at(src, pos + 1, CLOSE_BRACKET) {
                assert(items_view(items@) =~= Seq::empty());
                return Ok((items, pos + 2));
            }
            return Err(
                e.furthest(ParseError::new(ErrorKind::TagMismatch, pos + 1)).within(
                    Production::Array,
                    pos,
                ),
            );
        },
    }
    loop
        invariant
            s == text.spec_bytes(),
            src@ == s,
            pos < cur <= s.len(),
            forall|k: int| 0 <= k < items@.len() ==> (#[trigger] items@[k]).wf(),
            match spec_items(s, cur as int, items_view(items@)) {
                Ok((all, m)) => spec_array(s, pos as int) == Ok::<(Seq<Json>, nat), Failure>(
                    (all, (cur - pos + m) as nat),
                ),
                Err(e) => spec_array(s, pos as int) == Err::<(Seq<Json>, nat), Failure>(
                    e.within(Production::Array, pos as int),
                ),
            },
        decreases s.len() - cur,
    {
        if byte_at(src, cur, COMMA) {
            match value_at(text, cur + 1) {
                Ok((item, next)) => {
                    assert(items_view(items@.push(item)) =~= items_view(items@).push(item@));
                    items.push(item);
                    cur = next;
                },
                Err(e) => {
                    return Err(e.within(Production::Array, pos));
                },
            }
        } else if byte_at(src, cur, CLOSE_BRACKET) {
            return Ok((items, cur + 1));
        } else {
            return Err(
                ParseError::new(ErrorKind::TagMismatch, cur).within(Production::Array, pos),
            );
        }
    }
}

/// A key at the byte offset `pos` of `text`, see [`spec_key`].
pub fn key_at(text: &str, pos: usize) -> (r: Result<(String, usize), ParseError>)
    ensures
        match spec_key(text.spec_bytes(), pos as int) {
            Ok((key, n)) => r matches Ok((k, next)) && k@ == key && next == pos + n,
            Err(f) => r matches Err(e) && e@ == f,
        },
        r matches Ok((_, next)) ==> advanced(text.spec_bytes(), pos as int, next as int),
{
    reveal(spec_key);
    let src = text.as_bytes();
    let start = skip_whitespace(src, pos);
    let end = string_at(src, start)?;
    let key = cut(text, start + 1, end - 1).to_owned();
    Ok((key, skip_whitespace(src, end)))
}

/// A member of an object at the byte offset `pos` of `text`, see
/// [`spec_member`].
pub fn member_at(text: &str, pos: usize) -> (r: Result<(String, JsonValue, usize), ParseError>)
    ensures
        match spec_member(text.spec_bytes(), pos as int) {
            Ok((key, v, n)) => r matches Ok((k, got, next)) && k@ == key && got@ == v && next
                == pos + n,
            Err(f) => r matches Err(e) && e@ == f,
        },
        r matches Ok((_, got, next)) ==> got.wf() && advanced(
            text.spec_bytes(),
            pos as int,
            next as int,
        ),
    decreases remaining(text.spec_bytes(), pos as int), 1int,
{
    let src = text.as_bytes();
    let (key, colon) = key_at(text, pos)?;
    if !byte_at(src, colon, COLON) {
        return Err(ParseError::new(ErrorKind::TagMismatch, colon));
    }
    let (v, next) = value_at(text, colon + 1)?;
    Ok((key, v, next))
}

/// An object at the byte offset `pos` of `text`, see [`spec_object`].
pub fn object_at(text: &str, pos: usize) -> (r: Result<
    (Vec<(String, JsonValue)>, usize),
    ParseError,
>)
    ensures
        match spec_object(text.spec_bytes(), pos as int) {
            Ok((map, n)) => r matches Ok((got, next)) && members_map(got@, got@.len() as int)
                == map && next == pos + n,
            Err(f) => r matches Err(e) && e@ == f,
        },
        r matches Ok((got, next)) ==> advanced(text.spec_bytes(), pos as int, next as int)
            && distinct_keys(got@) && members_wf(got@),
    decreases remaining(text.spec_bytes(), pos as int), 2int,
{
    let src = text.as_bytes();
    let ghost s = text.spec_bytes();
    if !byte_at(src, pos, OPEN_BRACE) {
        return Err(ParseError::new(ErrorKind::TagMismatch, pos).within(Production::Object, pos));
    }
    let mut members: Vec<(String, JsonValue)> = Vec::new();
    let mut cur: usize;
    match member_at(text, pos + 1) {
        Ok((key, v, next)) => {
            insert_member(&mut members, key, v);
            cur = next;
        },
        Err(e) => {
            if byte_at(src, pos + 1, CLOSE_BRACE) {
                return Ok((members, pos + 2));
            }
            return Err(
                e.furthest(ParseError::new(ErrorKind::TagMismatch, pos + 1)).within(
                    Production::Object,
                    pos,
                ),
            );
        },
    }
    loop
        invariant
            s == text.spec_bytes(),
            src@ == s,
            pos < cur <= s.len(),
            distinct_keys(members@),
            members_wf(members@),
            match spec_members(s, cur as int, members_map(members@, members@.len() as int)) {
                Ok((all, m)) => spec_object(s, pos as int) == Ok::<
                    (Map<Seq<char>, Json>, nat),
                    Failure,
                >((all, (cur - pos + m) as nat)),
                Err(e) => spec_object(s, pos as int) == Err::<
                    (Map<Seq<char>, Json>, nat),
                    Failure,
                >(e.within(Production::Object, pos as int)),
            },
        decreases s.len() - cur,
    {
        if byte_at(src, cur, COMMA) {
            let ghost before = members_map(members@, members@.len() as int);
            match member_at(text, cur + 1) {
                Ok((key, v, next)) => {
                    let ghost added = before.insert(key@, v@);
                    assert(spec_members(s, cur as int, before) == match spec_members(
                        s,
                        next as int,
                        added,
                    ) {
                        Ok((map, m)) => Ok::<(Map<Seq<char>, Json>, nat), Failure>(
                            (map, (next - cur + m) as nat),
                        ),
                        Err(e) => Err(e),
                    });
                    insert_member(&mut members, key, v);
                    cur = next;
                },
                Err(e) => {
                    return Err(e.within(Production::Object, pos));
                },
            }
        } else if byte_at(src, cur, CLOSE_BRACE) {
            return Ok((members, cur + 1));
        } else {
            return Err(
                ParseError::new(ErrorKind::TagMismatch, cur).within(Production::Object, pos),
            );
        }
    }
}

} // verus!
