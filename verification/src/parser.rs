//! The entry points: each takes the text to read and hands back what it
//! read together with the text that is left.

use crate::bounds::{
    lemma_array_within, lemma_content_within, lemma_escapable_within, lemma_failure_can_be_cut,
    lemma_key_within, lemma_object_within, lemma_parse_hex_within, lemma_root_within,
    lemma_string_within, lemma_value_within, lies_within,
};
use crate::document::{is_content, Doc, Spaced};
use crate::error::{ErrorKind, ParseError};
use crate::grammar::{
    array_at, boolean_at, composite_at, null_at, object_at, scalar_at, spec_array, spec_boolean,
    spec_key, spec_null, spec_object, spec_parse, spec_root, spec_value, value_at,
};
use crate::lexical::{cut, skip_whitespace};
use crate::soundness::{
    is_document, is_written, lemma_array_sound, lemma_object_sound,
    lemma_only_documents_are_read, lemma_parse_reads_the_documents, lemma_string_sound,
    lemma_value_sound, reads_doc, reads_value,
};
use crate::string::{
    escapable_at, hex_at, normal_at, parse_str_at, spec_escapable, spec_normal, spec_parse_hex,
    spec_parse_str, spec_string, string_at,
};
pub use crate::value::JsonValue;
use crate::value::{items_view, members_map, Json};
use vstd::prelude::*;
use vstd::string::StringSliceAdditionalSpecFns;
use vstd::utf8::*;

verus! {

/// Whether `piece` is the text that the bytes `from..to` of `s` encode.
pub open spec fn is_piece(piece: &str, s: Seq<u8>, from: int, to: int) -> bool {
    piece.spec_bytes() == s.subrange(from, to) && piece@ == decode_utf8(s.subrange(from, to))
}

/// Whether `rest` is what `s` holds from the byte offset `from` on.
pub open spec fn is_rest(rest: &str, s: Seq<u8>, from: int) -> bool {
    is_piece(rest, s, from, s.len() as int)
}

/// Reads a run of ordinary characters from the start of `i`: all that
/// stand before the first backslash, quote or control character, or before
/// the end. Hands back the rest of `i` and the run. The run holds at least
/// one character: where `i` starts with none, that is a tag mismatch at
/// the start.
pub fn normal<'a>(i: &'a str) -> (r: Result<(&'a str, &'a str), ParseError>)
    ensures
        match spec_normal(i.spec_bytes(), 0) {
            Ok(n) => r matches Ok((rest, taken)) && is_rest(rest, i.spec_bytes(), n as int)
                && is_piece(taken, i.spec_bytes(), 0, n as int),
            Err(f) => r matches Err(e) && e@ == f,
        },
        r matches Ok((_, taken)) ==> taken.spec_bytes().len() > 0,
        r matches Err(e) ==> lies_within(e@, i.spec_bytes(), 0),
{
    let src = i.as_bytes();
    let end = normal_at(src, 0)?;
    Ok((cut(i, end, src.len()), cut(i, 0, end)))
}

/// Reads an escape token, what may stand behind a backslash, from the
/// start of `i`: one of `"`, `\`, `/`, `b`, `f`, `n`, `r`, `t`, or a
/// unicode escape. Hands back the rest of `i` and the token.
pub fn escapable<'a>(i: &'a str) -> (r: Result<(&'a str, &'a str), ParseError>)
    ensures
        match spec_escapable(i.spec_bytes(), 0) {
            Ok(n) => r matches Ok((rest, taken)) && is_rest(rest, i.spec_bytes(), n as int)
                && is_piece(taken, i.spec_bytes(), 0, n as int),
            Err(f) => r matches Err(e) && e@ == f,
        },
        r matches Err(e) ==> lies_within(e@, i.spec_bytes(), 0),
{
    proof {
        lemma_escapable_within(i.spec_bytes(), 0);
    }
    let src = i.as_bytes();
    let end = escapable_at(src, 0)?;
    Ok((cut(i, end, src.len()), cut(i, 0, end)))
}

/// Reads the five bytes of a unicode escape, `u` and four hexadecimal
/// digits, from the start of `i`. Hands back the rest of `i` and the
/// escape.
pub fn parse_hex<'a>(i: &'a str) -> (r: Result<(&'a str, &'a str), ParseError>)
    ensures
        match spec_parse_hex(i.spec_bytes(), 0) {
            Ok(n) => r matches Ok((rest, taken)) && is_rest(rest, i.spec_bytes(), n as int)
                && is_piece(taken, i.spec_bytes(), 0, n as int),
            Err(f) => r matches Err(e) && e@ == f,
        },
        r matches Err(e) ==> lies_within(e@, i.spec_bytes(), 0),
{
    proof {
        lemma_parse_hex_within(i.spec_bytes(), 0);
    }
    let src = i.as_bytes();
    let end = hex_at(src, 0)?;
    Ok((cut(i, end, src.len()), cut(i, 0, end)))
}

/// Reads string content from the start of `i`: ordinary characters and
/// escape tokens up to the first quote or control character, or to the
/// end. Hands back the rest of `i` and the content, which is not empty
/// unless `i` is.
pub fn parse_str<'a>(i: &'a str) -> (r: Result<(&'a str, &'a str), ParseError>)
    ensures
        match spec_parse_str(i.spec_bytes(), 0) {
            Ok(n) => r matches Ok((rest, taken)) && is_rest(rest, i.spec_bytes(), n as int)
                && is_piece(taken, i.spec_bytes(), 0, n as int),
            Err(f) => r matches Err(e) && e@ == f,
        },
        r matches Err(e) ==> lies_within(e@, i.spec_bytes(), 0),
{
    proof {
        lemma_content_within(i.spec_bytes(), 0);
    }
    let src = i.as_bytes();
    let end = parse_str_at(src, 0)?;
    Ok((cut(i, end, src.len()), cut(i, 0, end)))
}

/// Reads a string literal from the start of `i`. Hands back the rest of
/// `i` and the raw text between the quotes, escapes as they were written.
/// The raw text is such that it may stand between quotes.
pub fn string<'a>(i: &'a str) -> (r: Result<(&'a str, &'a str), ParseError>)
    ensures
        match spec_string(i.spec_bytes(), 0) {
            Ok(n) => r matches Ok((rest, raw)) && is_rest(rest, i.spec_bytes(), n as int)
                && is_piece(raw, i.spec_bytes(), 1, n - 1) && is_content(raw.spec_bytes()),
            Err(f) => r matches Err(e) && e@ == f,
        },
        r matches Err(e) ==> lies_within(e@, i.spec_bytes(), 0),
{
    proof {
        lemma_string_within(i.spec_bytes(), 0);
        if spec_string(i.spec_bytes(), 0) is Ok {
            lemma_string_sound(i.spec_bytes(), 0);
        }
    }
    let src = i.as_bytes();
    let end = string_at(src, 0)?;
    Ok((cut(i, end, src.len()), cut(i, 1, end - 1)))
}

/// Reads `true` or `false` from the start of `i`. Hands back the rest of
/// `i` and the boolean.
pub fn boolean<'a>(i: &'a str) -> (r: Result<(&'a str, bool), ParseError>)
    ensures
        match spec_boolean(i.spec_bytes(), 0) {
            Ok((b, n)) => r matches Ok((rest, got)) && is_rest(rest, i.spec_bytes(), n as int)
                && got == b,
            Err(f) => r matches Err(e) && e@ == f,
        },
        r matches Err(e) ==> lies_within(e@, i.spec_bytes(), 0),
{
    let src = i.as_bytes();
    let (b, end) = boolean_at(src, 0)?;
    Ok((cut(i, end, src.len()), b))
}

/// Reads `null` from the start of `i`. Hands back the rest of `i` and the
/// null value.
pub fn null<'a>(i: &'a str) -> (r: Result<(&'a str, JsonValue), ParseError>)
    ensures
        match spec_null(i.spec_bytes(), 0) {
            Ok(n) => r matches Ok((rest, got)) && is_rest(rest, i.spec_bytes(), n as int)
                && got@ == Json::Null,
            Err(f) => r matches Err(e) && e@ == f,
        },
        r matches Err(e) ==> lies_within(e@, i.spec_bytes(), 0),
{
    let src = i.as_bytes();
    let end = null_at(src, 0)?;
    Ok((cut(i, end, src.len()), JsonValue::Null))
}

/// Reads a key from the start of `i`: a string literal with optional
/// whitespace before and behind it. Hands back the rest of `i` and the
/// raw text between the quotes.
pub fn key<'a>(i: &'a str) -> (r: Result<(&'a str, &'a str), ParseError>)
    ensures
        match spec_key(i.spec_bytes(), 0) {
            Ok((k, n)) => r matches Ok((rest, raw)) && is_rest(rest, i.spec_bytes(), n as int)
                && raw@ == k && is_content(raw.spec_bytes()),
            Err(f) => r matches Err(e) && e@ == f,
        },
        r matches Err(e) ==> lies_within(e@, i.spec_bytes(), 0),
{
    reveal(spec_key);
    let src = i.as_bytes();
    let start = skip_whitespace(src, 0);
    proof {
        lemma_key_within(i.spec_bytes(), 0);
        if spec_string(i.spec_bytes(), start as int) is Ok {
            lemma_string_sound(i.spec_bytes(), start as int);
        }
    }
    let end = string_at(src, start)?;
    let raw = cut(i, start + 1, end - 1);
    let next = skip_whitespace(src, end);
    Ok((cut(i, next, src.len()), raw))
}

/// Reads a value, with the whitespace around it, from the start of `i`.
/// Hands back the rest of `i` and the value. What was taken from `i` is
/// the text of a well-formed value with its whitespace, and the value is
/// what that text means.
pub fn value<'a>(i: &'a str) -> (r: Result<(&'a str, JsonValue), ParseError>)
    ensures
        match spec_value(i.spec_bytes(), 0) {
            Ok((v, n)) => r matches Ok((rest, got)) && is_rest(rest, i.spec_bytes(), n as int)
                && got@ == v && got.wf() && exists|e: Spaced|
                reads_value(i.spec_bytes(), 0, e, v, n),
            Err(f) => r matches Err(e) && e@ == f,
        },
        r matches Err(e) ==> lies_within(e@, i.spec_bytes(), 0),
{
    proof {
        lemma_value_within(i.spec_bytes(), 0);
        if spec_value(i.spec_bytes(), 0) is Ok {
            lemma_value_sound(i.spec_bytes(), 0);
        }
    }
    let (v, end) = value_at(i, 0)?;
    Ok((cut(i, end, i.as_bytes().len()), v))
}

/// Reads an array from the start of `i`. Hands back the rest of `i` and
/// the items. What was taken from `i` is the text of a well-formed array,
/// and the items are what its items mean, in their order.
pub fn array<'a>(i: &'a str) -> (r: Result<(&'a str, Vec<JsonValue>), ParseError>)
    ensures
        match spec_array(i.spec_bytes(), 0) {
            Ok((items, n)) => r matches Ok((rest, got)) && is_rest(rest, i.spec_bytes(), n as int)
                && items_view(got@) == items && JsonValue::Array(got).wf() && exists|d: Doc|
                reads_doc(i.spec_bytes(), 0, d, Json::Array(items), n),
            Err(f) => r matches Err(e) && e@ == f,
        },
        r matches Err(e) ==> lies_within(e@, i.spec_bytes(), 0),
{
    proof {
        lemma_array_within(i.spec_bytes(), 0);
        if spec_array(i.spec_bytes(), 0) is Ok {
            lemma_array_sound(i.spec_bytes(), 0);
        }
    }
    let (items, end) = array_at(i, 0)?;
    Ok((cut(i, end, i.as_bytes().len()), items))
}

/// Reads an object from the start of `i`. Hands back the rest of `i` and
/// the members, each key once. What was taken from `i` is the text of a
/// well-formed object, and the members are the mapping that it means.
pub fn object<'a>(i: &'a str) -> (r: Result<(&'a str, Vec<(String, JsonValue)>), ParseError>)
    ensures
        match spec_object(i.spec_bytes(), 0) {
            Ok((map, n)) => r matches Ok((rest, got)) && is_rest(rest, i.spec_bytes(), n as int)
                && members_map(got@, got@.len() as int) == map && JsonValue::Object(got).wf()
                && exists|d: Doc| reads_doc(i.spec_bytes(), 0, d, Json::Object(map), n),
            Err(f) => r matches Err(e) && e@ == f,
        },
        r matches Err(e) ==> lies_within(e@, i.spec_bytes(), 0),
{
    proof {
        lemma_object_within(i.spec_bytes(), 0);
        if spec_object(i.spec_bytes(), 0) is Ok {
            lemma_object_sound(i.spec_bytes(), 0);
        }
    }
    let (members, end) = object_at(i, 0)?;
    Ok((cut(i, end, i.as_bytes().len()), members))
}

/// Reads a document: the value and the position after it and after the
/// whitespace that follows it.
pub fn document(text: &str) -> (r: Result<(JsonValue, usize), ParseError>)
    ensures
        match spec_root(text.spec_bytes()) {
            Ok((v, n)) => r matches Ok((got, next)) && got@ == v && got.wf() && next == n
                && next <= text.spec_bytes().len() && (next == 0 || text.spec_bytes()[next - 1]
                < 0x80),
            Err(f) => r matches Err(e) && e@ == f,
        },
{
    let src = text.as_bytes();
    let start = skip_whitespace(src, 0);
    match composite_at(text, start) {
        Ok((v, next)) => Ok((v, skip_whitespace(src, next))),
        Err(in_composite) => match scalar_at(text, start) {
            Ok(_) => Err(ParseError::new(ErrorKind::UnexpectedTopLevelScalar, start)),
            Err(_) => Err(in_composite),
        },
    }
}

/// Reads a document from `i`: optional whitespace, an object or an array,
/// optional whitespace. Hands back the rest of `i` and the value.
///
/// A scalar at the top is refused as an unexpected top-level scalar, though
/// it is a value anywhere below. What was taken from `i` is the text of a
/// well-formed document with the whitespace around it, and the value is
/// what that document means.
pub fn root<'a>(i: &'a str) -> (r: Result<(&'a str, JsonValue), ParseError>)
    ensures
        match spec_root(i.spec_bytes()) {
            Ok((v, n)) => r matches Ok((rest, got)) && is_rest(rest, i.spec_bytes(), n as int)
                && got@ == v && got.wf() && exists|lead: Seq<u8>, doc: Doc, trail: Seq<u8>|
                is_document(i.spec_bytes(), lead, doc, trail, v, n),
            Err(f) => r matches Err(e) && e@ == f,
        },
        r matches Err(e) ==> lies_within(e@, i.spec_bytes(), 0) && is_char_boundary(
            i.spec_bytes(),
            e.offset as int,
        ),
{
    proof {
        lemma_root_within(i.spec_bytes());
        match spec_root(i.spec_bytes()) {
            Ok(_) => {
                lemma_only_documents_are_read(i.spec_bytes());
            },
            Err(f) => {
                encode_utf8_valid_utf8(i@);
                lemma_failure_can_be_cut(f, i.spec_bytes(), 0);
            },
        }
    }
    let (v, end) = document(i)?;
    Ok((cut(i, end, i.as_bytes().len()), v))
}

/// Reads a document that fills the whole of `i`. What is left behind the
/// document and its whitespace is refused as trailing input, at the offset
/// where it starts.
///
/// The call succeeds just when `i` is the text of a well-formed object or
/// array with nothing but whitespace around it, and the value is what that
/// document means.
pub fn parse(i: &str) -> (r: Result<JsonValue, ParseError>)
    ensures
        match spec_parse(i.spec_bytes()) {
            Ok(v) => r matches Ok(got) && got@ == v && got.wf(),
            Err(f) => r matches Err(e) && e@ == f,
        },
        match r {
            Ok(got) => exists|lead: Seq<u8>, doc: Doc, trail: Seq<u8>|
                is_written(i.spec_bytes(), lead, doc, trail, got@),
            Err(e) => lies_within(e@, i.spec_bytes(), 0) && is_char_boundary(
                i.spec_bytes(),
                e.offset as int,
            ) && forall|lead: Seq<u8>, doc: Doc, trail: Seq<u8>, v: Json|
                !is_written(i.spec_bytes(), lead, doc, trail, v),
        },
{
    proof {
        let s = i.spec_bytes();
        lemma_root_within(s);
        match spec_parse(s) {
            Ok(v) => {
                lemma_parse_reads_the_documents(s, v);
            },
            Err(f) => {
                assert forall|lead: Seq<u8>, doc: Doc, trail: Seq<u8>, v: Json|
                    !is_written(s, lead, doc, trail, v) by {
                    lemma_parse_reads_the_documents(s, v);
                }
                encode_utf8_valid_utf8(i@);
                lemma_failure_can_be_cut(f, s, 0);
            },
        }
    }
    let (v, end) = document(i)?;
    if end == i.as_bytes().len() {
        Ok(v)
    } else {
        Err(ParseError::new(ErrorKind::TrailingInput, end))
    }
}

} // verus!
