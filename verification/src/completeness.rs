//! Every well-formed document is read, whole, as what it means.

use crate::document::{
    all_space, is_content, items_meaning, items_tail, members_meaning, members_tail, quoted, Doc,
    Member, Spaced,
};
use crate::error::Failure;
use crate::grammar::{
    false_tag, null_tag, spec_array, spec_composite, spec_items, spec_key, spec_member,
    spec_members, spec_object, spec_parse, spec_root, spec_scalar, spec_value, true_tag,
};
use crate::laws::{
    lemma_content_agrees, lemma_content_is_scanned, lemma_digits_len, lemma_digits_run,
    lemma_numeral_is_scanned,
};
use crate::lexical::{
    has_byte, has_literal, is_space, ws_len, CLOSE_BRACE, CLOSE_BRACKET, COLON, COMMA, OPEN_BRACE,
    OPEN_BRACKET, QUOTE,
};
use crate::number::{
    digits_len, exponent_len, fraction_len, is_digit, number_len, sign_len, DOT, LOWER_E, MINUS,
    PLUS, UPPER_E,
};
use crate::string::{empty_literal, raw_text, spec_string};
use crate::value::Json;
use vstd::prelude::*;
use vstd::utf8::*;

verus! {

/// A byte that may stand behind a value and the whitespace that follows
/// it: a comma, a closing bracket or a closing brace.
pub open spec fn is_closer(b: u8) -> bool {
    b == COMMA || b == CLOSE_BRACKET || b == CLOSE_BRACE
}

/// Whether `s` ends at `p` or holds there a byte that cannot go on a
/// numeric literal: no digit, dot, `e`, `E` or sign.
pub open spec fn ends_number(s: Seq<u8>, p: int) -> bool {
    p >= s.len() || (0 <= p && !is_digit(s[p]) && s[p] != DOT && s[p] != LOWER_E && s[p] != UPPER_E
        && s[p] != PLUS && s[p] != MINUS)
}

/// Whether what `s` holds at `p` lets the document `doc` end before it:
/// behind a number nothing may stand that goes on a numeric literal;
/// behind any other document anything may stand.
pub open spec fn doc_ends(s: Seq<u8>, doc: Doc, p: int) -> bool {
    doc is Num ==> ends_number(s, p)
}

/// Whether what `s` holds at `p` lets the value `e` with its whitespace
/// end before it: no whitespace stands there, and behind a number that has
/// no whitespace behind it nothing that goes on a numeric literal.
pub open spec fn value_ends(s: Seq<u8>, e: Spaced, p: int) -> bool {
    &&& p >= s.len() || (0 <= p && !is_space(s[p]))
    &&& e.trail.len() == 0 ==> doc_ends(s, e.doc, p)
}

/// Where `s` holds a text at `i`, it holds each byte of the text.
pub proof fn lemma_literal_byte(s: Seq<u8>, i: int, t: Seq<u8>, k: int)
    requires
        has_literal(s, i, t),
        0 <= k < t.len(),
    ensures
        0 <= i + k < s.len(),
        s[i + k] == t[k],
{
    assert(s.subrange(i, i + t.len())[k] == t[k]);
}

/// `s` holds two texts in a row at `i` just when it holds the first at `i`
/// and the second behind it.
pub proof fn lemma_literal_split(s: Seq<u8>, i: int, a: Seq<u8>, b: Seq<u8>)
    ensures
        has_literal(s, i, a + b) <==> has_literal(s, i, a) && has_literal(s, i + a.len(), b),
{
    let ab = a + b;
    if has_literal(s, i, ab) {
        let x = s.subrange(i, i + a.len());
        assert forall|k: int| 0 <= k < a.len() implies x[k] == a[k] by {
            lemma_literal_byte(s, i, ab, k);
        }
        assert(x =~= a);
        let y = s.subrange(i + a.len(), i + a.len() + b.len());
        assert forall|k: int| 0 <= k < b.len() implies y[k] == b[k] by {
            lemma_literal_byte(s, i, ab, a.len() + k);
        }
        assert(y =~= b);
    }
    if has_literal(s, i, a) && has_literal(s, i + a.len(), b) {
        let z = s.subrange(i, i + ab.len());
        assert forall|k: int| 0 <= k < ab.len() implies z[k] == ab[k] by {
            if k < a.len() {
                lemma_literal_byte(s, i, a, k);
            } else {
                lemma_literal_byte(s, i + a.len(), b, k - a.len());
            }
        }
        assert(z =~= ab);
    }
}

/// `s` holds a text of one byte at `i` just when it holds that byte
/// there.
pub proof fn lemma_literal_one(s: Seq<u8>, i: int, b: u8)
    ensures
        has_literal(s, i, seq![b]) <==> has_byte(s, i, b),
{
    if has_literal(s, i, seq![b]) {
        lemma_literal_byte(s, i, seq![b], 0);
    }
    if has_byte(s, i, b) {
        assert(s.subrange(i, i + 1) =~= seq![b]);
    }
}

/// Whitespace that is followed by something else, or by nothing, is
/// skipped whole.
pub proof fn lemma_ws_block(s: Seq<u8>, i: int, w: Seq<u8>)
    requires
        all_space(w),
        has_literal(s, i, w),
        i + w.len() >= s.len() || !is_space(s[i + w.len()]),
    ensures
        ws_len(s, i) == w.len(),
    decreases w.len(),
{
    if w.len() > 0 {
        lemma_literal_byte(s, i, w, 0);
        let rest = w.subrange(1, w.len() as int);
        assert(w =~= seq![w[0]] + rest);
        lemma_literal_split(s, i, seq![w[0]], rest);
        lemma_ws_block(s, i + 1, rest);
    }
}

/// Where `s` holds the text `t` at `j` and what follows cannot go on a
/// number, a run of digits is in `s` what it is in `t`.
pub proof fn lemma_digits_agree(t: Seq<u8>, s: Seq<u8>, j: int, p: int)
    requires
        0 <= j,
        has_literal(s, j, t),
        ends_number(s, j + t.len()),
        0 <= p <= t.len(),
    ensures
        digits_len(s, j + p) == digits_len(t, p),
        p + digits_len(t, p) <= t.len(),
{
    let n = digits_len(t, p) as int;
    lemma_digits_len(t, p);
    assert forall|q: int| j + p <= q < j + p + n implies is_digit(#[trigger] s[q]) by {
        lemma_literal_byte(s, j, t, q - j);
        assert(is_digit(t[q - j]));
    }
    if p + n < t.len() {
        lemma_literal_byte(s, j, t, p + n);
    }
    lemma_digits_run(s, j + p, n);
}

/// Where `s` holds the text `t` at `j` and what follows cannot go on a
/// number, the bytes that shape a number are in `s` where they are in `t`.
pub proof fn lemma_mark_agrees(t: Seq<u8>, s: Seq<u8>, j: int, p: int, b: u8)
    requires
        0 <= j,
        has_literal(s, j, t),
        ends_number(s, j + t.len()),
        0 <= p <= t.len(),
        b == DOT || b == LOWER_E || b == UPPER_E || b == PLUS || b == MINUS,
    ensures
        has_byte(s, j + p, b) == has_byte(t, p, b),
{
    if p < t.len() {
        lemma_literal_byte(s, j, t, p);
    }
}

/// A numeric literal is read in its place as it is read alone, where what
/// follows it cannot go on a number.
pub proof fn lemma_number_agrees(t: Seq<u8>, s: Seq<u8>, j: int)
    requires
        0 <= j,
        has_literal(s, j, t),
        ends_number(s, j + t.len()),
        t.len() > 0,
        number_len(t, 0) == t.len(),
    ensures
        number_len(s, j) == t.len(),
{
    lemma_mark_agrees(t, s, j, 0, MINUS);
    let sign = sign_len(t, 0, false) as int;
    assert(sign_len(s, j, false) == sign);
    lemma_digits_agree(t, s, j, sign);
    let whole = digits_len(t, sign) as int;
    let after_whole = sign + whole;
    lemma_mark_agrees(t, s, j, after_whole, DOT);
    if has_byte(t, after_whole, DOT) {
        lemma_digits_agree(t, s, j, after_whole + 1);
    }
    assert(fraction_len(s, j + after_whole) == fraction_len(t, after_whole));
    let after_fraction = after_whole + fraction_len(t, after_whole);
    assert(after_fraction <= t.len());
    lemma_mark_agrees(t, s, j, after_fraction, LOWER_E);
    lemma_mark_agrees(t, s, j, after_fraction, UPPER_E);
    if has_byte(t, after_fraction, LOWER_E) || has_byte(t, after_fraction, UPPER_E) {
        lemma_mark_agrees(t, s, j, after_fraction + 1, PLUS);
        lemma_mark_agrees(t, s, j, after_fraction + 1, MINUS);
        let sign2 = sign_len(t, after_fraction + 1, true) as int;
        assert(sign_len(s, j + after_fraction + 1, true) == sign2);
        lemma_digits_agree(t, s, j, after_fraction + 1 + sign2);
    }
    assert(exponent_len(s, j + after_fraction) == exponent_len(t, after_fraction));
}

/// The first byte of a well-formed document tells its kind.
pub proof fn lemma_first_byte(doc: Doc)
    requires
        doc.valid(),
    ensures
        doc.text().len() > 0,
        match doc {
            Doc::Str(_) => doc.text()[0] == QUOTE,
            Doc::Num(_) => doc.text()[0] == MINUS || is_digit(doc.text()[0]),
            Doc::Boolean(b) => doc.text()[0] == (if b {
                0x74u8
            } else {
                0x66u8
            }),
            Doc::Null => doc.text()[0] == 0x6e,
            Doc::Array(_) => doc.text()[0] == OPEN_BRACKET,
            Doc::Object(_) => doc.text()[0] == OPEN_BRACE,
        },
{
    match doc {
        Doc::Num(t) => {
            lemma_numeral_is_scanned(t);
            if !has_byte(t, 0, MINUS) {
                assert(digits_len(t, 0) > 0);
            }
        },
        _ => {},
    }
}

/// Whether a document is a string, a number, a boolean or null.
pub open spec fn is_scalar(doc: Doc) -> bool {
    !(doc is Array) && !(doc is Object)
}

/// A well-formed string literal is read as its raw text.
pub proof fn lemma_string_reads(s: Seq<u8>, j: int, raw: Seq<u8>)
    requires
        0 <= j,
        is_content(raw),
        has_literal(s, j, quoted(raw)),
    ensures
        spec_string(s, j) == Ok::<nat, Failure>(raw.len() + 2),
        raw_text(s, j, raw.len() + 2) == raw,
{
    let n = raw.len() as int;
    lemma_content_is_scanned(raw);
    lemma_literal_split(s, j, seq![QUOTE] + raw, seq![QUOTE]);
    lemma_literal_split(s, j, seq![QUOTE], raw);
    lemma_literal_one(s, j, QUOTE);
    lemma_literal_one(s, j + 1 + n, QUOTE);
    assert(raw_text(s, j, raw.len() + 2) =~= raw);
    if n == 0 {
        assert(s.subrange(j, j + 2) =~= empty_literal());
    } else {
        assert(raw[0] != QUOTE);
        lemma_literal_byte(s, j + 1, raw, 0);
        if has_literal(s, j, empty_literal()) {
            lemma_literal_byte(s, j, empty_literal(), 1);
        }
        assert(raw.subrange(0, n) =~= raw);
        lemma_content_agrees(raw, 0, s, j + 1);
    }
}

/// A well-formed scalar is read as no object and no array, but as the
/// scalar that it is, whatever follows it; only a number must not be
/// followed by what goes on a numeric literal.
pub proof fn lemma_scalar_reads(s: Seq<u8>, j: int, doc: Doc)
    requires
        0 <= j,
        is_scalar(doc),
        doc.valid(),
        has_literal(s, j, doc.text()),
        doc_ends(s, doc, j + doc.text().len()),
    ensures
        spec_composite(s, j) is Err,
        spec_scalar(s, j) == Ok::<(Json, nat), Failure>((doc.meaning(), doc.text().len())),
{
    reveal(spec_scalar);
    let t = doc.text();
    lemma_first_byte(doc);
    lemma_literal_byte(s, j, t, 0);
    match doc {
        Doc::Str(raw) => {
            lemma_string_reads(s, j, raw);
        },
        Doc::Num(text) => {
            lemma_numeral_is_scanned(text);
            lemma_number_agrees(text, s, j);
        },
        Doc::Boolean(b) => {
            assert(digits_len(s, j) == 0);
            if has_literal(s, j, true_tag()) {
                lemma_literal_byte(s, j, true_tag(), 0);
            }
        },
        Doc::Null => {
            assert(digits_len(s, j) == 0);
            if has_literal(s, j, true_tag()) {
                lemma_literal_byte(s, j, true_tag(), 0);
            }
            if has_literal(s, j, false_tag()) {
                lemma_literal_byte(s, j, false_tag(), 0);
            }
        },
        _ => {},
    }
}

/// Where a closer stands, no value and no key does.
pub proof fn lemma_closer_is_no_value(s: Seq<u8>, p: int)
    requires
        0 <= p < s.len(),
        is_closer(s[p]),
    ensures
        spec_value(s, p) is Err,
        spec_key(s, p) is Err,
{
    reveal(spec_scalar);
    reveal(spec_key);
    assert(digits_len(s, p) == 0);
    if has_literal(s, p, empty_literal()) {
        lemma_literal_byte(s, p, empty_literal(), 0);
    }
    if has_literal(s, p, true_tag()) {
        lemma_literal_byte(s, p, true_tag(), 0);
    }
    if has_literal(s, p, false_tag()) {
        lemma_literal_byte(s, p, false_tag(), 0);
    }
    if has_literal(s, p, null_tag()) {
        lemma_literal_byte(s, p, null_tag(), 0);
    }
}

/// What stands in an array behind an item starts with a comma or with the
/// closing bracket.
pub proof fn lemma_items_tail_starts(items: Seq<Spaced>, from: int)
    ensures
        items_tail(items, from).len() > 0,
        is_closer(items_tail(items, from)[0]),
{
}

/// What stands in an object behind a member starts with a comma or with
/// the closing brace.
pub proof fn lemma_members_tail_starts(members: Seq<Member>, from: int)
    ensures
        members_tail(members, from).len() > 0,
        is_closer(members_tail(members, from)[0]),
{
}

/// A well-formed value with its whitespace is read whole as what it
/// means, whatever follows it, as long as that is no further whitespace
/// and does not go on a number that the value ends with.
pub proof fn lemma_value_reads(s: Seq<u8>, i: int, e: Spaced)
    requires
        0 <= i,
        e.valid(),
        has_literal(s, i, e.text()),
        value_ends(s, e, i + e.text().len()),
    ensures
        spec_value(s, i) == Ok::<(Json, nat), Failure>((e.doc.meaning(), e.text().len())),
    decreases e, 0int,
{
    let body = e.doc.text();
    let j = i + e.lead.len();
    let k = j + body.len();
    lemma_literal_split(s, i, e.lead + body, e.trail);
    lemma_literal_split(s, i, e.lead, body);
    lemma_first_byte(e.doc);
    lemma_literal_byte(s, j, body, 0);
    lemma_ws_block(s, i, e.lead);
    lemma_ws_block(s, k, e.trail);
    if e.trail.len() > 0 {
        lemma_literal_byte(s, k, e.trail, 0);
    }
    lemma_doc_reads(s, j, e.doc);
}

/// A well-formed document is read whole as what it means, whatever
/// follows it: an object or an array as such, a scalar as a scalar and as
/// neither of the two. Only a number must not be followed by what goes on
/// a numeric literal.
pub proof fn lemma_doc_reads(s: Seq<u8>, j: int, doc: Doc)
    requires
        0 <= j,
        doc.valid(),
        has_literal(s, j, doc.text()),
        doc_ends(s, doc, j + doc.text().len()),
    ensures
        is_scalar(doc) ==> spec_composite(s, j) is Err && spec_scalar(s, j) == Ok::<
            (Json, nat),
            Failure,
        >((doc.meaning(), doc.text().len())),
        !is_scalar(doc) ==> spec_composite(s, j) == Ok::<(Json, nat), Failure>(
            (doc.meaning(), doc.text().len()),
        ),
    decreases doc, 0int,
{
    let t = doc.text();
    match doc {
        Doc::Array(items) => {
            lemma_literal_byte(s, j, t, 0);
            if items.len() == 0 {
                lemma_literal_byte(s, j, t, 1);
                lemma_closer_is_no_value(s, j + 1);
                assert(items_meaning(items, 0) =~= Seq::empty());
            } else {
                let first = items[0];
                let tail = items_tail(items, 1);
                let q = j + 1 + first.text().len();
                lemma_literal_split(s, j, seq![OPEN_BRACKET] + first.text(), tail);
                lemma_literal_split(s, j, seq![OPEN_BRACKET], first.text());
                lemma_items_tail_starts(items, 1);
                lemma_literal_byte(s, q, tail, 0);
                lemma_value_reads(s, j + 1, first);
                lemma_items_read(s, q, items, 1);
                assert(items_meaning(items, 1) =~= seq![first.doc.meaning()]) by {
                    assert(items_meaning(items, 0) =~= Seq::empty());
                }
            }
        },
        Doc::Object(members) => {
            lemma_literal_byte(s, j, t, 0);
            if members.len() == 0 {
                lemma_literal_byte(s, j, t, 1);
                lemma_closer_is_no_value(s, j + 1);
            } else {
                let first = members[0];
                let tail = members_tail(members, 1);
                let q = j + 1 + first.text().len();
                lemma_literal_split(s, j, seq![OPEN_BRACE] + first.text(), tail);
                lemma_literal_split(s, j, seq![OPEN_BRACE], first.text());
                lemma_members_tail_starts(members, 1);
                lemma_literal_byte(s, q, tail, 0);
                lemma_member_reads(s, j + 1, first);
                lemma_members_read(s, q, members, 1);
                assert(members_meaning(members, 1) =~= Map::empty().insert(
                    decode_utf8(first.key),
                    first.value.doc.meaning(),
                )) by {
                    assert(members_meaning(members, 0) =~= Map::empty());
                }
            }
        },
        _ => {
            lemma_scalar_reads(s, j, doc);
        },
    }
}

/// The rest of a well-formed array, from behind its item `k - 1`, is read
/// to the closing bracket, and the items are those of the array.
pub proof fn lemma_items_read(s: Seq<u8>, q: int, items: Seq<Spaced>, k: int)
    requires
        0 <= q,
        1 <= k <= items.len(),
        forall|n: int| 0 <= n < items.len() ==> (#[trigger] items[n]).valid(),
        has_literal(s, q, items_tail(items, k)),
    ensures
        spec_items(s, q, items_meaning(items, k)) == Ok::<(Seq<Json>, nat), Failure>(
            (items_meaning(items, items.len() as int), items_tail(items, k).len()),
        ),
    decreases items, items.len() - k,
{
    if k < items.len() {
        let e = items[k];
        let tail = items_tail(items, k + 1);
        let next = q + 1 + e.text().len();
        lemma_literal_split(s, q, seq![COMMA] + e.text(), tail);
        lemma_literal_split(s, q, seq![COMMA], e.text());
        lemma_literal_one(s, q, COMMA);
        lemma_items_tail_starts(items, k + 1);
        lemma_literal_byte(s, next, tail, 0);
        lemma_value_reads(s, q + 1, e);
        lemma_items_read(s, next, items, k + 1);
    } else {
        lemma_literal_one(s, q, CLOSE_BRACKET);
    }
}

/// A well-formed member is read whole, its key as the text between the
/// quotes, its value as what it means, whatever follows it, as long as
/// its value may end there.
pub proof fn lemma_member_reads(s: Seq<u8>, p: int, m: Member)
    requires
        0 <= p,
        m.valid(),
        has_literal(s, p, m.text()),
        value_ends(s, m.value, p + m.text().len()),
    ensures
        spec_member(s, p) == Ok::<(Seq<char>, Json, nat), Failure>(
            (decode_utf8(m.key), m.value.doc.meaning(), m.text().len()),
        ),
    decreases m, 0int,
{
    reveal(spec_key);
    let key = quoted(m.key);
    let j = p + m.lead.len();
    let g = j + key.len();
    let colon = g + m.gap.len();
    lemma_literal_split(s, p, m.lead + key + m.gap + seq![COLON], m.value.text());
    lemma_literal_split(s, p, m.lead + key + m.gap, seq![COLON]);
    lemma_literal_split(s, p, m.lead + key, m.gap);
    lemma_literal_split(s, p, m.lead, key);
    lemma_literal_one(s, colon, COLON);
    lemma_literal_byte(s, j, key, 0);
    lemma_ws_block(s, p, m.lead);
    lemma_string_reads(s, j, m.key);
    lemma_ws_block(s, g, m.gap);
    lemma_value_reads(s, colon + 1, m.value);
}

/// The rest of a well-formed object, from behind its member `k - 1`, is
/// read to the closing brace, and the mapping is that of the object.
pub proof fn lemma_members_read(s: Seq<u8>, q: int, members: Seq<Member>, k: int)
    requires
        0 <= q,
        1 <= k <= members.len(),
        forall|n: int| 0 <= n < members.len() ==> (#[trigger] members[n]).valid(),
        has_literal(s, q, members_tail(members, k)),
    ensures
        spec_members(s, q, members_meaning(members, k)) == Ok::<
            (Map<Seq<char>, Json>, nat),
            Failure,
        >((members_meaning(members, members.len() as int), members_tail(members, k).len())),
    decreases members, members.len() - k,
{
    if k < members.len() {
        let m = members[k];
        let tail = members_tail(members, k + 1);
        let next = q + 1 + m.text().len();
        lemma_literal_split(s, q, seq![COMMA] + m.text(), tail);
        lemma_literal_split(s, q, seq![COMMA], m.text());
        lemma_literal_one(s, q, COMMA);
        lemma_members_tail_starts(members, k + 1);
        lemma_literal_byte(s, next, tail, 0);
        lemma_member_reads(s, q + 1, m);
        lemma_members_read(s, next, members, k + 1);
    } else {
        lemma_literal_one(s, q, CLOSE_BRACE);
    }
}

/// Every well-formed document whose value is an object or an array, with
/// any whitespace before and behind it, is read to its last byte, and
/// what is read is what the document means: each array with its items in
/// their order, each object with its members, each scalar as written.
pub proof fn lemma_document_is_read(lead: Seq<u8>, doc: Doc, trail: Seq<u8>)
    requires
        all_space(lead),
        all_space(trail),
        doc.valid(),
        doc is Array || doc is Object,
    ensures
        ({
            let s = lead + doc.text() + trail;
            &&& spec_root(s) == Ok::<(Json, nat), Failure>((doc.meaning(), s.len()))
            &&& spec_parse(s) == Ok::<Json, Failure>(doc.meaning())
        }),
{
    let body = doc.text();
    let s = lead + body + trail;
    let j = lead.len() as int;
    let k = j + body.len();
    assert(s.subrange(0, s.len() as int) =~= s);
    lemma_literal_split(s, 0, lead + body, trail);
    lemma_literal_split(s, 0, lead, body);
    lemma_first_byte(doc);
    lemma_literal_byte(s, j, body, 0);
    lemma_ws_block(s, 0, lead);
    lemma_ws_block(s, k, trail);
    if trail.len() > 0 {
        lemma_literal_byte(s, k, trail, 0);
    }
    lemma_doc_reads(s, j, doc);
}

/// A well-formed array is read as an array whatever follows it: its
/// items are what its written items mean, in their order, and what is
/// taken is its text.
pub proof fn lemma_array_reads(s: Seq<u8>, j: int, items: Seq<Spaced>)
    requires
        0 <= j,
        Doc::Array(items).valid(),
        has_literal(s, j, Doc::Array(items).text()),
    ensures
        spec_array(s, j) == Ok::<(Seq<Json>, nat), Failure>(
            (items_meaning(items, items.len() as int), Doc::Array(items).text().len()),
        ),
{
    let doc = Doc::Array(items);
    lemma_doc_reads(s, j, doc);
    lemma_first_byte(doc);
    lemma_literal_byte(s, j, doc.text(), 0);
}

/// A well-formed object is read as an object whatever follows it: its
/// mapping is that of its written members, and what is taken is its text.
pub proof fn lemma_object_reads(s: Seq<u8>, j: int, members: Seq<Member>)
    requires
        0 <= j,
        Doc::Object(members).valid(),
        has_literal(s, j, Doc::Object(members).text()),
    ensures
        spec_object(s, j) == Ok::<(Map<Seq<char>, Json>, nat), Failure>(
            (
                members_meaning(members, members.len() as int),
                Doc::Object(members).text().len(),
            ),
        ),
{
    let doc = Doc::Object(members);
    lemma_doc_reads(s, j, doc);
}

/// A well-formed value with its whitespace, read alone, is read whole as
/// what it means: so is each item of an array and the value of each member
/// of an object.
pub proof fn lemma_value_reads_alone(e: Spaced)
    requires
        e.valid(),
    ensures
        spec_value(e.text(), 0) == Ok::<(Json, nat), Failure>((e.doc.meaning(), e.text().len())),
{
    let s = e.text();
    assert(s.subrange(0, s.len() as int) =~= s);
    lemma_value_reads(s, 0, e);
}

} // verus!
