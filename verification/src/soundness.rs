//! Only well-formed documents are read: what a parse takes is the text of
//! a document, and what it hands out is what that document means.

use crate::bounds::lemma_number_len_within;
use crate::completeness::{lemma_document_is_read, lemma_literal_split};
use crate::document::{
    all_space, is_content, items_meaning, items_tail, members_meaning, members_tail, quoted, Doc,
    Member, Spaced,
};
use crate::error::Failure;
use crate::grammar::{
    false_tag, spec_array, spec_composite, spec_items, spec_key, spec_member, spec_members,
    spec_object, spec_parse, spec_root, spec_scalar, spec_value, true_tag,
};
use crate::laws::{
    lemma_content_agrees, lemma_content_inside, lemma_content_is_scanned, lemma_digits_len,
    lemma_digits_run, lemma_numeral_is_scanned,
};
use crate::lexical::{
    has_byte, has_literal, is_space, ws_len, CLOSE_BRACE, CLOSE_BRACKET, COLON, COMMA, OPEN_BRACE,
    OPEN_BRACKET,
};
use crate::number::{
    digits_len, exponent_len, fraction_len, is_digit, number_len, sign_len, spec_number, DOT,
};
use crate::string::{empty_literal, raw_text, remaining, spec_content, spec_string};
use crate::value::Json;
use vstd::prelude::*;
use vstd::utf8::*;

verus! {

/// Whitespace that was skipped is whitespace.
pub proof fn lemma_ws_is_space(s: Seq<u8>, i: int)
    requires
        0 <= i <= s.len(),
    ensures
        i + ws_len(s, i) <= s.len(),
        all_space(s.subrange(i, i + ws_len(s, i))),
    decreases s.len() - i,
{
    let w = s.subrange(i, i + ws_len(s, i));
    if i < s.len() && is_space(s[i]) {
        lemma_ws_is_space(s, i + 1);
        let rest = s.subrange(i + 1, i + 1 + ws_len(s, i + 1));
        assert forall|k: int| 0 <= k < w.len() implies is_space(#[trigger] w[k]) by {
            if k > 0 {
                assert(w[k] == rest[k - 1]);
            }
        }
    }
}

/// The text between the quotes of a string literal that was read may
/// stand between quotes, and the literal is that text between quotes.
pub proof fn lemma_string_sound(s: Seq<u8>, j: int)
    requires
        spec_string(s, j) is Ok,
    ensures
        ({
            let n = spec_string(s, j)->Ok_0;
            let raw = raw_text(s, j, n);
            &&& is_content(raw)
            &&& has_literal(s, j, quoted(raw))
            &&& quoted(raw).len() == n
        }),
{
    let n = spec_string(s, j)->Ok_0;
    let raw = raw_text(s, j, n);
    lemma_content_is_scanned(raw);
    if has_literal(s, j, empty_literal()) {
        assert(raw =~= Seq::empty());
        assert(quoted(raw) =~= empty_literal());
    } else {
        let m = (n - 2) as int;
        assert(spec_content(s, j + 1) == Ok::<nat, Failure>(m as nat));
        lemma_content_inside(s, j + 1);
        assert(raw.len() == m);
        assert(s.subrange(j + 1, j + 1 + m) =~= raw.subrange(0, m));
        lemma_content_agrees(s, j + 1, raw, 0);
        assert(s.subrange(j, j + n) =~= quoted(raw));
    }
}

/// A run of digits that ends inside a piece of the input is the same run
/// in the piece alone.
pub proof fn lemma_digits_alone(s: Seq<u8>, j: int, n: int, p: int)
    requires
        0 <= j,
        j + n <= s.len(),
        0 <= p <= n,
        p + digits_len(s, j + p) <= n,
    ensures
        digits_len(s.subrange(j, j + n), p) == digits_len(s, j + p),
{
    let t = s.subrange(j, j + n);
    let d = digits_len(s, j + p) as int;
    lemma_digits_len(s, j + p);
    assert forall|q: int| p <= q < p + d implies is_digit(#[trigger] t[q]) by {
        assert(t[q] == s[j + q]);
    }
    if p + d < n {
        assert(t[p + d] == s[j + p + d]);
    }
    lemma_digits_run(t, p, d);
}

/// A numeric literal that was read is a numeric literal when it stands
/// alone.
pub proof fn lemma_number_alone(s: Seq<u8>, j: int)
    requires
        0 <= j,
        number_len(s, j) > 0,
    ensures
        j + number_len(s, j) <= s.len(),
        number_len(s.subrange(j, j + number_len(s, j)), 0) == number_len(s, j),
{
    let n = number_len(s, j) as int;
    lemma_number_len_within(s, j);
    let t = s.subrange(j, j + n);
    let sign = sign_len(s, j, false) as int;
    let whole = digits_len(s, j + sign) as int;
    let after_whole = sign + whole;
    let fraction = fraction_len(s, j + after_whole) as int;
    let after_fraction = after_whole + fraction;
    let exponent = exponent_len(s, j + after_fraction) as int;
    assert(n == after_fraction + exponent);
    assert(t[0] == s[j]);
    assert(sign_len(t, 0, false) == sign);
    lemma_digits_alone(s, j, n, sign);
    if after_whole < n {
        assert(t[after_whole] == s[j + after_whole]);
    }
    if fraction > 0 {
        lemma_digits_alone(s, j, n, after_whole + 1);
    } else if has_byte(s, j + after_whole, DOT) && after_whole < n {
        lemma_digits_alone(s, j, n, after_whole + 1);
    }
    assert(fraction_len(t, after_whole) == fraction);
    if after_fraction < n {
        assert(t[after_fraction] == s[j + after_fraction]);
        assert(exponent > 0);
        let sign2 = sign_len(s, j + after_fraction + 1, true) as int;
        assert(after_fraction + 1 < n);
        assert(t[after_fraction + 1] == s[j + after_fraction + 1]);
        assert(sign_len(t, after_fraction + 1, true) == sign2);
        lemma_digits_alone(s, j, n, after_fraction + 1 + sign2);
    }
    assert(exponent_len(t, after_fraction) == exponent);
}

/// Whether the bytes that `s` holds from `i` on are the text of the
/// well-formed document `d`, `n` bytes that mean `v`.
pub open spec fn reads_doc(s: Seq<u8>, i: int, d: Doc, v: Json, n: nat) -> bool {
    d.valid() && has_literal(s, i, d.text()) && d.text().len() == n && d.meaning() == v
}

/// Whether the bytes that `s` holds from `i` on are the text of the
/// well-formed value `e` with its whitespace, `n` bytes that mean `v`.
pub open spec fn reads_value(s: Seq<u8>, i: int, e: Spaced, v: Json, n: nat) -> bool {
    e.valid() && has_literal(s, i, e.text()) && e.text().len() == n && e.doc.meaning() == v
}

/// A scalar that was read is a well-formed document.
pub proof fn lemma_scalar_sound(s: Seq<u8>, j: int)
    requires
        0 <= j,
        spec_scalar(s, j) is Ok,
    ensures
        exists|d: Doc|
            reads_doc(s, j, d, spec_scalar(s, j)->Ok_0.0, spec_scalar(s, j)->Ok_0.1),
{
    reveal(spec_scalar);
    let v = spec_scalar(s, j)->Ok_0.0;
    let n = spec_scalar(s, j)->Ok_0.1;
    if spec_string(s, j) is Ok {
        lemma_string_sound(s, j);
        let d = Doc::Str(raw_text(s, j, n));
        assert(reads_doc(s, j, d, v, n));
    } else if spec_number(s, j) is Ok {
        lemma_number_alone(s, j);
        lemma_numeral_is_scanned(s.subrange(j, j + n));
        let d = Doc::Num(s.subrange(j, j + n));
        assert(reads_doc(s, j, d, v, n));
    } else if has_literal(s, j, true_tag()) {
        assert(reads_doc(s, j, Doc::Boolean(true), v, n));
    } else if has_literal(s, j, false_tag()) {
        assert(reads_doc(s, j, Doc::Boolean(false), v, n));
    } else {
        assert(reads_doc(s, j, Doc::Null, v, n));
    }
}

/// Whether the bytes that `s` holds from `i` on are what stands in an
/// array behind an item, with `rest` as the items that are left: `n`
/// bytes, which add the values of `rest` to those that were `before`.
pub open spec fn reads_items(
    s: Seq<u8>,
    i: int,
    rest: Seq<Spaced>,
    before: Seq<Json>,
    all: Seq<Json>,
    n: nat,
) -> bool {
    &&& forall|k: int| 0 <= k < rest.len() ==> (#[trigger] rest[k]).valid()
    &&& has_literal(s, i, items_tail(rest, 0))
    &&& items_tail(rest, 0).len() == n
    &&& all == before + items_meaning(rest, rest.len() as int)
}

/// Whether the bytes that `s` holds from `i` on are the text of the
/// well-formed member `m`, `n` bytes with the key `key` and a value that
/// means `v`.
pub open spec fn reads_member(
    s: Seq<u8>,
    i: int,
    m: Member,
    key: Seq<char>,
    v: Json,
    n: nat,
) -> bool {
    &&& m.valid()
    &&& has_literal(s, i, m.text())
    &&& m.text().len() == n
    &&& decode_utf8(m.key) == key
    &&& m.value.doc.meaning() == v
}

/// The mapping that is made by writing the first `n` of `members`, each
/// in turn, into `before`.
pub open spec fn members_onto(before: Map<Seq<char>, Json>, members: Seq<Member>, n: int) -> Map<
    Seq<char>,
    Json,
>
    decreases n,
{
    if 0 < n <= members.len() {
        members_onto(before, members, n - 1).insert(
            decode_utf8(members[n - 1].key),
            members[n - 1].value.doc.meaning(),
        )
    } else {
        before
    }
}

/// Whether the bytes that `s` holds from `i` on are what stands in an
/// object behind a member, with `rest` as the members that are left: `n`
/// bytes, which write the members of `rest` into the mapping `before`.
pub open spec fn reads_members(
    s: Seq<u8>,
    i: int,
    rest: Seq<Member>,
    before: Map<Seq<char>, Json>,
    all: Map<Seq<char>, Json>,
    n: nat,
) -> bool {
    &&& forall|k: int| 0 <= k < rest.len() ==> (#[trigger] rest[k]).valid()
    &&& has_literal(s, i, members_tail(rest, 0))
    &&& members_tail(rest, 0).len() == n
    &&& all == members_onto(before, rest, rest.len() as int)
}

/// What stands behind the items of a list stands behind them in a list
/// that has one more item in front.
pub proof fn lemma_items_tail_shift(e: Spaced, rest: Seq<Spaced>, k: int)
    requires
        0 <= k,
    ensures
        items_tail(seq![e] + rest, k + 1) == items_tail(rest, k),
    decreases rest.len() - k,
{
    let all = seq![e] + rest;
    if k < rest.len() {
        assert(all[k + 1] == rest[k]);
        lemma_items_tail_shift(e, rest, k + 1);
    }
}

/// The values of a list with one more item in front are the value of that
/// item and the values of the list.
pub proof fn lemma_items_meaning_shift(e: Spaced, rest: Seq<Spaced>, n: int)
    requires
        0 <= n <= rest.len(),
    ensures
        items_meaning(seq![e] + rest, n + 1) == seq![e.doc.meaning()] + items_meaning(rest, n),
    decreases n,
{
    let all = seq![e] + rest;
    if n > 0 {
        assert(all[n] == rest[n - 1]);
        lemma_items_meaning_shift(e, rest, n - 1);
        assert(items_meaning(all, n + 1) =~= seq![e.doc.meaning()] + items_meaning(rest, n));
    } else {
        assert(all[0] == e);
        assert(items_meaning(all, 0) =~= Seq::empty());
        assert(items_meaning(all, 1) =~= seq![e.doc.meaning()] + items_meaning(rest, 0));
    }
}

/// What stands behind the members of a list stands behind them in a list
/// that has one more member in front.
pub proof fn lemma_members_tail_shift(m: Member, rest: Seq<Member>, k: int)
    requires
        0 <= k,
    ensures
        members_tail(seq![m] + rest, k + 1) == members_tail(rest, k),
    decreases rest.len() - k,
{
    let all = seq![m] + rest;
    if k < rest.len() {
        assert(all[k + 1] == rest[k]);
        lemma_members_tail_shift(m, rest, k + 1);
    }
}

/// The mapping of a list with one more member in front is made by
/// writing the list into the mapping of that member.
pub proof fn lemma_members_meaning_shift(m: Member, rest: Seq<Member>, n: int)
    requires
        0 <= n <= rest.len(),
    ensures
        members_meaning(seq![m] + rest, n + 1) == members_onto(
            Map::empty().insert(decode_utf8(m.key), m.value.doc.meaning()),
            rest,
            n,
        ),
    decreases n,
{
    let all = seq![m] + rest;
    if n > 0 {
        assert(all[n] == rest[n - 1]);
        lemma_members_meaning_shift(m, rest, n - 1);
    } else {
        assert(all[0] == m);
        assert(members_meaning(all, 0) =~= Map::empty());
    }
}

/// Writing a list with one more member in front into a mapping is
/// writing the list into the mapping that holds that member already.
pub proof fn lemma_members_onto_shift(
    before: Map<Seq<char>, Json>,
    m: Member,
    rest: Seq<Member>,
    n: int,
)
    requires
        0 <= n <= rest.len(),
    ensures
        members_onto(before, seq![m] + rest, n + 1) == members_onto(
            before.insert(decode_utf8(m.key), m.value.doc.meaning()),
            rest,
            n,
        ),
    decreases n,
{
    let all = seq![m] + rest;
    if n > 0 {
        assert(all[n] == rest[n - 1]);
        lemma_members_onto_shift(before, m, rest, n - 1);
    } else {
        assert(all[0] == m);
        assert(members_onto(before, all, 0) == before);
    }
}

/// A value that was read is a well-formed value with its whitespace.
pub proof fn lemma_value_sound(s: Seq<u8>, i: int)
    requires
        0 <= i <= s.len(),
        spec_value(s, i) is Ok,
    ensures
        exists|e: Spaced| reads_value(s, i, e, spec_value(s, i)->Ok_0.0, spec_value(s, i)->Ok_0.1),
    decreases remaining(s, i), 4int,
{
    let v = spec_value(s, i)->Ok_0.0;
    let n = spec_value(s, i)->Ok_0.1;
    lemma_ws_is_space(s, i);
    let j = i + ws_len(s, i);
    let lead = s.subrange(i, j);
    let inner = if spec_composite(s, j) is Ok {
        spec_composite(s, j)->Ok_0.1
    } else {
        spec_scalar(s, j)->Ok_0.1
    };
    if spec_composite(s, j) is Ok {
        lemma_composite_sound(s, j);
    } else {
        lemma_scalar_sound(s, j);
    }
    let d = choose|d: Doc| reads_doc(s, j, d, v, inner);
    let k = j + inner;
    lemma_ws_is_space(s, k);
    let trail = s.subrange(k, k + ws_len(s, k));
    let e = Spaced { lead, doc: d, trail };
    lemma_literal_split(s, i, lead, d.text());
    lemma_literal_split(s, i, lead + d.text(), trail);
    assert(reads_value(s, i, e, v, n));
}

/// An object or an array that was read is a well-formed document, and an
/// object or an array.
pub proof fn lemma_composite_sound(s: Seq<u8>, i: int)
    requires
        0 <= i <= s.len(),
        spec_composite(s, i) is Ok,
    ensures
        exists|d: Doc|
            reads_doc(s, i, d, spec_composite(s, i)->Ok_0.0, spec_composite(s, i)->Ok_0.1),
        forall|d: Doc|
            reads_doc(s, i, d, spec_composite(s, i)->Ok_0.0, spec_composite(s, i)->Ok_0.1)
                ==> d is Array || d is Object,
    decreases remaining(s, i), 3int,
{
    let v = spec_composite(s, i)->Ok_0.0;
    let n = spec_composite(s, i)->Ok_0.1;
    if spec_object(s, i) is Ok {
        lemma_object_sound(s, i);
    } else {
        lemma_array_sound(s, i);
    }
}

/// An array that was read is a well-formed array.
pub proof fn lemma_array_sound(s: Seq<u8>, i: int)
    requires
        0 <= i <= s.len(),
        spec_array(s, i) is Ok,
    ensures
        exists|d: Doc|
            reads_doc(
                s,
                i,
                d,
                Json::Array(spec_array(s, i)->Ok_0.0),
                spec_array(s, i)->Ok_0.1,
            ),
    decreases remaining(s, i), 2int,
{
    let items = spec_array(s, i)->Ok_0.0;
    let n = spec_array(s, i)->Ok_0.1;
    match spec_value(s, i + 1) {
        Ok((first, n1)) => {
            let q = i + 1 + n1;
            lemma_value_sound(s, i + 1);
            let p = i + 1;
            let e = choose|e: Spaced| reads_value(s, p, e, first, n1);
            lemma_items_sound(s, q, seq![first]);
            let m = spec_items(s, q, seq![first])->Ok_0.1;
            let rest = choose|rest: Seq<Spaced>| reads_items(s, q, rest, seq![first], items, m);
            let all = seq![e] + rest;
            let d = Doc::Array(all);
            assert(all[0] == e);
            assert forall|k: int| 0 <= k < all.len() implies (#[trigger] all[k]).valid() by {
                if k > 0 {
                    assert(all[k] == rest[k - 1]);
                }
            }
            lemma_items_tail_shift(e, rest, 0);
            lemma_items_meaning_shift(e, rest, rest.len() as int);
            assert(s.subrange(i, i + 1) =~= seq![OPEN_BRACKET]);
            lemma_literal_split(s, i, seq![OPEN_BRACKET], e.text());
            lemma_literal_split(s, i, seq![OPEN_BRACKET] + e.text(), items_tail(rest, 0));
            assert(reads_doc(s, i, d, Json::Array(items), n));
        },
        Err(_) => {
            let d = Doc::Array(Seq::empty());
            assert(s.subrange(i, i + 2) =~= seq![OPEN_BRACKET, CLOSE_BRACKET]);
            assert(items_meaning(Seq::<Spaced>::empty(), 0) =~= items);
            assert(reads_doc(s, i, d, Json::Array(items), n));
        },
    }
}

/// The rest of an array that was read is made of well-formed items.
pub proof fn lemma_items_sound(s: Seq<u8>, i: int, before: Seq<Json>)
    requires
        0 <= i <= s.len(),
        spec_items(s, i, before) is Ok,
    ensures
        exists|rest: Seq<Spaced>|
            reads_items(
                s,
                i,
                rest,
                before,
                spec_items(s, i, before)->Ok_0.0,
                spec_items(s, i, before)->Ok_0.1,
            ),
    decreases remaining(s, i), 1int,
{
    let all = spec_items(s, i, before)->Ok_0.0;
    let n = spec_items(s, i, before)->Ok_0.1;
    if has_byte(s, i, COMMA) {
        let item = spec_value(s, i + 1)->Ok_0.0;
        let n1 = spec_value(s, i + 1)->Ok_0.1;
        let q = i + 1 + n1;
        lemma_value_sound(s, i + 1);
        let p = i + 1;
        let e = choose|e: Spaced| reads_value(s, p, e, item, n1);
        lemma_items_sound(s, q, before.push(item));
        let m = spec_items(s, q, before.push(item))->Ok_0.1;
        let later = choose|later: Seq<Spaced>|
            reads_items(s, q, later, before.push(item), all, m);
        let rest = seq![e] + later;
        assert(rest[0] == e);
        assert forall|k: int| 0 <= k < rest.len() implies (#[trigger] rest[k]).valid() by {
            if k > 0 {
                assert(rest[k] == later[k - 1]);
            }
        }
        lemma_items_tail_shift(e, later, 0);
        lemma_items_meaning_shift(e, later, later.len() as int);
        assert(s.subrange(i, i + 1) =~= seq![COMMA]);
        lemma_literal_split(s, i, seq![COMMA], e.text());
        lemma_literal_split(s, i, seq![COMMA] + e.text(), items_tail(later, 0));
        assert(all =~= before + items_meaning(rest, rest.len() as int));
        assert(reads_items(s, i, rest, before, all, n));
    } else {
        let rest = Seq::<Spaced>::empty();
        assert(s.subrange(i, i + 1) =~= seq![CLOSE_BRACKET]);
        assert(all =~= before + items_meaning(rest, 0));
        assert(reads_items(s, i, rest, before, all, n));
    }
}

/// A member that was read is a well-formed member.
pub proof fn lemma_member_sound(s: Seq<u8>, i: int)
    requires
        0 <= i <= s.len(),
        spec_member(s, i) is Ok,
    ensures
        exists|m: Member|
            reads_member(
                s,
                i,
                m,
                spec_member(s, i)->Ok_0.0,
                spec_member(s, i)->Ok_0.1,
                spec_member(s, i)->Ok_0.2,
            ),
    decreases remaining(s, i), 1int,
{
    reveal(spec_key);
    let key = spec_member(s, i)->Ok_0.0;
    let v = spec_member(s, i)->Ok_0.1;
    let n = spec_member(s, i)->Ok_0.2;
    lemma_ws_is_space(s, i);
    let j = i + ws_len(s, i);
    let lead = s.subrange(i, j);
    let n1 = spec_string(s, j)->Ok_0;
    lemma_string_sound(s, j);
    let raw = raw_text(s, j, n1);
    let g = j + n1;
    lemma_ws_is_space(s, g);
    let colon = g + ws_len(s, g);
    let gap = s.subrange(g, colon);
    let n2 = spec_value(s, colon + 1)->Ok_0.1;
    lemma_value_sound(s, colon + 1);
    let p = colon + 1;
    let e = choose|e: Spaced| reads_value(s, p, e, v, n2);
    let m = Member { lead, key: raw, gap, value: e };
    assert(s.subrange(colon, colon + 1) =~= seq![COLON]);
    lemma_literal_split(s, i, lead, quoted(raw));
    lemma_literal_split(s, i, lead + quoted(raw), gap);
    lemma_literal_split(s, i, lead + quoted(raw) + gap, seq![COLON]);
    lemma_literal_split(s, i, lead + quoted(raw) + gap + seq![COLON], e.text());
    assert(reads_member(s, i, m, key, v, n));
}

/// An object that was read is a well-formed object.
pub proof fn lemma_object_sound(s: Seq<u8>, i: int)
    requires
        0 <= i <= s.len(),
        spec_object(s, i) is Ok,
    ensures
        exists|d: Doc|
            reads_doc(
                s,
                i,
                d,
                Json::Object(spec_object(s, i)->Ok_0.0),
                spec_object(s, i)->Ok_0.1,
            ),
    decreases remaining(s, i), 2int,
{
    let map = spec_object(s, i)->Ok_0.0;
    let n = spec_object(s, i)->Ok_0.1;
    match spec_member(s, i + 1) {
        Ok((key, v, n1)) => {
            let q = i + 1 + n1;
            let first = Map::empty().insert(key, v);
            lemma_member_sound(s, i + 1);
            let p = i + 1;
            let m = choose|m: Member| reads_member(s, p, m, key, v, n1);
            lemma_members_sound(s, q, first);
            let n2 = spec_members(s, q, first)->Ok_0.1;
            let rest = choose|rest: Seq<Member>| reads_members(s, q, rest, first, map, n2);
            let all = seq![m] + rest;
            let d = Doc::Object(all);
            assert(all[0] == m);
            assert forall|k: int| 0 <= k < all.len() implies (#[trigger] all[k]).valid() by {
                if k > 0 {
                    assert(all[k] == rest[k - 1]);
                }
            }
            lemma_members_tail_shift(m, rest, 0);
            lemma_members_meaning_shift(m, rest, rest.len() as int);
            assert(s.subrange(i, i + 1) =~= seq![OPEN_BRACE]);
            lemma_literal_split(s, i, seq![OPEN_BRACE], m.text());
            lemma_literal_split(s, i, seq![OPEN_BRACE] + m.text(), members_tail(rest, 0));
            assert(reads_doc(s, i, d, Json::Object(map), n));
        },
        Err(_) => {
            let d = Doc::Object(Seq::empty());
            assert(s.subrange(i, i + 2) =~= seq![OPEN_BRACE, CLOSE_BRACE]);
            assert(members_meaning(Seq::<Member>::empty(), 0) =~= map);
            assert(reads_doc(s, i, d, Json::Object(map), n));
        },
    }
}

/// The rest of an object that was read is made of well-formed members.
pub proof fn lemma_members_sound(s: Seq<u8>, i: int, before: Map<Seq<char>, Json>)
    requires
        0 <= i <= s.len(),
        spec_members(s, i, before) is Ok,
    ensures
        exists|rest: Seq<Member>|
            reads_members(
                s,
                i,
                rest,
                before,
                spec_members(s, i, before)->Ok_0.0,
                spec_members(s, i, before)->Ok_0.1,
            ),
    decreases remaining(s, i), 0int,
{
    let all = spec_members(s, i, before)->Ok_0.0;
    let n = spec_members(s, i, before)->Ok_0.1;
    if has_byte(s, i, COMMA) {
        let key = spec_member(s, i + 1)->Ok_0.0;
        let v = spec_member(s, i + 1)->Ok_0.1;
        let n1 = spec_member(s, i + 1)->Ok_0.2;
        let q = i + 1 + n1;
        lemma_member_sound(s, i + 1);
        let p = i + 1;
        let m = choose|m: Member| reads_member(s, p, m, key, v, n1);
        lemma_members_sound(s, q, before.insert(key, v));
        let n2 = spec_members(s, q, before.insert(key, v))->Ok_0.1;
        let later = choose|later: Seq<Member>|
            reads_members(s, q, later, before.insert(key, v), all, n2);
        let rest = seq![m] + later;
        assert(rest[0] == m);
        assert forall|k: int| 0 <= k < rest.len() implies (#[trigger] rest[k]).valid() by {
            if k > 0 {
                assert(rest[k] == later[k - 1]);
            }
        }
        lemma_members_tail_shift(m, later, 0);
        lemma_members_onto_shift(before, m, later, later.len() as int);
        assert(s.subrange(i, i + 1) =~= seq![COMMA]);
        lemma_literal_split(s, i, seq![COMMA], m.text());
        lemma_literal_split(s, i, seq![COMMA] + m.text(), members_tail(later, 0));
        assert(reads_members(s, i, rest, before, all, n));
    } else {
        let rest = Seq::<Member>::empty();
        assert(s.subrange(i, i + 1) =~= seq![CLOSE_BRACE]);
        assert(reads_members(s, i, rest, before, all, n));
    }
}

/// Whether the first `n` bytes of `s` are the text of the well-formed
/// document `doc`, an object or an array that means `v`, with the
/// whitespace `lead` before it and `trail` behind it.
pub open spec fn is_document(
    s: Seq<u8>,
    lead: Seq<u8>,
    doc: Doc,
    trail: Seq<u8>,
    v: Json,
    n: nat,
) -> bool {
    &&& all_space(lead)
    &&& all_space(trail)
    &&& doc.valid()
    &&& doc is Array || doc is Object
    &&& has_literal(s, 0, lead + doc.text() + trail)
    &&& (lead + doc.text() + trail).len() == n
    &&& doc.meaning() == v
}

/// Whatever is read as a document is one: the bytes that were taken are
/// whitespace, the text of a well-formed object or array, and whitespace,
/// and the value that was handed out is what that object or array means.
pub proof fn lemma_only_documents_are_read(s: Seq<u8>)
    requires
        spec_root(s) is Ok,
    ensures
        exists|lead: Seq<u8>, doc: Doc, trail: Seq<u8>|
            is_document(s, lead, doc, trail, spec_root(s)->Ok_0.0, spec_root(s)->Ok_0.1),
{
    let v = spec_root(s)->Ok_0.0;
    let n = spec_root(s)->Ok_0.1;
    lemma_ws_is_space(s, 0);
    let j = ws_len(s, 0) as int;
    let lead = s.subrange(0, j);
    let inner = spec_composite(s, j)->Ok_0.1;
    lemma_composite_sound(s, j);
    let d = choose|d: Doc| reads_doc(s, j, d, v, inner);
    let k = j + inner;
    lemma_ws_is_space(s, k);
    let trail = s.subrange(k, k + ws_len(s, k));
    lemma_literal_split(s, 0, lead, d.text());
    lemma_literal_split(s, 0, lead + d.text(), trail);
    assert(is_document(s, lead, d, trail, v, n));
}

/// Whether `s` is, from its first byte to its last, the text of the
/// well-formed document `doc`, an object or an array that means `v`, with
/// the whitespace `lead` before it and `trail` behind it.
pub open spec fn is_written(s: Seq<u8>, lead: Seq<u8>, doc: Doc, trail: Seq<u8>, v: Json) -> bool {
    &&& all_space(lead)
    &&& all_space(trail)
    &&& doc.valid()
    &&& doc is Array || doc is Object
    &&& s == lead + doc.text() + trail
    &&& doc.meaning() == v
}

/// An input is read whole as the value `v` just when it is the text of a
/// well-formed object or array that means `v`, with nothing but
/// whitespace around it.
pub proof fn lemma_parse_reads_the_documents(s: Seq<u8>, v: Json)
    ensures
        spec_parse(s) == Ok::<Json, Failure>(v) <==> exists|
            lead: Seq<u8>,
            doc: Doc,
            trail: Seq<u8>,
        |
            is_written(s, lead, doc, trail, v),
{
    if spec_parse(s) == Ok::<Json, Failure>(v) {
        lemma_only_documents_are_read(s);
        let n = spec_root(s)->Ok_0.1;
        let (lead, doc, trail) = choose|lead: Seq<u8>, doc: Doc, trail: Seq<u8>|
            is_document(s, lead, doc, trail, v, n);
        assert(s.subrange(0, s.len() as int) =~= s);
        assert(is_written(s, lead, doc, trail, v));
    }
    if exists|lead: Seq<u8>, doc: Doc, trail: Seq<u8>| is_written(s, lead, doc, trail, v) {
        let (lead, doc, trail) = choose|lead: Seq<u8>, doc: Doc, trail: Seq<u8>|
            is_written(s, lead, doc, trail, v);
        lemma_document_is_read(lead, doc, trail);
    }
}

} // verus!
