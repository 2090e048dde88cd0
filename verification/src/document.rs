//! Documents as they are written: the grammar seen from the writer's
//! side. A [`Doc`] holds every choice that a writer has, the whitespace
//! included, so that each document has one text and one meaning.

use crate::grammar::{false_tag, null_tag, true_tag};
use crate::lexical::{
    is_space, BACKSLASH, CLOSE_BRACE, CLOSE_BRACKET, COLON, COMMA, OPEN_BRACE, OPEN_BRACKET,
    QUOTE,
};
use crate::number::{accepted, double_of, is_digit, DOT, LOWER_E, MINUS, PLUS, UPPER_E};
use crate::string::{is_hex_digit, is_simple_escape, is_stop, LOWER_U};
use crate::value::Json;
use vstd::prelude::*;
use vstd::utf8::*;

verus! {

/// A value as it is written.
pub enum Doc {
    /// A string literal with this raw text between its quotes.
    Str(Seq<u8>),
    /// A numeric literal with this text.
    Num(Seq<u8>),
    Boolean(bool),
    Null,
    /// An array of these items.
    Array(Seq<Spaced>),
    /// An object of these members.
    Object(Seq<Member>),
}

/// A value with the whitespace before and behind it.
pub struct Spaced {
    pub lead: Seq<u8>,
    pub doc: Doc,
    pub trail: Seq<u8>,
}

/// A member of an object: whitespace, the raw text of the key, whitespace,
/// then, behind the colon, the value.
pub struct Member {
    pub lead: Seq<u8>,
    pub key: Seq<u8>,
    pub gap: Seq<u8>,
    pub value: Spaced,
}

/// Whether `w` holds nothing but whitespace.
pub open spec fn all_space(w: Seq<u8>) -> bool {
    forall|k: int| 0 <= k < w.len() ==> is_space(#[trigger] w[k])
}

/// Whether `raw` may stand between the quotes of a string literal: each
/// of its bytes is an ordinary byte, or belongs to an escape, which is a
/// backslash and a simple escape, or a backslash, `u` and four hexadecimal
/// digits.
pub open spec fn is_content(raw: Seq<u8>) -> bool
    decreases raw.len(),
{
    if raw.len() == 0 {
        true
    } else if raw[0] != BACKSLASH {
        !is_stop(raw[0]) && is_content(raw.skip(1))
    } else if raw.len() >= 2 && is_simple_escape(raw[1]) {
        is_content(raw.skip(2))
    } else {
        &&& raw.len() >= 6
        &&& raw[1] == LOWER_U
        &&& is_hex_digit(raw[2])
        &&& is_hex_digit(raw[3])
        &&& is_hex_digit(raw[4])
        &&& is_hex_digit(raw[5])
        &&& is_content(raw.skip(6))
    }
}

/// Whether `t` is one or more decimal digits.
pub open spec fn is_digits(t: Seq<u8>) -> bool {
    t.len() > 0 && forall|k: int| 0 <= k < t.len() ==> is_digit(#[trigger] t[k])
}

/// Whether `t` is a fraction: a dot and digits.
pub open spec fn is_fraction(t: Seq<u8>) -> bool {
    t.len() >= 2 && t[0] == DOT && is_digits(t.skip(1))
}

/// Whether `t` is an exponent: `e` or `E`, an optional sign, and digits.
pub open spec fn is_exponent(t: Seq<u8>) -> bool {
    &&& t.len() >= 2
    &&& t[0] == LOWER_E || t[0] == UPPER_E
    &&& is_digits(t.skip(1)) || ((t[1] == PLUS || t[1] == MINUS) && is_digits(t.skip(2)))
}

/// Whether `t` is a numeric literal whose digits start at `a`, whose
/// fraction, if it has one, starts at `b`, and whose exponent, if it has
/// one, starts at `c`: an optional minus, digits, an optional fraction and
/// an optional exponent.
pub open spec fn is_numeral_at(t: Seq<u8>, a: int, b: int, c: int) -> bool {
    &&& 0 <= a < b <= c <= t.len()
    &&& a == 0 || (a == 1 && t[0] == MINUS)
    &&& is_digits(t.subrange(a, b))
    &&& b == c || is_fraction(t.subrange(b, c))
    &&& c == t.len() || is_exponent(t.subrange(c, t.len() as int))
}

/// Whether `t` is a numeric literal: an optional minus, digits, an
/// optional fraction and an optional exponent.
pub open spec fn is_numeral(t: Seq<u8>) -> bool {
    exists|a: int, b: int, c: int| is_numeral_at(t, a, b, c)
}

/// Whether `t` is a numeric literal of a finite double.
pub open spec fn is_number(t: Seq<u8>) -> bool {
    is_numeral(t) && accepted(double_of(decode_utf8(t))) is Some
}

/// The text of a string literal with the raw text `raw`.
pub open spec fn quoted(raw: Seq<u8>) -> Seq<u8> {
    seq![QUOTE] + raw + seq![QUOTE]
}

impl Doc {
    /// Whether the document is well formed.
    pub open spec fn valid(self) -> bool
        decreases self, 0int,
    {
        match self {
            Doc::Str(raw) => is_content(raw),
            Doc::Num(t) => is_number(t),
            Doc::Boolean(_) => true,
            Doc::Null => true,
            Doc::Array(items) => forall|k: int|
                0 <= k < items.len() ==> (#[trigger] items[k]).valid(),
            Doc::Object(members) => forall|k: int|
                0 <= k < members.len() ==> (#[trigger] members[k]).valid(),
        }
    }

    /// The text of the document.
    pub open spec fn text(self) -> Seq<u8>
        decreases self, 0int,
    {
        match self {
            Doc::Str(raw) => quoted(raw),
            Doc::Num(t) => t,
            Doc::Boolean(b) => if b {
                true_tag()
            } else {
                false_tag()
            },
            Doc::Null => null_tag(),
            Doc::Array(items) => if items.len() == 0 {
                seq![OPEN_BRACKET, CLOSE_BRACKET]
            } else {
                seq![OPEN_BRACKET] + items[0].text() + items_tail(items, 1)
            },
            Doc::Object(members) => if members.len() == 0 {
                seq![OPEN_BRACE, CLOSE_BRACE]
            } else {
                seq![OPEN_BRACE] + members[0].text() + members_tail(members, 1)
            },
        }
    }

    /// The value that the document stands for.
    pub open spec fn meaning(self) -> Json
        decreases self, 0int,
    {
        match self {
            Doc::Str(raw) => Json::Str(decode_utf8(raw)),
            Doc::Num(t) => Json::Num(accepted(double_of(decode_utf8(t)))->Some_0),
            Doc::Boolean(b) => Json::Boolean(b),
            Doc::Null => Json::Null,
            Doc::Array(items) => Json::Array(items_meaning(items, items.len() as int)),
            Doc::Object(members) => Json::Object(members_meaning(members, members.len() as int)),
        }
    }
}

impl Spaced {
    pub open spec fn valid(self) -> bool
        decreases self, 0int,
    {
        all_space(self.lead) && self.doc.valid() && all_space(self.trail)
    }

    pub open spec fn text(self) -> Seq<u8>
        decreases self, 0int,
    {
        self.lead + self.doc.text() + self.trail
    }
}

impl Member {
    pub open spec fn valid(self) -> bool
        decreases self, 0int,
    {
        all_space(self.lead) && is_content(self.key) && all_space(self.gap) && self.value.valid()
    }

    pub open spec fn text(self) -> Seq<u8>
        decreases self, 0int,
    {
        self.lead + quoted(self.key) + self.gap + seq![COLON] + self.value.text()
    }
}

/// What stands in an array behind its item `from - 1`: a comma and an item
/// for each item that is left, then the closing bracket.
pub open spec fn items_tail(items: Seq<Spaced>, from: int) -> Seq<u8>
    decreases items, items.len() - from,
{
    if 0 <= from < items.len() {
        seq![COMMA] + items[from].text() + items_tail(items, from + 1)
    } else {
        seq![CLOSE_BRACKET]
    }
}

/// What stands in an object behind its member `from - 1`.
pub open spec fn members_tail(members: Seq<Member>, from: int) -> Seq<u8>
    decreases members, members.len() - from,
{
    if 0 <= from < members.len() {
        seq![COMMA] + members[from].text() + members_tail(members, from + 1)
    } else {
        seq![CLOSE_BRACE]
    }
}

/// The values of the first `n` items of an array.
pub open spec fn items_meaning(items: Seq<Spaced>, n: int) -> Seq<Json>
    decreases items, n,
{
    if 0 < n <= items.len() {
        items_meaning(items, n - 1).push(items[n - 1].doc.meaning())
    } else {
        Seq::empty()
    }
}

/// The mapping of the first `n` members of an object: each member in turn
/// is written into the mapping, so that of two members with one key the
/// later stays.
pub open spec fn members_meaning(members: Seq<Member>, n: int) -> Map<Seq<char>, Json>
    decreases members, n,
{
    if 0 < n <= members.len() {
        members_meaning(members, n - 1).insert(
            decode_utf8(members[n - 1].key),
            members[n - 1].value.doc.meaning(),
        )
    } else {
        Map::empty()
    }
}

} // verus!
