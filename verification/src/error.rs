//! Failures: what went wrong, where, and inside which productions.

use vstd::prelude::*;
use vstd::string::StringSliceAdditionalSpecFns;
use vstd::utf8::is_char_boundary;

verus! {

/// The reason a parse stopped.
#[derive(Clone, Copy, Debug, PartialEq, Eq, Structural)]
pub enum ErrorKind {
    /// An expected literal (a bracket, a colon, a quote, a keyword) is not
    /// at the current position.
    TagMismatch,
    /// A backslash is not followed by a recognised escape token.
    EscapeError,
    /// A `u` escape is not followed by four hexadecimal digits.
    HexDigitError,
    /// The input ended before the closing quote of a string literal.
    UnterminatedLiteral,
    /// The text at the current position is not a numeric literal.
    NumberFormatError,
    /// The document is a bare scalar; only an object or an array may stand
    /// at the top.
    UnexpectedTopLevelScalar,
    /// Something other than whitespace follows the top-level value.
    TrailingInput,
}

/// A named grammar rule, as it appears in the context of a failure.
#[derive(Clone, Copy, Debug, PartialEq, Eq, Structural)]
pub enum Production {
    /// A string literal, reported as `string`.
    Str,
    /// An object, reported as `object`.
    Object,
    /// An array, reported as `array`.
    Array,
    /// A value with the whitespace around it, reported as `value`.
    Value,
    /// The `u` and the four digits of a unicode escape, reported as
    /// `hex string`.
    HexString,
    /// The escape token behind a backslash, reported as `escaped`.
    Escaped,
}

/// One step of a failure's context: the production that was being parsed
/// and the byte offset at which it had started.
#[derive(Clone, Copy, Debug, PartialEq, Eq, Structural)]
pub struct Frame {
    pub production: Production,
    pub offset: usize,
}

/// The mathematical value of a [`ParseError`].
pub struct Failure {
    pub kind: ErrorKind,
    /// Byte offset of the failure in the input.
    pub offset: int,
    /// Enclosing productions with their start offsets, innermost first.
    pub trail: Seq<(Production, int)>,
}

impl Failure {
    /// A failure at `offset` with no context yet.
    pub open spec fn at(kind: ErrorKind, offset: int) -> Failure {
        Failure { kind, offset, trail: Seq::empty() }
    }

    /// The same failure, seen from the production that started at `start`.
    pub open spec fn within(self, production: Production, start: int) -> Failure {
        Failure { trail: self.trail.push((production, start)), ..self }
    }

    /// Of two failures the one that got further into the input; at equal
    /// offsets the second.
    pub open spec fn furthest(self, later: Failure) -> Failure {
        if later.offset >= self.offset {
            later
        } else {
            self
        }
    }
}

/// A failed parse: the kind of failure, the byte offset at which it
/// happened, and the productions that were open at that moment,
/// innermost first.
#[derive(Debug, PartialEq, Eq)]
pub struct ParseError {
    pub kind: ErrorKind,
    pub offset: usize,
    pub context: Vec<Frame>,
}

/// The trail of a context: each frame as a production and an offset.
pub open spec fn trail_of(frames: Seq<Frame>) -> Seq<(Production, int)> {
    Seq::new(frames.len(), |k: int| (frames[k].production, frames[k].offset as int))
}

impl View for ParseError {
    type V = Failure;

    open spec fn view(&self) -> Failure {
        Failure { kind: self.kind, offset: self.offset as int, trail: trail_of(self.context@) }
    }
}

impl Production {
    /// The label under which the production is reported.
    pub fn label(&self) -> (name: &'static str)
        ensures
            name@ == self.label_text(),
    {
        match self {
            Production::Str => "string",
            Production::Object => "object",
            Production::Array => "array",
            Production::Value => "value",
            Production::HexString => "hex string",
            Production::Escaped => "escaped",
        }
    }

    /// The characters of the label.
    pub open spec fn label_text(&self) -> Seq<char> {
        match self {
            Production::Str => "string"@,
            Production::Object => "object"@,
            Production::Array => "array"@,
            Production::Value => "value"@,
            Production::HexString => "hex string"@,
            Production::Escaped => "escaped"@,
        }
    }
}

impl ErrorKind {
    /// A short phrase that names the kind of failure.
    pub fn label(&self) -> (name: &'static str)
        ensures
            name@ == self.label_text(),
    {
        match self {
            ErrorKind::TagMismatch => "tag mismatch",
            ErrorKind::EscapeError => "escape error",
            ErrorKind::HexDigitError => "hex digit error",
            ErrorKind::UnterminatedLiteral => "unterminated literal",
            ErrorKind::NumberFormatError => "number format error",
            ErrorKind::UnexpectedTopLevelScalar => "unexpected top-level scalar",
            ErrorKind::TrailingInput => "trailing input",
        }
    }

    /// The characters of the phrase.
    pub open spec fn label_text(&self) -> Seq<char> {
        match self {
            ErrorKind::TagMismatch => "tag mismatch"@,
            ErrorKind::EscapeError => "escape error"@,
            ErrorKind::HexDigitError => "hex digit error"@,
            ErrorKind::UnterminatedLiteral => "unterminated literal"@,
            ErrorKind::NumberFormatError => "number format error"@,
            ErrorKind::UnexpectedTopLevelScalar => "unexpected top-level scalar"@,
            ErrorKind::TrailingInput => "trailing input"@,
        }
    }
}

impl ParseError {
    /// A failure of the given kind at `offset`, with an empty context.
    pub fn new(kind: ErrorKind, offset: usize) -> (e: ParseError)
        ensures
            e@ == Failure::at(kind, offset as int),
    {
        let e = ParseError { kind, offset, context: Vec::new() };
        assert(e@.trail =~= Seq::empty());
        e
    }

    /// Records that the failure happened inside `production`, which had
    /// started at byte offset `start`.
    pub fn within(self, production: Production, start: usize) -> (e: ParseError)
        ensures
            e@ == self@.within(production, start as int),
    {
        let mut context = self.context;
        context.push(Frame { production, offset: start });
        let e = ParseError { kind: self.kind, offset: self.offset, context };
        assert(e@.trail =~= self@.trail.push((production, start as int)));
        e
    }

    /// The input that was left unread at the point of failure: `input` from
    /// the failure's offset on. It is `None` where `input` cannot be cut
    /// there, which is not the case for the input that the failure came
    /// from.
    pub fn unread<'a>(&self, input: &'a str) -> (rest: Option<&'a str>)
        ensures
            match rest {
                Some(r) => is_char_boundary(input.spec_bytes(), self.offset as int)
                    && r.spec_bytes() == input.spec_bytes().subrange(
                    self.offset as int,
                    input.spec_bytes().len() as int,
                ),
                None => !is_char_boundary(input.spec_bytes(), self.offset as int),
            },
    {
        if input.is_char_boundary(self.offset) {
            let (_, rest) = input.split_at(self.offset);
            Some(rest)
        } else {
            None
        }
    }

    /// Of two failures the one that got further into the input; at equal
    /// offsets `later`.
    pub fn furthest(self, later: ParseError) -> (e: ParseError)
        ensures
            e@ == self@.furthest(later@),
    {
        if later.offset >= self.offset {
            later
        } else {
            self
        }
    }
}

} // verus!
