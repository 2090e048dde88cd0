//! A recursive-descent reader for JSON-like text.
//!
//! The reader turns a document into a tree of [`JsonValue`] nodes. The
//! document at the top must be an object or an array. String literals are
//! checked for well-formed escapes but kept as written: the text between
//! the quotes is handed over raw, backslashes included. A failure says what
//! went wrong, at which byte of the input, and inside which productions.
//!
//! The modules, from the leaves up:
//!
//! - [`lexical`]: whitespace, literal tags, and cutting text at byte offsets;
//! - [`string`]: string literals and their escape tokens;
//! - [`number`]: numeric literals, whose text is converted by `nom`;
//! - [`grammar`]: keywords, arrays, objects, the value dispatch, the root;
//! - [`parser`]: the entry points on `&str`;
//! - [`value`] and [`error`]: what a parse hands out.
//!
//! Each function that reads is specified twice. A function on the bytes of
//! the input (`spec_value` for `value`, and so on) says exactly what is
//! taken, what it means, and with which failure anything else is refused.
//! And [`document`] describes documents as they are written; [`completeness`]
//! and [`soundness`] prove that the documents that are read are just the
//! well-formed ones, each as what it means. [`bounds`] proves that results
//! and failures lie inside the input, [`laws`] that the raw text of a
//! string literal can be put between quotes again.

pub mod bounds;
pub mod completeness;
pub mod document;
pub mod error;
pub mod grammar;
pub mod laws;
pub mod lexical;
pub mod number;
pub mod parser;
pub mod soundness;
pub mod string;
pub mod value;

pub use error::{ErrorKind, Frame, ParseError, Production};
pub use parser::{
    array, boolean, escapable, key, normal, null, object, parse, parse_hex, parse_str, root, string,
    value,
};
pub use value::JsonValue;
