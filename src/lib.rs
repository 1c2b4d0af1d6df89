//! A parser for a JSON-like text grammar that builds a dynamic value tree, and a serializer that
//! writes such a tree back as text.
//!
//! Choices the grammar leaves open are fixed here:
//! - an escape in a string is one of `\"`, `\\`, `\n`, `\r`, `\t`, `\0`, or `\u{h}` with one or
//!   two hexadecimal digits naming a character below U+0100; any other fails with
//!   `UnexpectedToken` at the byte that does not fit;
//! - the serializer writes strings and keys as Rust's debug form does for these characters: a
//!   quote, a backslash, a newline, a return, a tab and NUL by a backslash and a letter, the
//!   other control characters (U+0001 to U+001F, U+007F to U+009F) as `\u{h}` in lowercase
//!   hexadecimal, and every other character as it is;
//! - a real number is kept as the token that wrote it (see `Decimal`), and two real numbers are
//!   equal when their tokens are: `1.0` and `1.00` differ;
//! - a whole number that does not fit in 64 bits fails with `InvalidNumberParse`, naming the
//!   token's first character;
//! - a signed integer of value zero is written as `-0`, so that it parses back as signed;
//! - where an object key should stand, `]` or a value followed by `]` is a bracket mismatch; any
//!   other byte but a quote is an unexpected token;
//! - error positions are those of the byte just read: its line, and the column counter, which
//!   starts at 1 and restarts at 0 after each newline.
use vstd::prelude::*;

pub mod container;
pub mod document;
pub mod dump;
pub mod error;
pub mod model;
pub mod parser;
pub mod roundtrip;
pub mod text;

pub use container::{Container, Decimal};
pub use error::{Error, ParseError};
pub use parser::{parse_str, read_str, Parser};

verus! {

} // verus!
