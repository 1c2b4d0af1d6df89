//! Failures that parsing can report.
use vstd::prelude::*;

use crate::dump::{digits_text, push_digits};
use crate::model::Failure;
use crate::text::push_char;

verus! {

/// A reason why a text could not be parsed.
#[derive(Debug, Clone)]
pub enum ParseError {
    /// A character that is not accepted where it stands, with its line and column.
    UnexpectedToken(char, usize, usize),
    /// A run of string bytes that is not valid UTF-8.
    InvalidUTF8Parsing,
    /// Arrays and objects nested deeper than the parser allows; holds the depth reached.
    NestedDepthExceeded(u16),
    /// The text ended where more was required.
    EndOfBuffer,
    /// A container closed by the bracket of the other kind.
    ContainerParanthesisMismatch { opening_container: char, closing_container: char },
    /// An object entry that ended before its value; holds the key being read.
    InvalidKeyValueFormat { reading_key: String },
    /// A character that breaks the number grammar.
    InvalidNumberParse(char),
}

/// The error type of the library.
#[derive(Debug, Clone)]
pub enum Error {
    /// A failure while parsing.
    Parsing(ParseError),
}

impl View for ParseError {
    type V = Failure;

    open spec fn view(&self) -> Failure {
        match self {
            ParseError::UnexpectedToken(c, l, col) => Failure::UnexpectedToken(*c, *l as int, *col as int),
            ParseError::InvalidUTF8Parsing => Failure::InvalidUtf8,
            ParseError::NestedDepthExceeded(d) => Failure::NestedDepthExceeded(*d as int),
            ParseError::EndOfBuffer => Failure::EndOfBuffer,
            ParseError::ContainerParanthesisMismatch { opening_container, closing_container } =>
                Failure::ContainerMismatch(*opening_container, *closing_container),
            ParseError::InvalidKeyValueFormat { reading_key } => Failure::InvalidKeyValueFormat(reading_key@),
            ParseError::InvalidNumberParse(c) => Failure::InvalidNumberParse(*c),
        }
    }
}

impl View for Error {
    type V = Failure;

    open spec fn view(&self) -> Failure {
        match self {
            Error::Parsing(e) => e@,
        }
    }
}

/// The human-readable description of a failure.
pub open spec fn describe(f: Failure) -> Seq<char> {
    match f {
        Failure::UnexpectedToken(c, line, col) => "Unexpected character found: "@ + seq![c] + " at line "@
            + digits_text(line as nat) + ", col: "@ + digits_text(col as nat),
        Failure::InvalidUtf8 => "Invalid UTF-8 Value found while decoding strings."@,
        Failure::NestedDepthExceeded(d) => "NestedDepthExceeded, >"@ + digits_text(d as nat),
        Failure::EndOfBuffer => "The buffer ended before operating on storage."@,
        Failure::ContainerMismatch(o, c) => "The opening bracket '"@ + seq![o] + "' and closing bracket '"@
            + seq![c] + "' do not match"@,
        Failure::InvalidKeyValueFormat(k) => "Error while reading value while reading key: "@ + k,
        Failure::InvalidNumberParse(c) => "Error while reading number: found character "@ + seq![c],
    }
}

impl ParseError {
    /// The description of this failure, with the character and its position where there are.
    pub fn message(&self) -> (r: String)
        ensures
            r@ == describe(self@),
    {
        let mut out = String::new();
        match self {
            ParseError::UnexpectedToken(c, line, col) => {
                out.append("Unexpected character found: ");
                push_char(&mut out, *c);
                out.append(" at line ");
                push_digits(&mut out, *line as u64);
                out.append(", col: ");
                push_digits(&mut out, *col as u64);
            },
            ParseError::InvalidUTF8Parsing => {
                out.append("Invalid UTF-8 Value found while decoding strings.");
            },
            ParseError::NestedDepthExceeded(d) => {
                out.append("NestedDepthExceeded, >");
                push_digits(&mut out, *d as u64);
            },
            ParseError::EndOfBuffer => {
                out.append("The buffer ended before operating on storage.");
            },
            ParseError::ContainerParanthesisMismatch { opening_container, closing_container } => {
                out.append("The opening bracket '");
                push_char(&mut out, *opening_container);
                out.append("' and closing bracket '");
                push_char(&mut out, *closing_container);
                out.append("' do not match");
            },
            ParseError::InvalidKeyValueFormat { reading_key } => {
                out.append("Error while reading value while reading key: ");
                out.append(reading_key.as_str());
            },
            ParseError::InvalidNumberParse(c) => {
                out.append("Error while reading number: found character ");
                push_char(&mut out, *c);
            },
        }
        assert(out@ =~= describe(self@));
        out
    }
}

impl Error {
    /// `Parse Error:`, a newline, and the description of the failure.
    pub fn message(&self) -> (r: String)
        ensures
            r@ == "Parse Error:\n"@ + describe(self@),
    {
        match self {
            Error::Parsing(e) => {
                let mut out = String::new();
                out.append("Parse Error:\n");
                let inner = e.message();
                out.append(inner.as_str());
                assert(out@ =~= "Parse Error:\n"@ + describe(self@));
                out
            },
        }
    }
}

} // verus!
