//! The errors that expansion reports.
use vstd::prelude::*;

use crate::number::{nat_digits, push_digits};
use crate::tokenizer::Token;

verus! {

/// Error type for this crate
#[derive(Clone, Debug)]
pub enum Error {
    /// Found backslash at end of input
    IncompleteEscape,
    /// Encountered error while parsing; `column` counts bytes from one
    ParserError { column: Option<usize>, message: &'static str },
}

/// A parse error that points at no column.
pub open spec fn spec_error(message: &'static str) -> Error {
    Error::ParserError { column: None, message }
}

/// A parse error about the token that starts at byte offset `pos`: its column is
/// `pos + 1`.
pub open spec fn spec_error_at(message: &'static str, pos: int) -> Error {
    Error::ParserError { column: Some((pos + 1) as usize), message }
}

impl Error {
    /// The text that describes this error, as `Display` writes it.
    pub open spec fn spec_describe(self) -> Seq<char> {
        match self {
            Error::IncompleteEscape => "Incomplete input - backslash found at end of input"@,
            Error::ParserError { column, message } => match column {
                Some(c) => message@ + " on column "@ + nat_digits(c as nat),
                None => message@,
            },
        }
    }

    /// A parse error with no column.
    pub fn new(message: &'static str) -> (e: Self)
        ensures
            e == spec_error(message),
    {
        Self::ParserError { column: None, message }
    }

    /// A parse error located at `token`.
    pub fn with_context(message: &'static str, token: &Token) -> (e: Self)
        requires
            token.pos < usize::MAX,
        ensures
            e == spec_error_at(message, token.pos as int),
    {
        Self::ParserError { column: Some(token.pos + 1), message }
    }

    /// Describes the error in words, naming the column where there is one.
    pub fn to_string(&self) -> (s: String)
        ensures
            s@ == self.spec_describe(),
    {
        let mut s = String::new();
        match self {
            Error::IncompleteEscape => {
                s.append("Incomplete input - backslash found at end of input");
            },
            Error::ParserError { column, message } => {
                s.append(message);
                if let Some(c) = column {
                    s.append(" on column ");
                    push_digits(&mut s, *c as u64);
                }
            },
        }
        s
    }
}

} // verus!
