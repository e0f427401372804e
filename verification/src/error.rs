//! The errors a grammar can report.

use vstd::prelude::*;
use vstd::string::{StrSliceExecFns, StringExecFns};
use crate::text::{append_decimal, chars_of, digit, digits_of, is_alnum, letter};
use crate::tokenizer::{lemma_run_end, run_end};

verus! {

/// Why a text could not be turned into a record.
///
/// An error belongs to one line: no record is built from a line that
/// reports one.
#[derive(Debug, Clone, Copy, PartialEq, Eq, Structural)]
pub enum ParseError {
    /// A character outside the grammar's alphabet, or a word that is not one
    /// of its keywords. `at` is the index of that character, or of the first
    /// character of that word, among the characters of the line.
    SyntaxError { at: usize },
    /// A run of digits whose value the grammar's integer type cannot hold.
    /// `at` is the index of its first digit among the characters of the
    /// line, and zero for a number that is put together from several places.
    NumberOutOfRange { at: usize },
    /// A token that the record needs is absent.
    MissingField,
    /// A token stands where the grammar does not allow it. `at` is its index
    /// among the tokens of the line.
    UnexpectedToken { at: usize },
}

/// `first`, then what `rest` holds; or the error of `rest`.
pub open spec fn followed_by<T>(first: Seq<T>, rest: Result<Seq<T>, ParseError>) -> Result<
    Seq<T>,
    ParseError,
> {
    match rest {
        Ok(more) => Ok(first + more),
        Err(e) => Err(e),
    }
}

/// What an error says to a reader: its kind, and the place that it names.
pub open spec fn message_of(e: ParseError) -> Seq<char> {
    match e {
        ParseError::SyntaxError { at } => "syntax error at character "@ + digits_of(at as nat),
        ParseError::NumberOutOfRange { at } => "number out of range at character "@ + digits_of(
            at as nat,
        ),
        ParseError::MissingField => "missing field"@,
        ParseError::UnexpectedToken { at } => "unexpected token "@ + digits_of(at as nat),
    }
}

impl ParseError {
    /// What the error says to a reader.
    pub fn message(&self) -> (s: String)
        ensures
            s@ == message_of(*self),
    {
        match *self {
            ParseError::SyntaxError { at } => {
                let mut s = String::from_str("syntax error at character ");
                append_decimal(&mut s, at as u64);
                s
            },
            ParseError::NumberOutOfRange { at } => {
                let mut s = String::from_str("number out of range at character ");
                append_decimal(&mut s, at as u64);
                s
            },
            ParseError::MissingField => String::from_str("missing field"),
            ParseError::UnexpectedToken { at } => {
                let mut s = String::from_str("unexpected token ");
                append_decimal(&mut s, at as u64);
                s
            },
        }
    }
}

/// The text that an error of the line `line` points at: the word that
/// starts at the place that the error names, or the character there where it
/// is no letter and no digit. An error that names no place in the line
/// points at nothing.
pub open spec fn offending_text(e: ParseError, line: Seq<char>) -> Seq<char> {
    let at = match e {
        ParseError::SyntaxError { at } => at as int,
        ParseError::NumberOutOfRange { at } => at as int,
        _ => line.len() as int,
    };
    if at >= line.len() {
        Seq::empty()
    } else if is_alnum(line[at]) {
        line.subrange(at, run_end(line, at))
    } else {
        line.subrange(at, at + 1)
    }
}

/// What an error of the line `line` says to a reader: its message and,
/// after a colon, the text that it points at, if it points at any.
pub open spec fn description_of(e: ParseError, line: Seq<char>) -> Seq<char> {
    if offending_text(e, line).len() == 0 {
        message_of(e)
    } else {
        message_of(e) + ": "@ + offending_text(e, line)
    }
}

impl ParseError {
    /// What the error says to a reader who has the line that it came from:
    /// its kind, the place that it names, and the text at that place.
    pub fn describe(&self, line: &str) -> (s: String)
        ensures
            s@ == description_of(*self, line@),
    {
        let mut s = self.message();
        let chars = chars_of(line);
        let at = match *self {
            ParseError::SyntaxError { at } => at,
            ParseError::NumberOutOfRange { at } => at,
            _ => chars.len(),
        };
        if at >= chars.len() {
            return s;
        }
        let mut end: usize = at + 1;
        if digit(chars[at]) || letter(chars[at]) {
            proof {
                lemma_run_end(chars@, at as int);
            }
            while end < chars.len() && (digit(chars[end]) || letter(chars[end]))
                invariant
                    at < end <= chars.len(),
                    run_end(chars@, at as int) == run_end(chars@, end as int),
                decreases chars.len() - end,
            {
                end += 1;
            }
        }
        s.append(": ");
        s.append(line.substring_char(at, end));
        s
    }
}

} // verus!
