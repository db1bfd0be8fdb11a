//! What can be wrong with an expression.

use crate::decimal::{decimal, to_decimal};
use vstd::prelude::*;

verus! {

/// Why an expression could not be parsed.
#[derive(Debug, Clone, Copy, PartialEq, Eq)]
pub enum ParseError {
    /// The input ended where a factor or a closing parenthesis was still due.
    UnexpectedEof,
    /// A complete expression was read and tokens were left over.
    UnexpectedToken,
    /// An unrecognized token, at this position, stood where an operator or
    /// the end of the expression could.
    InvalidToken(usize),
    /// The token at this position stood where a group had to be closed.
    InvalidGroup(usize),
    /// The token at this position cannot start a factor.
    FactorExpected(usize),
}

impl ParseError {
    /// The position of the token that the error is about, where it is about
    /// one.
    pub open spec fn position(&self) -> Option<usize> {
        match *self {
            ParseError::UnexpectedEof => None,
            ParseError::UnexpectedToken => None,
            ParseError::InvalidToken(position) => Some(position),
            ParseError::InvalidGroup(position) => Some(position),
            ParseError::FactorExpected(position) => Some(position),
        }
    }

    /// What kind of error this is, in words.
    pub open spec fn spec_description(&self) -> Seq<char> {
        match *self {
            ParseError::UnexpectedEof => "Unexpected end of file"@,
            ParseError::UnexpectedToken => "Unconsumed input"@,
            ParseError::InvalidToken(_) => "Unrecognized token"@,
            ParseError::InvalidGroup(_) => "Expected group close"@,
            ParseError::FactorExpected(_) => "Expected integer, negation, or group"@,
        }
    }

    /// The description, followed by the position where the error has one.
    pub open spec fn message(&self) -> Seq<char> {
        match self.position() {
            Some(position) => self.spec_description() + ": "@ + decimal(position as nat),
            None => self.spec_description(),
        }
    }

    /// What kind of error this is, in words.
    pub fn description(&self) -> (text: &'static str)
        ensures
            text@ == self.spec_description(),
    {
        match *self {
            ParseError::UnexpectedEof => "Unexpected end of file",
            ParseError::UnexpectedToken => "Unconsumed input",
            ParseError::InvalidToken(_) => "Unrecognized token",
            ParseError::InvalidGroup(_) => "Expected group close",
            ParseError::FactorExpected(_) => "Expected integer, negation, or group",
        }
    }

    /// The error as it is shown to a reader.
    pub fn to_string(&self) -> (text: String)
        ensures
            text@ == self.message(),
    {
        let mut text = self.description().to_owned();
        match *self {
            ParseError::UnexpectedEof => {},
            ParseError::UnexpectedToken => {},
            ParseError::InvalidToken(position)
            | ParseError::InvalidGroup(position)
            | ParseError::FactorExpected(position) => {
                text.append(": ");
                text.append(to_decimal(position as u64).as_str());
            },
        }
        text
    }
}

} // verus!
