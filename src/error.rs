use vstd::prelude::*;

verus! {

#[verifier::external_type_specification]
#[verifier::external_body]
pub struct ExParseIntError(std::num::ParseIntError);

/// Relies on `ParseIntError`'s derived `Clone`, which copies the error; nothing about the
/// copy is claimed.
pub assume_specification[ <std::num::ParseIntError as Clone>::clone ](
    e: &std::num::ParseIntError,
) -> std::num::ParseIntError;

/// An error parsing text into a value.
#[derive(Debug, Clone, PartialEq)]
pub struct ParseError {
    /// Byte offset into the text at which the error begins.
    pub start_loc: usize,
    /// Byte offset into the text at which the error ends, where one is known.
    pub end_loc: Option<usize>,
    /// What went wrong.
    pub err: ParseErrorKind,
}

/// What went wrong while parsing.
#[derive(Debug, Clone, PartialEq)]
pub enum ParseErrorKind {
    ExpectedValue,
    Complex(ParseComplexError),
    Char(ParseCharError),
    String(ParseStringError),
    Number(ParseNumberError),
    BitSequence(ParseBitSequenceError),
}

#[derive(Debug, Clone, PartialEq)]
pub enum ParseComplexError {
    InvalidStartingCharacterInIdent,
    InvalidFieldName,
    MissingFieldSeparator(char),
    ExpectedCloserToMatch(char, usize),
}

#[derive(Debug, Clone, PartialEq)]
pub enum ParseCharError {
    ExpectedValidCharacter,
    ExpectedValidEscapeCode,
    ExpectedClosingQuoteToMatch(usize),
}

#[derive(Debug, Clone, PartialEq)]
pub enum ParseStringError {
    ExpectedClosingQuoteToMatch(usize),
    ExpectedValidEscapeCode,
}

#[derive(Debug, Clone, PartialEq)]
pub enum ParseNumberError {
    ExpectedDigit,
    ParsingFailed(std::num::ParseIntError),
}

#[derive(Debug, Clone, PartialEq)]
pub enum ParseBitSequenceError {
    ExpectedClosingBracketToMatch(usize),
    InvalidCharacter,
}

/// What a parse error reports, with an integer that does not fit standing for the
/// conversion error that comes with it.
pub enum Failure {
    Kind(ParseErrorKind),
    Overflow,
}

pub struct ErrorModel {
    pub start: nat,
    pub end: Option<nat>,
    pub failure: Failure,
}

impl ParseError {
    pub fn new_at(err: ParseErrorKind, loc: usize) -> (r: ParseError)
        ensures
            r == (ParseError { start_loc: loc, end_loc: None, err }),
    {
        ParseError { start_loc: loc, end_loc: None, err }
    }

    pub fn new_between(err: ParseErrorKind, start: usize, end: usize) -> (r: ParseError)
        ensures
            r == (ParseError { start_loc: start, end_loc: Some(end), err }),
    {
        ParseError { start_loc: start, end_loc: Some(end), err }
    }

    /// Whether this error reports what `m` describes.
    pub open spec fn reports(&self, m: ErrorModel) -> bool {
        &&& self.start_loc == m.start
        &&& match m.end {
            Some(e) => self.end_loc == Some(e as usize) && e <= usize::MAX,
            None => self.end_loc is None,
        }
        &&& match m.failure {
            Failure::Kind(k) => self.err == k,
            Failure::Overflow => self.err matches ParseErrorKind::Number(
                ParseNumberError::ParsingFailed(_),
            ),
        }
    }
}

} // verus!
