//! Why a parse fails.
use vstd::prelude::*;

verus! {

/// The ways in which reading a document can fail.
#[derive(Debug, Clone, Copy, PartialEq, Eq)]
pub enum ParseError {
    /// The bytes could not be read in full.
    ReadFailure,
    /// A header `[]` names nothing.
    SectionNameEmpty,
    /// A header's name is longer than 255 characters.
    SectionNameTooLong,
    /// A character stands where the grammar allows none.
    UnexpectedCharacter { c: char },
    /// A quote is opened and never closed.
    UnterminatedString,
}

/// The sentence that describes an error.
pub open spec fn parse_error_message(e: ParseError) -> Seq<char> {
    match e {
        ParseError::ReadFailure => "failed to read data"@,
        ParseError::SectionNameEmpty => "section name cannot be empty"@,
        ParseError::SectionNameTooLong => "section name cannot exceed 255 characters"@,
        ParseError::UnexpectedCharacter { c } => "unexpected character: '"@ + seq![c] + "'"@,
        ParseError::UnterminatedString => "unterminated string"@,
    }
}

impl ParseError {
    /// A sentence that says what went wrong.
    pub fn message(&self) -> (r: String)
        ensures
            r@ == parse_error_message(*self),
    {
        match *self {
            ParseError::ReadFailure => "failed to read data".to_owned(),
            ParseError::SectionNameEmpty => "section name cannot be empty".to_owned(),
            ParseError::SectionNameTooLong => "section name cannot exceed 255 characters".to_owned(),
            ParseError::UnexpectedCharacter { c } => {
                let mut r = "unexpected character: '".to_owned();
                r.push(c);
                r.push('\'');
                proof {
                    reveal_strlit("'");
                }
                assert(r@ =~= "unexpected character: '"@ + seq![c] + "'"@);
                r
            },
            ParseError::UnterminatedString => "unterminated string".to_owned(),
        }
    }
}

} // verus!
