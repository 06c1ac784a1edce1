//! Why a line of text could not be read.

use vstd::prelude::*;

verus! {

/// The two ways in which a line can fail to be read.
#[derive(Debug, Clone, Copy, PartialEq, Eq, Structural)]
pub enum ParseError {
    /// The line has nothing in it.
    Empty,
    /// The line is not of the expected form.
    Invalid,
}

impl ParseError {
    /// What to tell the user.
    pub fn message(&self) -> (text: String)
        ensures
            text@ == (match *self {
                ParseError::Empty => "Empty line"@,
                ParseError::Invalid => "Invalid GTF line"@,
            }),
    {
        match self {
            ParseError::Empty => "Empty line".to_owned(),
            ParseError::Invalid => "Invalid GTF line".to_owned(),
        }
    }
}

} // verus!
