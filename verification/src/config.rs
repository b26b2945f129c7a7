//! The error a configuration parse run ends in: where it stopped and what
//! was left unparsed.

use vstd::prelude::*;

verus! {

/// The parser that was attempted when parsing stopped.
#[derive(Clone, Copy, PartialEq, Eq, Structural, Debug)]
pub enum ParseNode {
    SectionHeader,
    ConfigName,
}

/// A failed parse: the zero-based count of newlines parsed before the
/// failure, the data left unparsed, and the parser that failed on it.
pub struct Error {
    pub line_number: usize,
    pub parsed_until: Vec<u8>,
    pub last_attempted_parser: ParseNode,
}

impl Error {
    /// The one-indexed line number where the error occurred.
    pub fn line_number(&self) -> (r: usize)
        requires
            self.line_number < usize::MAX,
        ensures
            r == self.line_number + 1,
    {
        self.line_number + 1
    }

    /// The remaining data that was left unparsed.
    pub fn remaining_data(&self) -> (r: &[u8])
        ensures
            r@ == self.parsed_until@,
    {
        self.parsed_until.as_slice()
    }
}

} // verus!
