//! What can be wrong with the text of a polynomial.

use vstd::prelude::*;
use vstd::string::StringExecFns;
use crate::numeral::{nat_text, push_nat};

verus! {

/// Why a text could not be read as a polynomial.
#[derive(Clone, Copy, Debug, PartialEq, Eq, Structural)]
pub enum PolynomialStringError {
    /// The text holds no character at all.
    EmptyStringError,
    /// The character at this index cannot stand there. The index counts the
    /// characters of the text from zero, blanks included; the text counts as
    /// ending in one more `+`.
    ParseError(usize, char),
    /// The parenthesis at this index has no partner: an opening one (`true`)
    /// inside an open pair, or a closing one (`false`) outside any.
    ParenthesesError(usize, bool),
}

impl PolynomialStringError {
    /// The message of an error, in words.
    pub open spec fn message(self) -> Seq<char> {
        match self {
            PolynomialStringError::EmptyStringError => "No polynomial found in string"@,
            PolynomialStringError::ParseError(index, c) =>
                "Failure to parse, encountered character "@.push(c) + " at index "@ + nat_text(
                    index as int,
                ),
            PolynomialStringError::ParenthesesError(index, open) => "Illegal "@ + (if open {
                "open"@
            } else {
                "close"@
            }) + " parentheses at index "@ + nat_text(index as int),
        }
    }

    /// Writes the message of an error.
    pub fn to_string(&self) -> (s: String)
        ensures
            s@ == self.message(),
    {
        match self {
            PolynomialStringError::EmptyStringError => String::from_str(
                "No polynomial found in string",
            ),
            PolynomialStringError::ParseError(index, c) => {
                let mut s = String::from_str("Failure to parse, encountered character ");
                s.push(*c);
                s.append(" at index ");
                push_nat(&mut s, *index as u128);
                s
            },
            PolynomialStringError::ParenthesesError(index, open) => {
                let mut s = String::from_str("Illegal ");
                if *open {
                    s.append("open");
                } else {
                    s.append("close");
                }
                s.append(" parentheses at index ");
                push_nat(&mut s, *index as u128);
                s
            },
        }
    }
}

} // verus!
