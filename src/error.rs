//! The positioned error reported when input is rejected.
use vstd::prelude::*;

use crate::names::{decimal, push_decimal};

verus! {

/// An error with the source position it was found at.
#[derive(Debug, PartialEq, Eq)]
pub struct InterpretError {
    pub err: String,
    pub line: usize,
    pub column: usize,
}

/// The rendering `[line:column] err`.
pub open spec fn error_text(err: Seq<char>, line: nat, column: nat) -> Seq<char> {
    seq!['['] + decimal(line) + seq![':'] + decimal(column) + seq![']', ' '] + err
}

impl InterpretError {
    pub fn new(err: String, line: usize, column: usize) -> (r: InterpretError)
        ensures
            r.err == err,
            r.line == line,
            r.column == column,
    {
        InterpretError { err, line, column }
    }

    /// The error as text: `[line:column] err`.
    pub fn message(&self) -> (r: String)
        ensures
            r@ == error_text(self.err@, self.line as nat, self.column as nat),
    {
        proof {
            reveal_strlit("[");
            reveal_strlit(":");
            reveal_strlit("] ");
        }
        let mut s = String::from_str("[");
        push_decimal(&mut s, self.line as u64);
        s.append(":");
        push_decimal(&mut s, self.column as u64);
        s.append("] ");
        s.append(self.err.as_str());
        proof {
            assert(s@ =~= error_text(self.err@, self.line as nat, self.column as nat));
        }
        s
    }
}

} // verus!
