//! Tokens: classified spans of the source text.

use crate::text::{is_boundary, text_between};
use vstd::prelude::*;

verus! {

/// What a token is.
#[derive(Clone, Copy, Debug, PartialEq, Eq, Structural)]
pub enum Kind {
    /// A word, or the text between two double quotes.
    StringLiteral,
    /// A single `=`.
    Eq,
    /// `==`.
    EqCmp,
    /// `;` or a newline.
    EndStmt,
    /// The end of the input.
    Eof,
}

/// A span of the source text: the bytes from `start` up to, not including,
/// `end`.
#[derive(Clone, Copy, Debug, PartialEq, Eq, Structural)]
pub struct Token {
    pub kind: Kind,
    pub start: usize,
    pub end: usize,
}

impl Token {
    /// The span lies inside `source` and cuts no character in two.
    pub open spec fn within(self, source: Seq<u8>) -> bool {
        &&& self.start <= self.end
        &&& is_boundary(source, self.start as int)
        &&& is_boundary(source, self.end as int)
    }

    /// The characters that the span covers.
    pub open spec fn text(self, source: Seq<u8>) -> Seq<char> {
        text_between(source, self.start as int, self.end as int)
    }
}

/// Every token of `tokens` lies inside `source`.
pub open spec fn all_within(source: Seq<u8>, tokens: Seq<Token>) -> bool {
    forall|k: int| 0 <= k < tokens.len() ==> (#[trigger] tokens[k]).within(source)
}

} // verus!
