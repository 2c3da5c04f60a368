//! Front end of a small expression language: a tokenizer with one token of
//! lookahead and a recursive-descent parser with operator-precedence
//! climbing.  Both are verified against spec-level definitions of the token
//! stream and of the grammar.

pub mod lexer;
pub mod parser;

use vstd::prelude::*;

verus! {

} // verus!
