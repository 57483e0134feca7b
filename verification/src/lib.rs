//! A small jq-like JSON query language: a lexer and recursive-descent parser
//! for query expressions, and a multi-valued evaluator that applies a parsed
//! expression to an in-memory JSON document.

pub mod laws;
pub mod parser;
pub mod query;
pub mod value;

use vstd::prelude::*;

verus! {

} // verus!
