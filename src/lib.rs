use vstd::prelude::*;

pub mod ast;
pub mod lexer;
pub mod table;
pub mod tokenizer;
pub mod tree;

verus! {

} // verus!
