use vstd::prelude::*;

pub mod text;
pub mod ast;
pub mod lexer;
pub mod parser;
pub mod executor;
pub mod builtins;
pub mod redirect;

verus! {
} // verus!
