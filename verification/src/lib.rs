//! A small functional language: lexer, parser, type checker and a step-wise reducer.
use vstd::prelude::*;

pub mod text;
pub mod types;
pub mod token;
pub mod lexer;
pub mod ast;
pub mod term;
pub mod transform;
pub mod labels;
pub mod inbuilts;
pub mod bound;
pub mod grammar;
pub mod parser;
pub mod output;
pub mod pattern;
pub mod redex;
pub mod context;
pub mod checker;
pub mod infer;
pub mod generalize;
pub mod laws;
pub mod wasm_types;
pub mod compiler_types;

verus! {

} // verus!
