//! Front end of the egg shell language: grammar rules, the parser that
//! interprets them over a token stream, and the syntax tree it builds.

pub mod arena;
pub mod ast;
pub mod context;
pub mod display;
pub mod errors;
pub mod grammar;
pub mod outline;
pub mod parser;
pub mod sema;
pub mod source;
pub mod testutils;
pub mod types;
