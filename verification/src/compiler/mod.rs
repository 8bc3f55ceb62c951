pub mod ast;
pub mod error;
pub mod temporal;
pub mod lower;
pub mod lex;
pub mod parse;
pub mod expr_laws;
