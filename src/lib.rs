//! Front end for a line-oriented assembler dialect: a character-level lexer
//! that yields classified tokens, and a recursive-descent parser that turns
//! the token stream into an ordered list of directive statements.
pub mod lexer;
pub mod ast;
pub mod parser;
