//! A small declarative grammar engine: token lexicons and production rules
//! written in a line-oriented grammar language are compiled into rule tries,
//! which then tokenize and match input.

pub mod text;
pub mod ast_rules;
pub mod ast_lexer;
pub mod ast_parser;
pub mod parser_structs;
pub mod parser_lang;
