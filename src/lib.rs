pub mod command;
pub mod filter;
pub mod frame;
pub mod lexer;
pub mod parser;
pub mod symbols;
pub mod text;
pub mod track;
