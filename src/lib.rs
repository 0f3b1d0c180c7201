//! A compiler from a small C-flavoured language to assembly for an
//! accumulator machine: lexing, parsing with name resolution, and code
//! generation with back-patched address cells.

pub mod string_builder;
pub mod lexer;
pub mod utility;
pub mod token_expect;
pub mod parser;
pub mod compiler;
pub mod lib_handler;
pub mod argument_parser;
pub mod config;
