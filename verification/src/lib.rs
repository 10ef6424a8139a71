//! A small assembler: line-oriented assembly text in, packed machine-code
//! image out.
//!
//! The pipeline is lexer, parser and code generator, all writing into one
//! append-only bit buffer. Every function is specified over mathematical
//! models of its data and verified against them.

pub mod assembler;
pub mod binary;
pub mod binary_laws;
pub mod bitset;
pub mod config;
pub mod error;
pub mod opcode;
pub mod parser;
pub mod parser_laws;
pub mod std_specs;
pub mod text;
pub mod text_laws;
pub mod variables;
