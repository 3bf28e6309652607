//! Tokenizer, declaration grouper and reference validator for the TFLA
//! configuration language.

pub mod text;
pub mod tfla;
pub mod compiler;
