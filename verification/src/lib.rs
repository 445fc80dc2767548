//! A verified frontend for Desert, an indentation-based language that
//! lowers to Rust.
pub mod text;
pub mod ast;
pub mod lexer;
pub mod parser;
pub mod statements;
pub mod imports;
pub mod sourcemap;
pub mod resolver;
pub mod mirage;
pub mod transpiler;
pub mod formatter;
pub mod readback;
pub mod semantic;
pub mod project;
pub mod report;
