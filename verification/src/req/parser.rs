//! Parser for the `.req` file format.
//!
//! Raw `.req` text in, parser AST out. Lowering this AST into the executable
//! request model is handled by `crate::req::lowering`.

pub mod ast;
pub mod document;
pub mod grammar;
pub mod lexer;
pub mod marker;
pub mod span;

pub use document::parse;
