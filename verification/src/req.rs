//! The request file format: parser, lowering, resolution and export.

pub mod curl;
pub mod error;
pub mod listing;
pub mod lowering;
pub mod model;
pub mod parser;
pub mod resolver;
