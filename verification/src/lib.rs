//! Parsing, resolution and export of `.http`-style request files.

pub mod cli;
pub mod http;
pub mod req;
pub mod text;
