//! The command line: argument parsing, commands and their text output.

pub mod args;
pub mod commands;
pub mod dto;
pub mod output;
