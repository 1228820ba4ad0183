//! HTTP execution of resolved requests.

pub mod client;
