//! Line-oriented text search: the lines of a text that contain a query,
//! compared exactly or without regard to case.

pub mod config;
pub mod encoding;
pub mod folding;
pub mod laws;
pub mod lines;
pub mod occurrence;
pub mod search;

pub use crate::config::{run, Config};
pub use crate::search::{search, search_case_insensitive};
