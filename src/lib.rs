//! Line-oriented substring search over a text, with an optional case-insensitive mode.
pub mod config;
pub mod search;
pub mod text;

pub use config::{run_search, Config, ConfigError};
pub use search::{search, search_case_insensitive};
