//! Line search over text: configuration parsing and the two matching policies.

pub mod config;
pub mod encoding;
pub mod filter;
pub mod folding;
pub mod lines;
pub mod runner;
pub mod selection;
pub mod substring;

pub use config::{Config, ConfigError, ConfigView, CASE_INSENSITIVE};
pub use filter::{search, search_case_insensitive};
pub use runner::run;
