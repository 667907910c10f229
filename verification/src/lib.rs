//! Line-oriented text search: select the lines of a text that contain a query,
//! with or without regard to case, and render a line with every occurrence of
//! the query wrapped in terminal colour markers.

pub mod config;
pub mod encoding;
pub mod fold;
pub mod highlight;
pub mod lines;
pub mod search;
pub mod strip;
pub mod text;

pub use config::Config;
pub use highlight::highlight_matches;
pub use search::{search, search_case_insensitive};
