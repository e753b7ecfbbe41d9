//! A small line-oriented text search library.
//!
//! Given a query string and the full contents of a text file, the library
//! returns every line that contains the query, either exactly or after
//! case folding, as slices of the original contents and in the file's
//! original line order. A [`config::Config`] value carries the query, the
//! file path and the folding choice; the caller reads the file and prints
//! the result.

pub mod config;
pub mod search;
pub mod text;

pub use config::Config;
pub use search::render_output;
pub use search::run_search;
pub use search::search;
pub use search::search_case_insensitive;
