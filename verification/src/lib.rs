//! Shell aliases kept in a text file, and counts over a shell history.

pub mod assumed;
pub mod text;
pub mod table;
pub mod grammar;
pub mod parse;
pub mod error;
pub mod config;
pub mod codec;
pub mod laws;
pub mod history;
pub mod report;

pub use config::AliasConfig;
pub use error::AliasError;
pub use history::HistoryCount;
