//! Error values of the library.
use vstd::prelude::*;

verus! {

/// The errors that the library reports.
#[derive(Debug, Clone, PartialEq, Eq)]
pub enum Error {
    /// Configuration error.
    Config(String),
    /// Input/output error.
    Io(String),
    /// Database error.
    Database(String),
    /// Database migration error.
    Migration(String),
    /// Database connection error for a path.
    DatabaseConnection(String),
    /// Entity not found.
    NotFound(String),
    /// Entity already exists.
    AlreadyExists(String),
    /// Invalid URL.
    InvalidUrl(String),
    /// HTTP request failed.
    Http(String),
    /// Content parsing error.
    ContentParsing(String),
    /// Embedding error.
    Embedding(String),
    /// Scraper error.
    Scraper(String),
    /// Scraping error.
    Scraping(String),
    /// Pipeline error.
    Pipeline(String),
    /// MCP error.
    Mcp(String),
    /// Job not found.
    JobNotFound(String),
    /// Invalid state transition.
    InvalidState(String),
    /// Serialization error.
    Serialization(String),
    /// Parse error.
    ParseError(String),
}

} // verus!
