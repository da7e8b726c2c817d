//! Request and response values of the web API.
use vstd::prelude::*;

verus! {

/// Query parameters for search.
#[derive(Debug, Clone)]
pub struct SearchQuery {
    pub q: String,
    pub limit: usize,
}

/// The result limit of a search that names none.
pub fn default_limit() -> (r: usize)
    ensures
        r == 5,
{
    5
}

/// Scrape request body.
#[derive(Debug, Clone)]
pub struct ScrapeRequest {
    pub url: String,
    pub library: String,
    pub version: String,
    pub max_pages: usize,
    pub max_depth: usize,
}

/// The page limit of a scrape request that names none.
pub fn default_max_pages() -> (r: usize)
    ensures
        r == 1000,
{
    1000
}

/// The depth limit of a scrape request that names none.
pub fn default_max_depth() -> (r: usize)
    ensures
        r == 3,
{
    3
}

/// API response for operations.
#[derive(Debug, Clone)]
pub struct ApiResponse<T> {
    pub success: bool,
    pub data: Option<T>,
    pub error: Option<String>,
}

impl<T> ApiResponse<T> {
    /// A successful response carrying `data`.
    pub fn success(data: T) -> (r: Self)
        ensures
            r.success,
            r.data == Some(data),
            r.error is None,
    {
        ApiResponse { success: true, data: Some(data), error: None }
    }

    /// A failed response carrying the message `msg`.
    pub fn error(msg: String) -> (r: Self)
        ensures
            !r.success,
            r.data is None,
            r.error == Some(msg),
    {
        ApiResponse { success: false, data: None, error: Some(msg) }
    }
}

/// Library info for API.
#[derive(Debug, Clone)]
pub struct LibraryInfo {
    pub name: String,
    pub versions: Vec<VersionInfo>,
}

/// Version info for API.
#[derive(Debug, Clone)]
pub struct VersionInfo {
    pub name: String,
    pub status: String,
    pub page_count: usize,
}

} // verus!
