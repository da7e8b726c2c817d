//! Settings and results of fetching pages.
use vstd::prelude::*;

use crate::error::Error;
use crate::scrape::dom::{parse_url, url_parse_of};
use crate::text::{decimal, format_u64, str_eq};

verus! {

broadcast use vstd::string::group_string_axioms;

/// Configuration for browser-based fetching.
#[derive(Debug, Clone)]
pub struct BrowserFetchConfig {
    /// Path to Chrome executable (optional, will auto-detect if not provided).
    pub chrome_path: Option<String>,
    /// Whether to run in headless mode.
    pub headless: bool,
    /// Request timeout in seconds.
    pub timeout_secs: u64,
    /// Delay after page load to wait for JavaScript execution (milliseconds).
    pub wait_after_load_ms: u64,
    /// User agent string.
    pub user_agent: Option<String>,
    /// Window width.
    pub window_width: u32,
    /// Window height.
    pub window_height: u32,
    /// Whether to extract Shadow DOM content.
    pub extract_shadow_dom: bool,
    /// Whether to process iframes.
    pub process_iframes: bool,
    /// Whether to block images (improves performance).
    pub block_images: bool,
    /// Whether to block CSS (improves performance).
    pub block_css: bool,
    /// Custom headers to send with requests, as (name, value) pairs.
    pub headers: Vec<(String, String)>,
}

impl Default for BrowserFetchConfig {
    fn default() -> (r: Self)
        ensures
            r.chrome_path is None,
            r.headless,
            r.timeout_secs == 30,
            r.wait_after_load_ms == 500,
            r.user_agent is None,
            r.window_width == 1920,
            r.window_height == 1080,
            r.extract_shadow_dom,
            r.process_iframes,
            r.block_images,
            !r.block_css,
            r.headers.len() == 0,
    {
        BrowserFetchConfig {
            chrome_path: None,
            headless: true,
            timeout_secs: 30,
            wait_after_load_ms: 500,
            user_agent: None,
            window_width: 1920,
            window_height: 1080,
            extract_shadow_dom: true,
            process_iframes: true,
            block_images: true,
            block_css: false,
            headers: Vec::new(),
        }
    }
}

/// Additional fetch options for a single request.
#[derive(Debug, Clone)]
pub struct FetchOptions {
    /// Custom wait time after load (overrides config).
    pub wait_after_load_ms: Option<u64>,
    /// Whether to wait for a specific selector.
    pub wait_for_selector: Option<String>,
    /// Whether to scroll to bottom to trigger lazy loading.
    pub scroll_to_bottom: bool,
}

impl Default for FetchOptions {
    fn default() -> (r: Self)
        ensures
            r.wait_after_load_ms is None,
            r.wait_for_selector is None,
            !r.scroll_to_bottom,
    {
        FetchOptions { wait_after_load_ms: None, wait_for_selector: None, scroll_to_bottom: false }
    }
}

/// Result of fetching a URL.
#[derive(Debug, Clone)]
pub struct FetchResult {
    /// The fetched URL.
    pub url: String,
    /// The final URL after redirects.
    pub final_url: String,
    /// The content body.
    pub content: String,
    /// Content type (MIME type).
    pub content_type: Option<String>,
    /// ETag for caching.
    pub etag: Option<String>,
    /// Last-Modified header.
    pub last_modified: Option<String>,
    /// HTTP status code.
    pub status: u16,
}

/// Whether a URL may be fetched: it parses and its scheme is `http` or
/// `https`; else the message of the refusal (an invalid URL either way).
pub open spec fn fetch_url_check(url: Seq<char>) -> Result<(), Seq<char>> {
    match url_parse_of(url) {
        Err(e) => Err("Invalid URL "@ + url + ": "@ + e),
        Ok((scheme, _)) => if scheme == "http"@ || scheme == "https"@ {
            Ok(())
        } else {
            Err("Unsupported URL scheme: "@ + scheme)
        },
    }
}

/// Check that `url` may be fetched: a parsing URL with the `http` or `https` scheme.
pub fn check_fetch_url(url: &str) -> (r: Result<(), Error>)
    ensures
        match fetch_url_check(url@) {
            Ok(()) => r is Ok,
            Err(m) => r matches Err(Error::InvalidUrl(e)) && e@ == m,
        },
{
    match parse_url(url) {
        Err(e) => {
            let mut m = "Invalid URL ".to_owned();
            m.append(url);
            m.append(": ");
            m.append(e.as_str());
            Err(Error::InvalidUrl(m))
        },
        Ok(p) => {
            if str_eq(p.scheme.as_str(), "http") || str_eq(p.scheme.as_str(), "https") {
                Ok(())
            } else {
                let mut m = "Unsupported URL scheme: ".to_owned();
                m.append(p.scheme.as_str());
                Err(Error::InvalidUrl(m))
            }
        },
    }
}

/// What an HTTP status means for a fetch of `url`: 0 when the body is to be
/// read; 1, with its message, for 304 (not modified); 2, with its message, for
/// another status outside 200..=299.
pub open spec fn status_verdict(status: u16, url: Seq<char>) -> (int, Seq<char>) {
    if status == 304 {
        (1, "Not modified: "@ + url)
    } else if !(200 <= status <= 299) {
        (2, "HTTP "@ + decimal(status as int) + " for "@ + url)
    } else {
        (0, Seq::empty())
    }
}

/// Judge the HTTP status of a fetch of `url`.
pub fn judge_status(status: u16, url: &str) -> (r: Result<(), Error>)
    ensures
        status_verdict(status, url@).0 == 0 ==> r is Ok,
        status_verdict(status, url@).0 == 1 ==> (r matches Err(Error::NotFound(m)) && m@ == status_verdict(status, url@).1),
        status_verdict(status, url@).0 == 2 ==> (r matches Err(Error::Http(m)) && m@ == status_verdict(status, url@).1),
{
    if status == 304 {
        let mut m = "Not modified: ".to_owned();
        m.append(url);
        return Err(Error::NotFound(m));
    }
    if !(200 <= status && status <= 299) {
        let mut m = "HTTP ".to_owned();
        m.append(format_u64(status as u64).as_str());
        m.append(" for ");
        m.append(url);
        return Err(Error::Http(m));
    }
    Ok(())
}

} // verus!
