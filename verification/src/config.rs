//! Configuration values and their defaults.
use vstd::prelude::*;

verus! {

broadcast use vstd::string::group_string_axioms;

/// Application configuration.
#[derive(Debug, Clone)]
pub struct Config {
    /// Database storage path.
    pub store_path: String,
    /// Server configuration.
    pub server: ServerConfig,
    /// Scraper configuration.
    pub scraper: ScraperConfig,
    /// Splitter configuration.
    pub splitter: SplitterConfig,
    /// Embedding configuration.
    pub embedding: EmbeddingConfig,
}

/// Server configuration.
#[derive(Debug, Clone)]
pub struct ServerConfig {
    /// HTTP server host.
    pub host: String,
    /// HTTP server port.
    pub port: u16,
    /// Log level.
    pub log_level: String,
}

/// Scraper configuration.
#[derive(Debug, Clone)]
pub struct ScraperConfig {
    /// Maximum number of pages to scrape.
    pub max_pages: usize,
    /// Maximum crawl depth.
    pub max_depth: usize,
    /// Maximum concurrent requests.
    pub max_concurrency: usize,
    /// Request timeout in seconds.
    pub timeout_secs: u64,
    /// User agent string.
    pub user_agent: String,
}

/// Splitter configuration.
#[derive(Debug, Clone)]
pub struct SplitterConfig {
    /// Default chunk size for text splitting.
    pub chunk_size: usize,
    /// Overlap between chunks.
    pub chunk_overlap: usize,
    /// Code chunk size.
    pub code_chunk_size: usize,
}

/// Embedding provider configuration.
#[derive(Debug, Clone)]
pub struct EmbeddingConfig {
    /// Embedding provider type.
    pub provider: EmbeddingProvider,
    /// OpenAI API key.
    pub openai_api_key: Option<String>,
    /// OpenAI API base URL, where not the default one.
    pub openai_api_base: Option<String>,
    /// OpenAI embedding model.
    pub openai_model: String,
    /// Google API key.
    pub google_api_key: Option<String>,
    /// Google API base URL, where not the default one.
    pub google_api_base: Option<String>,
    /// Google embedding model.
    pub google_model: String,
    /// Embedding dimension (for vector storage).
    pub dimension: usize,
}

/// The embedding providers.
#[derive(Debug, Clone, Copy, PartialEq, Eq, Structural)]
pub enum EmbeddingProvider {
    OpenAI,
    Google,
}

impl Default for EmbeddingProvider {
    fn default() -> (r: Self)
        ensures
            r == EmbeddingProvider::OpenAI,
    {
        EmbeddingProvider::OpenAI
    }
}

fn default_store_path() -> (r: String)
    ensures
        r@ == "./data/docs.db"@,
{
    "./data/docs.db".to_owned()
}

fn default_host() -> (r: String)
    ensures
        r@ == "127.0.0.1"@,
{
    "127.0.0.1".to_owned()
}

fn default_port() -> (r: u16)
    ensures
        r == 3000,
{
    3000
}

fn default_log_level() -> (r: String)
    ensures
        r@ == "info"@,
{
    "info".to_owned()
}

fn default_max_pages() -> (r: usize)
    ensures
        r == 1000,
{
    1000
}

fn default_max_depth() -> (r: usize)
    ensures
        r == 3,
{
    3
}

fn default_max_concurrency() -> (r: usize)
    ensures
        r == 5,
{
    5
}

fn default_timeout() -> (r: u64)
    ensures
        r == 30,
{
    30
}

/// The user agent: the package name and version.
fn default_user_agent() -> (r: String)
    ensures
        r@ == "docs-mcp-rs/0.1.0"@,
{
    "docs-mcp-rs/0.1.0".to_owned()
}

fn default_chunk_size() -> (r: usize)
    ensures
        r == 1000,
{
    1000
}

fn default_chunk_overlap() -> (r: usize)
    ensures
        r == 200,
{
    200
}

fn default_code_chunk_size() -> (r: usize)
    ensures
        r == 1500,
{
    1500
}

fn default_provider() -> (r: EmbeddingProvider)
    ensures
        r == EmbeddingProvider::OpenAI,
{
    EmbeddingProvider::OpenAI
}

fn default_openai_model() -> (r: String)
    ensures
        r@ == "text-embedding-3-small"@,
{
    "text-embedding-3-small".to_owned()
}

fn default_google_model() -> (r: String)
    ensures
        r@ == "text-embedding-004"@,
{
    "text-embedding-004".to_owned()
}

/// Default for text-embedding-3-small.
fn default_embedding_dim() -> (r: usize)
    ensures
        r == 1536,
{
    1536
}

impl Default for ServerConfig {
    fn default() -> (r: Self)
        ensures
            r.host@ == "127.0.0.1"@,
            r.port == 3000,
            r.log_level@ == "info"@,
    {
        ServerConfig { host: default_host(), port: default_port(), log_level: default_log_level() }
    }
}

impl Default for ScraperConfig {
    fn default() -> (r: Self)
        ensures
            r.max_pages == 1000,
            r.max_depth == 3,
            r.max_concurrency == 5,
            r.timeout_secs == 30,
            r.user_agent@ == "docs-mcp-rs/0.1.0"@,
    {
        ScraperConfig {
            max_pages: default_max_pages(),
            max_depth: default_max_depth(),
            max_concurrency: default_max_concurrency(),
            timeout_secs: default_timeout(),
            user_agent: default_user_agent(),
        }
    }
}

impl Default for SplitterConfig {
    fn default() -> (r: Self)
        ensures
            r.chunk_size == 1000,
            r.chunk_overlap == 200,
            r.code_chunk_size == 1500,
    {
        SplitterConfig {
            chunk_size: default_chunk_size(),
            chunk_overlap: default_chunk_overlap(),
            code_chunk_size: default_code_chunk_size(),
        }
    }
}

impl Default for EmbeddingConfig {
    fn default() -> (r: Self)
        ensures
            r.provider == EmbeddingProvider::OpenAI,
            r.openai_api_key is None,
            r.openai_api_base is None,
            r.openai_model@ == "text-embedding-3-small"@,
            r.google_api_key is None,
            r.google_api_base is None,
            r.google_model@ == "text-embedding-004"@,
            r.dimension == 1536,
    {
        EmbeddingConfig {
            provider: default_provider(),
            openai_api_key: None,
            openai_api_base: None,
            openai_model: default_openai_model(),
            google_api_key: None,
            google_api_base: None,
            google_model: default_google_model(),
            dimension: default_embedding_dim(),
        }
    }
}

/// Whether `c` holds the default configuration.
pub open spec fn is_default_config(c: Config) -> bool {
    &&& c.store_path@ == "./data/docs.db"@
    &&& c.server.host@ == "127.0.0.1"@
    &&& c.server.port == 3000
    &&& c.server.log_level@ == "info"@
    &&& c.scraper.max_pages == 1000
    &&& c.scraper.max_depth == 3
    &&& c.scraper.max_concurrency == 5
    &&& c.scraper.timeout_secs == 30
    &&& c.scraper.user_agent@ == "docs-mcp-rs/0.1.0"@
    &&& c.splitter.chunk_size == 1000
    &&& c.splitter.chunk_overlap == 200
    &&& c.splitter.code_chunk_size == 1500
    &&& c.embedding.provider == EmbeddingProvider::OpenAI
    &&& c.embedding.openai_api_key is None
    &&& c.embedding.openai_api_base is None
    &&& c.embedding.openai_model@ == "text-embedding-3-small"@
    &&& c.embedding.google_api_key is None
    &&& c.embedding.google_api_base is None
    &&& c.embedding.google_model@ == "text-embedding-004"@
    &&& c.embedding.dimension == 1536
}

impl Default for Config {
    fn default() -> (r: Self)
        ensures
            is_default_config(r),
    {
        Config {
            store_path: default_store_path(),
            server: ServerConfig::default(),
            scraper: ScraperConfig::default(),
            splitter: SplitterConfig::default(),
            embedding: EmbeddingConfig::default(),
        }
    }
}

impl Config {
    /// Create a new configuration with defaults.
    pub fn new() -> (r: Self)
        ensures
            is_default_config(r),
    {
        Config::default()
    }

    /// Get the database path.
    pub fn database_path(&self) -> (r: String)
        ensures
            r@ == self.store_path@,
    {
        self.store_path.clone()
    }
}

} // verus!
