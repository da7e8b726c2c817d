use docs_mcp_rs::config::{EmbeddingConfig, EmbeddingProvider};
use docs_mcp_rs::embed::{
    backoff_delay, choose_embedder, detect_embedding_format, embedding_config_for, estimate_tokens,
    get_model_dimension, google_batch_embed_url, google_embed_url, google_models, is_rate_limited,
    is_valid_dimension, model_info_in, openai_embed_url, openai_models, parse_model_option,
    should_retry, EmbedderChoice, EmbeddingFormat, NoneEmbedder,
};
use docs_mcp_rs::events::{CrawlPhase, Job, JobStatus};
use docs_mcp_rs::mcp::{
    library_listing, library_removed, scrape_summary, search_report, LibraryListing, ScrapeDocsParams,
    SearchHit,
};
use docs_mcp_rs::pipeline::{
    estimate_progress, initial_job_progress, should_report, CancelOutcome, JobEntry, JobTable,
    RunOutcome, WaitState,
};
use docs_mcp_rs::search::{escape_fts_query, library_key};
use docs_mcp_rs::text::{format_i64, format_u64};
use docs_mcp_rs::types::{ScraperOptions, VersionStatus};
use docs_mcp_rs::web::ApiResponse;

#[test]
fn google_test_model_info() {
    let info = model_info_in(&google_models(), &"text-embedding-004".to_string(), 768, 2048);
    assert_eq!(info.id, "text-embedding-004");
    assert_eq!(info.dimension, 768);
}

#[test]
fn openai_test_model_info() {
    let info = model_info_in(&openai_models(), &"text-embedding-3-small".to_string(), 1536, 8191);
    assert_eq!(info.id, "text-embedding-3-small");
    assert_eq!(info.dimension, 1536);
}

#[test]
fn model_info_unknown_model_keeps_configuration() {
    let info = model_info_in(&openai_models(), &"custom".to_string(), 42, 8191);
    assert_eq!((info.dimension, info.max_tokens), (42, 8191));
    let large = model_info_in(&openai_models(), &"text-embedding-3-large".to_string(), 1, 1);
    assert_eq!((large.dimension, large.max_tokens), (3072, 8191));
}

#[test]
fn model_dimensions() {
    assert_eq!(get_model_dimension("text-embedding-3-small"), Some(1536));
    assert_eq!(get_model_dimension("embedding-001"), Some(768));
    assert_eq!(get_model_dimension("nope"), None);
    assert!(is_valid_dimension("nope", 7));
    assert!(is_valid_dimension("text-embedding-3-large", 3072));
    assert!(!is_valid_dimension("text-embedding-3-large", 1536));
}

#[test]
fn token_estimates_exact() {
    assert_eq!(estimate_tokens("abcd"), 6);
    assert_eq!(estimate_tokens("abcdefgh"), 7);
    assert_eq!(estimate_tokens("你好"), 8);
    // at least the overhead and one token, and every CJK char counts
    let s = "中文中文中文";
    assert!(estimate_tokens(s) >= 6 + 6);
}

#[test]
fn embedding_formats() {
    assert_eq!(detect_embedding_format(3072, 1536), Some(EmbeddingFormat::F16));
    assert_eq!(detect_embedding_format(6144, 1536), Some(EmbeddingFormat::F32));
    assert_eq!(detect_embedding_format(3072, 10), Some(EmbeddingFormat::F32));
    assert_eq!(detect_embedding_format(6, 0), Some(EmbeddingFormat::F16));
    assert_eq!(detect_embedding_format(8, 0), Some(EmbeddingFormat::F16));
    assert_eq!(detect_embedding_format(4000, 7), Some(EmbeddingFormat::F32));
    assert_eq!(detect_embedding_format(3, 1), None);
    assert_eq!(detect_embedding_format(6, 3), Some(EmbeddingFormat::F16));
    assert_eq!(detect_embedding_format(12, 3), Some(EmbeddingFormat::F32));
}

#[test]
fn model_options() {
    assert_eq!(
        parse_model_option("openai:text-embedding-3-small"),
        ("openai".to_string(), "text-embedding-3-small".to_string())
    );
    assert_eq!(parse_model_option("Google"), ("Google".to_string(), "default".to_string()));
    assert_eq!(parse_model_option("my-model"), ("openai".to_string(), "my-model".to_string()));
    assert_eq!(parse_model_option("a:b:c"), ("a".to_string(), "b:c".to_string()));
    let c = embedding_config_for("google:text-embedding-004", None, None, Some("k".to_string()), None, 768);
    assert_eq!(c.provider, EmbeddingProvider::Google);
    assert_eq!(c.google_model, "text-embedding-004");
    assert_eq!(c.openai_model, "text-embedding-3-small");
    assert_eq!(c.dimension, 768);
    let d = embedding_config_for("GOOGLE:x", None, None, None, None, 1);
    assert_eq!(d.provider, EmbeddingProvider::Google);
    assert_eq!(d.google_model, "text-embedding-004");
}

#[test]
fn embedder_choice() {
    let mut c = EmbeddingConfig::default();
    assert!(matches!(choose_embedder(&c), EmbedderChoice::Disabled));
    c.openai_api_key = Some(String::new());
    assert!(matches!(choose_embedder(&c), EmbedderChoice::Disabled));
    c.openai_api_key = Some("key".to_string());
    assert!(matches!(choose_embedder(&c), EmbedderChoice::OpenAI { .. }));
    c.provider = EmbeddingProvider::Google;
    assert!(matches!(choose_embedder(&c), EmbedderChoice::Disabled));
    let none = NoneEmbedder::new();
    assert!(!none.is_available());
    assert_eq!(none.dimension(), 0);
    assert!(none.refusal().contains("no API key configured"));
}

#[test]
fn retries_and_urls() {
    assert!(is_rate_limited("OpenAI API error (429 Too Many Requests)"));
    assert!(!is_rate_limited("HTTP 500"));
    assert!(should_retry(true, 0, 3));
    assert!(!should_retry(true, 3, 3));
    assert!(!should_retry(false, 0, 3));
    assert_eq!(backoff_delay(1000, 1), 1000);
    assert_eq!(backoff_delay(1000, 3), 4000);
    assert_eq!(openai_embed_url("https://api.openai.com/v1"), "https://api.openai.com/v1/embeddings");
    assert_eq!(google_embed_url("b", "m", "k"), "b/models/m:embedContent?key=k");
    assert_eq!(google_batch_embed_url("b", "m", "k"), "b/models/m:batchEmbedContents?key=k");
}

#[test]
fn fts_queries() {
    assert_eq!(escape_fts_query("hello (world)*"), "hello OR world");
    assert_eq!(escape_fts_query(""), "*");
    assert_eq!(escape_fts_query("  \"'  "), "*");
    assert_eq!(escape_fts_query("a^b"), "a OR b");
    assert_eq!(library_key("MyLib"), "mylib");
}

#[test]
fn status_names_round_trip() {
    let all = [
        VersionStatus::NotIndexed,
        VersionStatus::Queued,
        VersionStatus::Running,
        VersionStatus::Completed,
        VersionStatus::Failed,
        VersionStatus::Cancelled,
        VersionStatus::Updating,
    ];
    for s in all {
        assert_eq!(s.to_string().parse::<VersionStatus>(), Ok(s));
    }
    assert_eq!(
        "bogus".parse::<VersionStatus>(),
        Err("Unknown version status: bogus".to_string())
    );
    assert_eq!(VersionStatus::NotIndexed.label(), "notindexed");
    assert_eq!(VersionStatus::default(), VersionStatus::NotIndexed);
}

#[test]
fn decimal_formatting() {
    assert_eq!(format_u64(0), "0");
    assert_eq!(format_u64(1234567890), "1234567890");
    assert_eq!(format_i64(-42), "-42");
    assert_eq!(format_i64(i64::MIN), i64::MIN.to_string());
}

#[test]
fn tool_reports() {
    assert_eq!(
        scrape_summary(3, 10, "lib", "1.0"),
        "Successfully scraped 3 pages with 10 chunks for library 'lib' (version: 1.0)"
    );
    assert_eq!(library_removed("x"), "Successfully removed library 'x'");
    assert_eq!(library_listing(&vec![]), "No libraries indexed yet.");
    let libs = vec![
        LibraryListing { name: "a".to_string(), id: 1, versions: vec![] },
        LibraryListing { name: "b".to_string(), id: 2, versions: vec!["1.0".to_string(), "2.0".to_string()] },
    ];
    assert_eq!(
        library_listing(&libs),
        "- **a** (ID: 1)\n  Versions: none\n- **b** (ID: 2)\n  Versions: 1.0, 2.0"
    );
    assert_eq!(search_report(&vec![]), "No results found.");
    let hits = vec![
        SearchHit { score: "0.500".to_string(), url: "u1".to_string(), title: None, content: "c1".to_string() },
        SearchHit { score: "0.250".to_string(), url: "u2".to_string(), title: Some("T".to_string()), content: "c2".to_string() },
    ];
    assert_eq!(
        search_report(&hits),
        "## Result 1 (score: 0.500)\n**URL**: u1\n**Title**: N/A\n\nc1\n\n---\n## Result 2 (score: 0.250)\n**URL**: u2\n**Title**: T\n\nc2\n"
    );
    let p = ScrapeDocsParams { library: "l".to_string(), url: "u".to_string(), version: None, max_pages: 5, max_depth: 2 };
    let o = p.scraper_options();
    assert_eq!((o.max_pages, o.max_depth), (Some(5), Some(2)));
    let r: ApiResponse<u8> = ApiResponse::error("bad".to_string());
    assert!(!r.success && r.error == Some("bad".to_string()));
    let ok = ApiResponse::success(7u8);
    assert!(ok.success && ok.data == Some(7));
}

fn entry(id: &str) -> JobEntry {
    JobEntry {
        job: Job::new_at(id.to_string(), "lib".to_string(), String::new(), None, 1),
        source_url: "https://example.com".to_string(),
        options: ScraperOptions::default(),
    }
}

#[test]
fn job_table_lifecycle() {
    let mut t = JobTable::new();
    t.enqueue(entry("a"));
    t.enqueue(entry("b"));
    assert_eq!(t.get_jobs().len(), 2);
    assert_eq!(t.get_job("a").unwrap().status, JobStatus::Queued);
    // cancel a queued job: cancelled, out of the queue
    match t.cancel_job_at("a", 99) {
        CancelOutcome::Cancelled(j) => {
            assert_eq!(j.status, JobStatus::Cancelled);
            assert_eq!(j.finished_at, Some(99));
        }
        _ => panic!("expected a cancelled job"),
    }
    assert_eq!(t.next_to_start(true, 0, 1), Some("b".to_string()));
    assert_eq!(t.next_to_start(true, 0, 1), None);
    let started = t.start_job_at("b", 5).unwrap();
    assert_eq!((started.status, started.started_at), (JobStatus::Running, Some(5)));
    assert!(matches!(t.cancel_job_at("b", 6), CancelOutcome::Signalled));
    assert_eq!(t.get_job("b").unwrap().status, JobStatus::Cancelling);
    let done = t.finish_job_at("b", RunOutcome::Failure("stopped".to_string()), true, 7).unwrap();
    assert_eq!(done.status, JobStatus::Cancelled);
    assert!(matches!(t.cancel_job_at("b", 8), CancelOutcome::NotCancellable(JobStatus::Cancelled)));
    assert!(matches!(t.cancel_job_at("zzz", 8), CancelOutcome::NotFound));
    assert_eq!(t.wait_state("b"), WaitState::Failed("Job cancelled".to_string()));
    assert_eq!(t.wait_state("zzz"), WaitState::Failed("Job not found: zzz".to_string()));
    t.enqueue(entry("c"));
    assert_eq!(t.get_jobs_by_status(JobStatus::Queued).len(), 1);
    let failed = t.finish_job_at("c", RunOutcome::Failure("boom".to_string()), false, 9).unwrap();
    assert_eq!(failed.error, Some("boom".to_string()));
    assert_eq!(t.wait_state("c"), WaitState::Failed("boom".to_string()));
    t.enqueue(entry("d"));
    assert_eq!(t.clear_completed(), 3);
    assert_eq!(t.get_jobs().len(), 1);
    assert_eq!(t.get_job("d").unwrap().status, JobStatus::Queued);
    assert_eq!(t.wait_state("d"), WaitState::Pending);
    // the pipeline does not start jobs while stopped or full
    assert_eq!(t.next_to_start(false, 0, 1), None);
    assert_eq!(t.next_to_start(true, 1, 1), None);
    let ok = t.finish_job_at("d", RunOutcome::Success, false, 10).unwrap();
    assert_eq!(ok.status, JobStatus::Completed);
    assert_eq!(t.wait_state("d"), WaitState::Completed);
}

#[test]
fn progress_estimates() {
    let p = estimate_progress(1, 100, 3, "u".to_string(), 0);
    assert_eq!((p.queue_length, p.total_discovered, p.total_pages), (3, 4, 4));
    assert_eq!(p.phase, CrawlPhase::Discovering);
    assert!(p.is_discovering);
    let q = estimate_progress(6, 100, 3, "u".to_string(), 2);
    assert_eq!((q.queue_length, q.total_discovered), (2, 8));
    assert_eq!(q.phase, CrawlPhase::Scraping);
    let r = estimate_progress(4, 5, 3, "u".to_string(), 1);
    assert_eq!((r.queue_length, r.total_discovered, r.total_pages), (8, 12, 5));
    let i = initial_job_progress(10, 2, "s".to_string());
    assert_eq!((i.total_pages, i.pages_scraped), (1, 0));
    assert!(should_report(5, 0));
    assert!(!should_report(6, 49));
    assert!(should_report(6, 50));
}
