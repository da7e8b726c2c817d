use docs_mcp_rs::config::{Config, EmbeddingProvider};
use docs_mcp_rs::events::{CrawlPhase, Event, EventType, Job, JobProgress, JobStatus};
use docs_mcp_rs::types::VersionStatus;
use std::path::PathBuf;

#[test]
fn test_default_config() {
    let config = Config::default();
    assert_eq!(PathBuf::from(&config.store_path), PathBuf::from("./data/docs.db"));
    assert_eq!(config.server.host, "127.0.0.1");
    assert_eq!(config.server.port, 3000);
    assert_eq!(config.scraper.max_pages, 1000);
    assert_eq!(config.splitter.chunk_size, 1000);
    assert_eq!(config.embedding.provider, EmbeddingProvider::OpenAI);
}

#[test]
fn test_version_status_display() {
    assert_eq!(VersionStatus::NotIndexed.to_string(), "not_indexed");
    assert_eq!(VersionStatus::Completed.to_string(), "completed");
}

#[test]
fn test_version_status_from_str() {
    assert_eq!(
        "not_indexed".parse::<VersionStatus>().unwrap(),
        VersionStatus::NotIndexed
    );
    assert_eq!(
        "completed".parse::<VersionStatus>().unwrap(),
        VersionStatus::Completed
    );
}

#[test]
fn test_job_status_to_version_status() {
    assert_eq!(VersionStatus::from(JobStatus::Queued), VersionStatus::Queued);
    assert_eq!(VersionStatus::from(JobStatus::Running), VersionStatus::Running);
    assert_eq!(VersionStatus::from(JobStatus::Completed), VersionStatus::Completed);
    assert_eq!(VersionStatus::from(JobStatus::Failed), VersionStatus::Failed);
    assert_eq!(VersionStatus::from(JobStatus::Cancelled), VersionStatus::Cancelled);
    assert_eq!(VersionStatus::from(JobStatus::Cancelling), VersionStatus::Running);
}

#[test]
fn test_event_creation() {
    let job = Job::new(
        "test-id".to_string(),
        "test-lib".to_string(),
        "1.0.0".to_string(),
        Some("https://example.com".to_string()),
    );

    let event = Event::job_status_change(job.clone());
    assert_eq!(event.event_type, EventType::JobStatusChange);

    let progress = JobProgress {
        phase: CrawlPhase::Scraping,
        pages_scraped: 10,
        total_pages: 100,
        total_discovered: 150,
        queue_length: 50,
        max_pages: 100,
        pages_explored: 100,
        current_url: Some("https://example.com/page".to_string()),
        depth: 2,
        max_depth: 5,
        is_discovering: false,
    };

    let event = Event::job_progress(job, progress);
    assert_eq!(event.event_type, EventType::JobProgress);
}

#[test]
fn test_worker_creation() {
    // The worker's state is the job record it is handed; a new job is queued.
    let job = Job::new("id".to_string(), "lib".to_string(), String::new(), None);
    assert_eq!(job.status, JobStatus::Queued);
}
