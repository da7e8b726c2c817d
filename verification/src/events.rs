//! Event types for the event bus system, and the pipeline's job records.
use vstd::prelude::*;

use crate::types::VersionStatus;

verus! {

/// Event type enum.
#[derive(Debug, Clone, Copy, PartialEq, Eq, Structural, Hash)]
pub enum EventType {
    /// Job status changed.
    JobStatusChange,
    /// Job progress updated.
    JobProgress,
    /// Library changed (added/removed).
    LibraryChange,
    /// Job list changed (cleared).
    JobListChange,
}

/// Job status for pipeline jobs.
#[derive(Debug, Clone, Copy, PartialEq, Eq, Structural, Hash)]
pub enum JobStatus {
    /// Job is queued waiting to run.
    Queued,
    /// Job is currently running.
    Running,
    /// Job completed successfully.
    Completed,
    /// Job failed with an error.
    Failed,
    /// Job is being cancelled.
    Cancelling,
    /// Job was cancelled.
    Cancelled,
}

/// The version status that a job status is recorded as: a job being cancelled
/// still counts as running until it is cancelled.
pub open spec fn version_status_of(s: JobStatus) -> VersionStatus {
    match s {
        JobStatus::Queued => VersionStatus::Queued,
        JobStatus::Running => VersionStatus::Running,
        JobStatus::Completed => VersionStatus::Completed,
        JobStatus::Failed => VersionStatus::Failed,
        JobStatus::Cancelled => VersionStatus::Cancelled,
        JobStatus::Cancelling => VersionStatus::Running,
    }
}

impl From<JobStatus> for VersionStatus {
    fn from(status: JobStatus) -> (r: Self) {
        match status {
            JobStatus::Queued => VersionStatus::Queued,
            JobStatus::Running => VersionStatus::Running,
            JobStatus::Completed => VersionStatus::Completed,
            JobStatus::Failed => VersionStatus::Failed,
            JobStatus::Cancelled => VersionStatus::Cancelled,
            JobStatus::Cancelling => VersionStatus::Running,
        }
    }
}

impl vstd::std_specs::convert::FromSpecImpl<JobStatus> for VersionStatus {
    open spec fn obeys_from_spec() -> bool {
        true
    }

    open spec fn from_spec(v: JobStatus) -> VersionStatus {
        version_status_of(v)
    }
}

/// Crawl phase enum.
#[derive(Debug, Clone, Copy, PartialEq, Eq, Structural)]
pub enum CrawlPhase {
    /// Discovering pages (exploration phase).
    Discovering,
    /// Scraping content (actual crawling).
    Scraping,
}

impl Default for CrawlPhase {
    fn default() -> (r: Self)
        ensures
            r == CrawlPhase::Discovering,
    {
        CrawlPhase::Discovering
    }
}

/// Progress information for a running job.
#[derive(Debug, Clone)]
pub struct JobProgress {
    /// Current phase of the crawl.
    pub phase: CrawlPhase,
    /// Number of pages scraped so far.
    pub pages_scraped: usize,
    /// Total pages discovered (including queue).
    pub total_discovered: usize,
    /// Pages currently in queue waiting to be processed.
    pub queue_length: usize,
    /// Maximum pages limit.
    pub max_pages: usize,
    /// Total pages to scrape (effective total, min of discovered and max_pages).
    pub total_pages: usize,
    /// Number of pages explored/during discovery phase.
    pub pages_explored: usize,
    /// Current URL being processed.
    pub current_url: Option<String>,
    /// Current depth.
    pub depth: usize,
    /// Maximum depth.
    pub max_depth: usize,
    /// Whether the total is still being discovered.
    pub is_discovering: bool,
}

/// The total page count that a progress record read without one gets.
pub fn default_total_pages() -> (r: usize)
    ensures
        r == 1,
{
    1
}

/// Pipeline job representation.
#[derive(Debug, Clone)]
pub struct Job {
    /// Unique identifier for the job.
    pub id: String,
    /// Library name.
    pub library: String,
    /// Version (empty string for unversioned).
    pub version: String,
    /// Current status.
    pub status: JobStatus,
    /// Progress information.
    pub progress: Option<JobProgress>,
    /// Error message if failed.
    pub error: Option<String>,
    /// Source URL.
    pub source_url: Option<String>,
    /// Creation timestamp (milliseconds since epoch).
    pub created_at: i64,
    /// Start timestamp (milliseconds since epoch).
    pub started_at: Option<i64>,
    /// Finish timestamp (milliseconds since epoch).
    pub finished_at: Option<i64>,
}

/// The current time in milliseconds since the Unix epoch, from
/// `chrono::Utc::now` and `DateTime::timestamp_millis`.
///
/// Trusted for nothing: the clock can read anything.
#[verifier::external_body]
pub(crate) fn now_millis() -> (r: i64) {
    chrono::Utc::now().timestamp_millis()
}

impl Job {
    /// Create a new queued job created at `created_at`.
    pub fn new_at(
        id: String,
        library: String,
        version: String,
        source_url: Option<String>,
        created_at: i64,
    ) -> (r: Self)
        ensures
            r.id == id,
            r.library == library,
            r.version == version,
            r.source_url == source_url,
            r.status == JobStatus::Queued,
            r.progress is None,
            r.error is None,
            r.created_at == created_at,
            r.started_at is None,
            r.finished_at is None,
    {
        Job {
            id,
            library,
            version,
            status: JobStatus::Queued,
            progress: None,
            error: None,
            source_url,
            created_at,
            started_at: None,
            finished_at: None,
        }
    }

    /// Create a new job with the current timestamp.
    pub fn new(id: String, library: String, version: String, source_url: Option<String>) -> (r:
        Self)
        ensures
            r.id == id,
            r.library == library,
            r.version == version,
            r.source_url == source_url,
            r.status == JobStatus::Queued,
            r.progress is None,
            r.error is None,
            r.started_at is None,
            r.finished_at is None,
    {
        Job::new_at(id, library, version, source_url, now_millis())
    }
}

/// Event payload types.
#[derive(Debug, Clone)]
pub enum EventPayload {
    /// Job status changed.
    JobStatusChange(Job),
    /// Job progress updated.
    JobProgress { job: Job, progress: JobProgress },
    /// Library changed.
    LibraryChange,
    /// Job list changed.
    JobListChange,
}

/// Event with type and payload.
#[derive(Debug, Clone)]
pub struct Event {
    /// Event type.
    pub event_type: EventType,
    /// Event payload.
    pub payload: EventPayload,
}

/// The event type that goes with a payload.
pub open spec fn payload_type(p: EventPayload) -> EventType {
    match p {
        EventPayload::JobStatusChange(_) => EventType::JobStatusChange,
        EventPayload::JobProgress { .. } => EventType::JobProgress,
        EventPayload::LibraryChange => EventType::LibraryChange,
        EventPayload::JobListChange => EventType::JobListChange,
    }
}

impl Event {
    /// Create a job status change event.
    pub fn job_status_change(job: Job) -> (r: Self)
        ensures
            r.event_type == EventType::JobStatusChange,
            r.payload == EventPayload::JobStatusChange(job),
            payload_type(r.payload) == r.event_type,
    {
        Event { event_type: EventType::JobStatusChange, payload: EventPayload::JobStatusChange(job) }
    }

    /// Create a job progress event.
    pub fn job_progress(job: Job, progress: JobProgress) -> (r: Self)
        ensures
            r.event_type == EventType::JobProgress,
            r.payload == (EventPayload::JobProgress { job, progress }),
            payload_type(r.payload) == r.event_type,
    {
        Event { event_type: EventType::JobProgress, payload: EventPayload::JobProgress { job, progress } }
    }

    /// Create a library change event.
    pub fn library_change() -> (r: Self)
        ensures
            r.event_type == EventType::LibraryChange,
            r.payload == EventPayload::LibraryChange,
            payload_type(r.payload) == r.event_type,
    {
        Event { event_type: EventType::LibraryChange, payload: EventPayload::LibraryChange }
    }

    /// Create a job list change event.
    pub fn job_list_change() -> (r: Self)
        ensures
            r.event_type == EventType::JobListChange,
            r.payload == EventPayload::JobListChange,
            payload_type(r.payload) == r.event_type,
    {
        Event { event_type: EventType::JobListChange, payload: EventPayload::JobListChange }
    }
}

} // verus!
