//! The pipeline's job table: the jobs known, the queue of jobs waiting to run,
//! and the decisions on them (start, cancel, finish, clear); and the progress
//! reported while a job runs.
//!
//! Running a job (crawling, storing, embedding) and telling listeners about
//! changes happen outside; the table says what changed.
use vstd::prelude::*;

use std::collections::VecDeque;

use crate::events::{now_millis, CrawlPhase, Job, JobProgress, JobStatus};
use crate::types::{same_options, ScraperOptions};

verus! {

broadcast use vstd::string::group_string_axioms;

/// A job and what it runs on.
pub struct JobEntry {
    /// The job as reported.
    pub job: Job,
    /// Source URL for the job.
    pub source_url: String,
    /// Scraper options.
    pub options: ScraperOptions,
}

/// The identifier of an entry.
pub open spec fn entry_id(e: JobEntry) -> Seq<char> {
    e.job.id@
}

/// Index of the entry with identifier `id`, if any.
pub open spec fn index_of(es: Seq<JobEntry>, id: Seq<char>) -> Option<int> {
    if exists|i: int| 0 <= i < es.len() && entry_id(es[i]) == id {
        Some(choose|i: int| 0 <= i < es.len() && entry_id(es[i]) == id)
    } else {
        None
    }
}

/// Whether a job with status `s` has finished: completed, failed or cancelled.
pub open spec fn is_finished(s: JobStatus) -> bool {
    s == JobStatus::Completed || s == JobStatus::Failed || s == JobStatus::Cancelled
}

/// The entries of `es` whose jobs have not finished, in order.
pub open spec fn unfinished(es: Seq<JobEntry>) -> Seq<JobEntry>
    decreases es.len(),
{
    if es.len() == 0 {
        Seq::empty()
    } else if is_finished(es.last().job.status) {
        unfinished(es.drop_last())
    } else {
        unfinished(es.drop_last()).push(es.last())
    }
}

/// The jobs of `es` with status `s`, in order.
pub open spec fn jobs_with_status(es: Seq<JobEntry>, s: JobStatus) -> Seq<Job>
    decreases es.len(),
{
    if es.len() == 0 {
        Seq::empty()
    } else if es.last().job.status == s {
        jobs_with_status(es.drop_last(), s).push(es.last().job)
    } else {
        jobs_with_status(es.drop_last(), s)
    }
}

/// The jobs of `es`, in order.
pub open spec fn jobs_of(es: Seq<JobEntry>) -> Seq<Job> {
    es.map_values(|e: JobEntry| e.job)
}

/// `q` without the identifier `id`.
pub open spec fn without_id(q: Seq<Seq<char>>, id: Seq<char>) -> Seq<Seq<char>>
    decreases q.len(),
{
    if q.len() == 0 {
        Seq::empty()
    } else if q.last() == id {
        without_id(q.drop_last(), id)
    } else {
        without_id(q.drop_last(), id).push(q.last())
    }
}

/// The job table as plain values: the entries, and the identifiers of the
/// jobs waiting to run, first in first out.
pub struct TableView {
    pub entries: Seq<JobEntry>,
    pub queue: Seq<Seq<char>>,
}

/// No two entries have the same identifier.
pub open spec fn table_wf(t: TableView) -> bool {
    forall|i: int, j: int|
        0 <= i < j < t.entries.len() ==> entry_id(#[trigger] t.entries[i]) != entry_id(
            #[trigger] t.entries[j],
        )
}

/// What cancelling a job did.
#[derive(Debug, Clone)]
pub enum CancelOutcome {
    /// The job was waiting: it is cancelled and out of the queue.
    Cancelled(Job),
    /// The job is running: it is marked as being cancelled, and its run is to be stopped.
    Signalled,
    /// The job is in a state that cannot be cancelled.
    NotCancellable(JobStatus),
    /// There is no such job.
    NotFound,
}

/// How a job's run ended.
#[derive(Debug, Clone)]
pub enum RunOutcome {
    /// The run succeeded.
    Success,
    /// The run failed with this message.
    Failure(String),
}

/// What waiting on a job finds.
#[derive(Debug, Clone, PartialEq, Eq)]
pub enum WaitState {
    /// The job completed.
    Completed,
    /// The job failed, or was cancelled, with this message.
    Failed(String),
    /// The job has not finished: keep waiting.
    Pending,
}

/// A copy of an optional string.
fn copy_opt(s: &Option<String>) -> (r: Option<String>)
    ensures
        r == *s,
{
    match s {
        Some(x) => Some(x.clone()),
        None => None,
    }
}

/// A copy of a progress record.
fn copy_progress(p: &JobProgress) -> (r: JobProgress)
    ensures
        r == *p,
{
    JobProgress {
        phase: p.phase,
        pages_scraped: p.pages_scraped,
        total_discovered: p.total_discovered,
        queue_length: p.queue_length,
        max_pages: p.max_pages,
        total_pages: p.total_pages,
        pages_explored: p.pages_explored,
        current_url: copy_opt(&p.current_url),
        depth: p.depth,
        max_depth: p.max_depth,
        is_discovering: p.is_discovering,
    }
}

/// A copy of a job.
pub fn copy_job(j: &Job) -> (r: Job)
    ensures
        r == *j,
{
    Job {
        id: j.id.clone(),
        library: j.library.clone(),
        version: j.version.clone(),
        status: j.status,
        progress: match &j.progress {
            Some(p) => Some(copy_progress(p)),
            None => None,
        },
        error: copy_opt(&j.error),
        source_url: copy_opt(&j.source_url),
        created_at: j.created_at,
        started_at: j.started_at,
        finished_at: j.finished_at,
    }
}

/// What cancelling the job `id` at time `now` does: `t` is the table before,
/// `n` the table after and `r` the outcome. A waiting job is cancelled at `now`
/// and leaves the queue; a running one is marked as being cancelled; others are
/// left alone.
pub open spec fn cancelled_at(t: TableView, n: TableView, id: Seq<char>, now: i64, r: CancelOutcome) -> bool {
    match index_of(t.entries, id) {
        None => r is NotFound && n == t,
        Some(k) => {
            let e = t.entries[k];
            match e.job.status {
                JobStatus::Queued => {
                    let j = Job { status: JobStatus::Cancelled, finished_at: Some(now), ..e.job };
                    &&& r == CancelOutcome::Cancelled(j)
                    &&& n.entries == t.entries.update(k, JobEntry { job: j, ..e })
                    &&& n.queue == without_id(t.queue, id)
                },
                JobStatus::Running => {
                    let j = Job { status: JobStatus::Cancelling, ..e.job };
                    &&& r is Signalled
                    &&& n.entries == t.entries.update(k, JobEntry { job: j, ..e })
                    &&& n.queue == t.queue
                },
                _ => r == CancelOutcome::NotCancellable(e.job.status) && n == t,
            }
        },
    }
}

/// The pipeline's job table.
pub struct JobTable {
    entries: Vec<JobEntry>,
    queue: VecDeque<String>,
}

impl View for JobTable {
    type V = TableView;

    closed spec fn view(&self) -> TableView {
        TableView { entries: self.entries@, queue: self.queue@.map_values(|s: String| s@) }
    }
}

proof fn lemma_index_of(es: Seq<JobEntry>, id: Seq<char>, k: int)
    requires
        forall|i: int, j: int|
            0 <= i < j < es.len() ==> entry_id(#[trigger] es[i]) != entry_id(#[trigger] es[j]),
        0 <= k < es.len(),
        entry_id(es[k]) == id,
    ensures
        index_of(es, id) == Some(k),
{
}

impl JobTable {
    /// An empty table.
    pub fn new() -> (r: Self)
        ensures
            r@.entries.len() == 0,
            r@.queue.len() == 0,
            table_wf(r@),
    {
        let r = JobTable { entries: Vec::new(), queue: VecDeque::new() };
        assert(r@.queue =~= Seq::<Seq<char>>::empty());
        r
    }

    /// Index of the entry with identifier `id`.
    fn find(&self, id: &str) -> (r: Option<usize>)
        requires
            table_wf(self@),
        ensures
            match r {
                Some(k) => index_of(self@.entries, id@) == Some(k as int),
                None => index_of(self@.entries, id@) is None,
            },
    {
        let mut i: usize = 0;
        while i < self.entries.len()
            invariant
                i <= self.entries.len(),
                table_wf(self@),
                forall|k: int| 0 <= k < i ==> entry_id(self@.entries[k]) != id@,
            decreases self.entries.len() - i,
        {
            if crate::text::str_eq(self.entries[i].job.id.as_str(), id) {
                proof {
                    lemma_index_of(self@.entries, id@, i as int);
                }
                return Some(i);
            }
            i = i + 1;
        }
        None
    }

    /// Add a job and queue it to run; a job with the same identifier is replaced.
    pub fn enqueue(&mut self, entry: JobEntry)
        requires
            table_wf(old(self)@),
        ensures
            table_wf(final(self)@),
            final(self)@.queue == old(self)@.queue.push(entry.job.id@),
            match index_of(old(self)@.entries, entry.job.id@) {
                Some(k) => final(self)@.entries == old(self)@.entries.update(k, entry),
                None => final(self)@.entries == old(self)@.entries.push(entry),
            },
            index_of(final(self)@.entries, entry.job.id@) is Some,
    {
        let id = entry.job.id.clone();
        let ghost e = entry;
        let ghost old_q = self@.queue;
        match self.find(id.as_str()) {
            Some(k) => {
                self.entries.set(k, entry);
                proof {
                    let es = self@.entries;
                    assert forall|i: int, j: int| 0 <= i < j < es.len() implies entry_id(#[trigger] es[i]) != entry_id(#[trigger] es[j]) by {
                        assert(old(self)@.entries[i] == es[i] || i == k);
                        assert(old(self)@.entries[j] == es[j] || j == k);
                    }
                    lemma_index_of(es, id@, k as int);
                }
            },
            None => {
                self.entries.push(entry);
                proof {
                    let es = self@.entries;
                    assert forall|i: int, j: int| 0 <= i < j < es.len() implies entry_id(#[trigger] es[i]) != entry_id(#[trigger] es[j]) by {
                        if j == es.len() - 1 {
                            assert(es[i] == old(self)@.entries[i]);
                        } else {
                            assert(es[i] == old(self)@.entries[i] && es[j] == old(self)@.entries[j]);
                        }
                    }
                    lemma_index_of(es, id@, es.len() - 1);
                }
            },
        }
        self.queue.push_back(id);
        assert(self@.queue =~= old_q.push(e.job.id@));
    }

    /// Get a job by ID.
    pub fn get_job(&self, job_id: &str) -> (r: Option<Job>)
        requires
            table_wf(self@),
        ensures
            match index_of(self@.entries, job_id@) {
                Some(k) => r == Some(self@.entries[k].job),
                None => r is None,
            },
    {
        match self.find(job_id) {
            Some(k) => Some(copy_job(&self.entries[k].job)),
            None => None,
        }
    }

    /// The source URL and scraper options of a job.
    pub fn job_input(&self, job_id: &str) -> (r: Option<(String, ScraperOptions)>)
        requires
            table_wf(self@),
        ensures
            match index_of(self@.entries, job_id@) {
                Some(k) => r matches Some((u, o)) && u == self@.entries[k].source_url
                    && same_options(o, self@.entries[k].options),
                None => r is None,
            },
    {
        match self.find(job_id) {
            Some(k) => Some((self.entries[k].source_url.clone(), self.entries[k].options.copy())),
            None => None,
        }
    }

    /// Get all jobs.
    pub fn get_jobs(&self) -> (r: Vec<Job>)
        ensures
            r@ == jobs_of(self@.entries),
    {
        let mut out: Vec<Job> = Vec::new();
        let mut i: usize = 0;
        while i < self.entries.len()
            invariant
                i <= self.entries.len(),
                out@ == jobs_of(self@.entries).take(i as int),
            decreases self.entries.len() - i,
        {
            out.push(copy_job(&self.entries[i].job));
            assert(out@ =~= jobs_of(self@.entries).take(i + 1));
            i = i + 1;
        }
        assert(jobs_of(self@.entries).take(self.entries.len() as int) =~= jobs_of(self@.entries));
        out
    }

    /// Get jobs by status.
    pub fn get_jobs_by_status(&self, status: JobStatus) -> (r: Vec<Job>)
        ensures
            r@ == jobs_with_status(self@.entries, status),
    {
        let ghost es = self@.entries;
        let mut out: Vec<Job> = Vec::new();
        let mut i: usize = 0;
        assert(es.take(0) =~= Seq::<JobEntry>::empty());
        while i < self.entries.len()
            invariant
                i <= self.entries.len(),
                es == self@.entries,
                out@ == jobs_with_status(es.take(i as int), status),
            decreases self.entries.len() - i,
        {
            assert(es.take(i + 1).drop_last() =~= es.take(i as int));
            if self.entries[i].job.status == status {
                out.push(copy_job(&self.entries[i].job));
            }
            i = i + 1;
        }
        assert(es.take(self.entries.len() as int) =~= es);
        out
    }

    /// Remove `id` from the queue.
    fn unqueue(&mut self, id: &str)
        ensures
            final(self)@.entries == old(self)@.entries,
            final(self)@.queue == without_id(old(self)@.queue, id@),
    {
        let ghost q0 = self@.queue;
        let mut kept: VecDeque<String> = VecDeque::new();
        let n = self.queue.len();
        let mut i: usize = 0;
        assert(q0.take(0) =~= Seq::<Seq<char>>::empty());
        assert(kept@.map_values(|s: String| s@) =~= Seq::<Seq<char>>::empty());
        while i < n
            invariant
                i <= n,
                n == q0.len(),
                self@.entries == old(self)@.entries,
                self@.queue == q0.skip(i as int),
                q0 == old(self)@.queue,
                kept@.map_values(|s: String| s@) == without_id(q0.take(i as int), id@),
            decreases n - i,
        {
            let ghost before = self@.queue;
            let ghost bq = self.queue@;
            let ghost kv = kept@.map_values(|s: String| s@);
            assert(before.len() == n - i);
            assert(bq.len() == before.len());
            match self.queue.pop_front() {
                Some(x) => {
                    assert(before[0] == x@);
                    assert(self.queue@ =~= bq.subrange(1, bq.len() as int));
                    assert(self@.queue =~= before.drop_first());
                    assert(self@.queue =~= q0.skip(i + 1));
                    assert(q0.take(i + 1).drop_last() =~= q0.take(i as int));
                    assert(q0.take(i + 1).last() == q0[i as int]);
                    assert(q0[i as int] == before[0]);
                    if !crate::text::str_eq(x.as_str(), id) {
                        kept.push_back(x);
                        assert(kept@.map_values(|s: String| s@) =~= kv.push(q0[i as int]));
                    }
                },
                None => {
                    assert(false);
                },
            }
            i = i + 1;
        }
        assert(q0.take(n as int) =~= q0);
        self.queue = kept;
    }

    /// Cancel a job: a waiting job is cancelled at time `now` and leaves the
    /// queue; a running one is marked as being cancelled; others are left alone.
    pub fn cancel_job_at(&mut self, job_id: &str, now: i64) -> (r: CancelOutcome)
        requires
            table_wf(old(self)@),
        ensures
            table_wf(final(self)@),
            cancelled_at(old(self)@, final(self)@, job_id@, now, r),
    {
        match self.find(job_id) {
            None => CancelOutcome::NotFound,
            Some(k) => {
                let status = self.entries[k].job.status;
                match status {
                    JobStatus::Queued => {
                        self.unqueue(job_id);
                        let mut e = self.entries.remove(k);
                        e.job.status = JobStatus::Cancelled;
                        e.job.finished_at = Some(now);
                        let j = copy_job(&e.job);
                        self.entries.insert(k, e);
                        proof {
                            assert(self@.entries =~= old(self)@.entries.update(k as int, self@.entries[k as int]));
                            let es = self@.entries;
                            assert forall|i: int, j: int| 0 <= i < j < es.len() implies entry_id(#[trigger] es[i]) != entry_id(#[trigger] es[j]) by {
                                assert(old(self)@.entries[i] == es[i] || i == k);
                                assert(old(self)@.entries[j] == es[j] || j == k);
                            }
                        }
                        CancelOutcome::Cancelled(j)
                    },
                    JobStatus::Running => {
                        let mut e = self.entries.remove(k);
                        e.job.status = JobStatus::Cancelling;
                        self.entries.insert(k, e);
                        proof {
                            assert(self@.entries =~= old(self)@.entries.update(k as int, self@.entries[k as int]));
                            let es = self@.entries;
                            assert forall|i: int, j: int| 0 <= i < j < es.len() implies entry_id(#[trigger] es[i]) != entry_id(#[trigger] es[j]) by {
                                assert(old(self)@.entries[i] == es[i] || i == k);
                                assert(old(self)@.entries[j] == es[j] || j == k);
                            }
                        }
                        CancelOutcome::Signalled
                    },
                    _ => CancelOutcome::NotCancellable(status),
                }
            },
        }
    }

    /// Cancel a job now (see `cancel_job_at`); the time is read from the clock.
    pub fn cancel_job(&mut self, job_id: &str) -> (r: CancelOutcome)
        requires
            table_wf(old(self)@),
        ensures
            table_wf(final(self)@),
            exists|now: i64| cancelled_at(old(self)@, final(self)@, job_id@, now, r),
    {
        let now = now_millis();
        self.cancel_job_at(job_id, now)
    }

    /// Clear finished (completed, failed or cancelled) jobs; returns how many
    /// were removed.
    pub fn clear_completed(&mut self) -> (r: usize)
        requires
            table_wf(old(self)@),
        ensures
            table_wf(final(self)@),
            final(self)@.entries == unfinished(old(self)@.entries),
            final(self)@.queue == old(self)@.queue,
            r == old(self)@.entries.len() - final(self)@.entries.len(),
    {
        let ghost es = self@.entries;
        let mut kept: Vec<JobEntry> = Vec::new();
        let mut removed: usize = 0;
        let mut old_entries: Vec<JobEntry> = Vec::new();
        std::mem::swap(&mut old_entries, &mut self.entries);
        let n = old_entries.len();
        let mut i: usize = 0;
        proof {
            lemma_unfinished_len(es.take(0));
        }
        assert(es.take(0) =~= Seq::<JobEntry>::empty());
        while i < n
            invariant
                i <= n,
                n == es.len(),
                old_entries@ == es.skip(i as int),
                kept@ == unfinished(es.take(i as int)),
                removed + kept.len() == i,
                self@.queue == old(self)@.queue,
                es == old(self)@.entries,
            decreases n - i,
        {
            let ghost before = old_entries@;
            let e = old_entries.remove(0);
            assert(before[0] == es[i as int]);
            assert(old_entries@ =~= es.skip(i + 1));
            assert(es.take(i + 1).drop_last() =~= es.take(i as int));
            assert(es.take(i + 1).last() == es[i as int]);
            let st = e.job.status;
            if st == JobStatus::Completed || st == JobStatus::Failed || st == JobStatus::Cancelled {
                removed = removed + 1;
            } else {
                kept.push(e);
            }
            i = i + 1;
        }
        assert(es.take(n as int) =~= es);
        self.entries = kept;
        proof {
            lemma_unfinished_sub(es);
            lemma_unfinished_len(es);
            let ks = self@.entries;
            assert forall|a: int, b: int| 0 <= a < b < ks.len() implies entry_id(#[trigger] ks[a]) != entry_id(#[trigger] ks[b]) by {
                let (ia, ib) = lemma_unfinished_indices(es, a, b);
            }
        }
        removed
    }

    /// The next job to start, taken off the queue: only while the pipeline runs
    /// and fewer than `concurrency` jobs are running.
    pub fn next_to_start(&mut self, is_running: bool, running_count: usize, concurrency: usize) -> (r: Option<String>)
        ensures
            final(self)@.entries == old(self)@.entries,
            (!is_running || running_count >= concurrency || old(self)@.queue.len() == 0) ==> r is None && final(self)@ == old(self)@,
            (is_running && running_count < concurrency && old(self)@.queue.len() > 0) ==> (r matches Some(id) && id@ == old(self)@.queue[0] && final(self)@.queue == old(self)@.queue.drop_first()),
    {
        if !is_running || running_count >= concurrency {
            return None;
        }
        let ghost q = self@.queue;
        let r = self.queue.pop_front();
        proof {
            if q.len() > 0 {
                assert(self@.queue =~= q.drop_first());
            }
        }
        r
    }

    /// Mark a job as running from time `now`; returns the job as it now is.
    pub fn start_job_at(&mut self, job_id: &str, now: i64) -> (r: Option<Job>)
        requires
            table_wf(old(self)@),
        ensures
            table_wf(final(self)@),
            final(self)@.queue == old(self)@.queue,
            match index_of(old(self)@.entries, job_id@) {
                None => r is None && final(self)@ == old(self)@,
                Some(k) => {
                    let e = old(self)@.entries[k];
                    let j = Job { status: JobStatus::Running, started_at: Some(now), ..e.job };
                    &&& r == Some(j)
                    &&& final(self)@.entries == old(self)@.entries.update(k, JobEntry { job: j, ..e })
                },
            },
    {
        match self.find(job_id) {
            None => None,
            Some(k) => {
                let mut e = self.entries.remove(k);
                e.job.status = JobStatus::Running;
                e.job.started_at = Some(now);
                let j = copy_job(&e.job);
                self.entries.insert(k, e);
                proof {
                    assert(self@.entries =~= old(self)@.entries.update(k as int, self@.entries[k as int]));
                    let es = self@.entries;
                    assert forall|i: int, j: int| 0 <= i < j < es.len() implies entry_id(#[trigger] es[i]) != entry_id(#[trigger] es[j]) by {
                        assert(old(self)@.entries[i] == es[i] || i == k);
                        assert(old(self)@.entries[j] == es[j] || j == k);
                    }
                }
                Some(j)
            },
        }
    }

    /// Record how a job's run ended at time `now`: completed on success;
    /// cancelled if its run was stopped; else failed with the message.
    pub fn finish_job_at(&mut self, job_id: &str, outcome: RunOutcome, cancelled: bool, now: i64) -> (r: Option<Job>)
        requires
            table_wf(old(self)@),
        ensures
            table_wf(final(self)@),
            final(self)@.queue == old(self)@.queue,
            match index_of(old(self)@.entries, job_id@) {
                None => r is None && final(self)@ == old(self)@,
                Some(k) => {
                    let e = old(self)@.entries[k];
                    let j = match outcome {
                        RunOutcome::Success => Job { status: JobStatus::Completed, finished_at: Some(now), ..e.job },
                        RunOutcome::Failure(m) => if cancelled {
                            Job { status: JobStatus::Cancelled, finished_at: Some(now), ..e.job }
                        } else {
                            Job { status: JobStatus::Failed, error: Some(m), finished_at: Some(now), ..e.job }
                        },
                    };
                    &&& r == Some(j)
                    &&& final(self)@.entries == old(self)@.entries.update(k, JobEntry { job: j, ..e })
                },
            },
    {
        match self.find(job_id) {
            None => None,
            Some(k) => {
                let mut e = self.entries.remove(k);
                match outcome {
                    RunOutcome::Success => {
                        e.job.status = JobStatus::Completed;
                    },
                    RunOutcome::Failure(m) => {
                        if cancelled {
                            e.job.status = JobStatus::Cancelled;
                        } else {
                            e.job.status = JobStatus::Failed;
                            e.job.error = Some(m);
                        }
                    },
                }
                e.job.finished_at = Some(now);
                let j = copy_job(&e.job);
                self.entries.insert(k, e);
                proof {
                    assert(self@.entries =~= old(self)@.entries.update(k as int, self@.entries[k as int]));
                    let es = self@.entries;
                    assert forall|i: int, j: int| 0 <= i < j < es.len() implies entry_id(#[trigger] es[i]) != entry_id(#[trigger] es[j]) by {
                        assert(old(self)@.entries[i] == es[i] || i == k);
                        assert(old(self)@.entries[j] == es[j] || j == k);
                    }
                }
                Some(j)
            },
        }
    }

    /// Set the progress of a job; returns the job as it now is.
    pub fn set_progress(&mut self, job_id: &str, progress: JobProgress) -> (r: Option<Job>)
        requires
            table_wf(old(self)@),
        ensures
            table_wf(final(self)@),
            final(self)@.queue == old(self)@.queue,
            match index_of(old(self)@.entries, job_id@) {
                None => r is None && final(self)@ == old(self)@,
                Some(k) => {
                    let e = old(self)@.entries[k];
                    let j = Job { progress: Some(progress), ..e.job };
                    &&& r == Some(j)
                    &&& final(self)@.entries == old(self)@.entries.update(k, JobEntry { job: j, ..e })
                },
            },
    {
        match self.find(job_id) {
            None => None,
            Some(k) => {
                let mut e = self.entries.remove(k);
                e.job.progress = Some(progress);
                let j = copy_job(&e.job);
                self.entries.insert(k, e);
                proof {
                    assert(self@.entries =~= old(self)@.entries.update(k as int, self@.entries[k as int]));
                    let es = self@.entries;
                    assert forall|i: int, j: int| 0 <= i < j < es.len() implies entry_id(#[trigger] es[i]) != entry_id(#[trigger] es[j]) by {
                        assert(old(self)@.entries[i] == es[i] || i == k);
                        assert(old(self)@.entries[j] == es[j] || j == k);
                    }
                }
                Some(j)
            },
        }
    }
}

proof fn lemma_unfinished_len(es: Seq<JobEntry>)
    ensures
        unfinished(es).len() <= es.len(),
    decreases es.len(),
{
    if es.len() > 0 {
        lemma_unfinished_len(es.drop_last());
    }
}

proof fn lemma_unfinished_sub(es: Seq<JobEntry>)
    ensures
        forall|a: int| 0 <= a < unfinished(es).len() ==> exists|i: int| 0 <= i < es.len() && es[i] == #[trigger] unfinished(es)[a],
    decreases es.len(),
{
    if es.len() > 0 {
        lemma_unfinished_sub(es.drop_last());
        let u0 = unfinished(es.drop_last());
        assert forall|a: int| 0 <= a < unfinished(es).len() implies exists|i: int| 0 <= i < es.len() && es[i] == #[trigger] unfinished(es)[a] by {
            if a < u0.len() {
                let i = choose|i: int| 0 <= i < es.drop_last().len() && es.drop_last()[i] == u0[a];
                assert(es[i] == u0[a]);
                assert(unfinished(es)[a] == u0[a]);
            } else {
                assert(es[es.len() - 1] == unfinished(es)[a]);
            }
        }
    }
}

/// Positions in `es` of two kept entries, in the same order.
proof fn lemma_unfinished_indices(es: Seq<JobEntry>, a: int, b: int) -> (r: (int, int))
    requires
        0 <= a < b < unfinished(es).len(),
    ensures
        0 <= r.0 < r.1 < es.len(),
        es[r.0] == unfinished(es)[a],
        es[r.1] == unfinished(es)[b],
    decreases es.len(),
{
    let u0 = unfinished(es.drop_last());
    if b < u0.len() {
        let (i, j) = lemma_unfinished_indices(es.drop_last(), a, b);
        assert(unfinished(es)[a] == u0[a] && unfinished(es)[b] == u0[b]);
        (i, j)
    } else {
        lemma_unfinished_sub(es.drop_last());
        let i = choose|i: int| 0 <= i < es.drop_last().len() && es.drop_last()[i] == u0[a];
        assert(unfinished(es)[a] == u0[a]);
        (i, es.len() - 1)
    }
}

/// What waiting on a job finds: completed; failed (with its error, or "Job
/// failed"); cancelled ("Job cancelled"); not found ("Job not found: " and the
/// identifier); or still pending.
pub open spec fn wait_state_of(t: TableView, id: Seq<char>) -> (WaitState, Option<Seq<char>>) {
    match index_of(t.entries, id) {
        None => (WaitState::Pending, Some("Job not found: "@ + id)),
        Some(k) => match t.entries[k].job.status {
            JobStatus::Completed => (WaitState::Completed, None),
            JobStatus::Failed => (
                WaitState::Pending,
                Some(
                    match t.entries[k].job.error {
                        Some(e) => e@,
                        None => "Job failed"@,
                    },
                ),
            ),
            JobStatus::Cancelled => (WaitState::Pending, Some("Job cancelled"@)),
            _ => (WaitState::Pending, None),
        },
    }
}

/// The view of a wait state: the state, with the message of a failure apart.
pub open spec fn wait_view(w: WaitState) -> (WaitState, Option<Seq<char>>) {
    match w {
        WaitState::Failed(m) => (WaitState::Pending, Some(m@)),
        other => (other, None),
    }
}

impl JobTable {
    /// What waiting on a job finds now.
    pub fn wait_state(&self, job_id: &str) -> (r: WaitState)
        requires
            table_wf(self@),
        ensures
            wait_view(r) == wait_state_of(self@, job_id@),
    {
        match self.find(job_id) {
            None => {
                let mut m = "Job not found: ".to_owned();
                m.append(job_id);
                WaitState::Failed(m)
            },
            Some(k) => match self.entries[k].job.status {
                JobStatus::Completed => WaitState::Completed,
                JobStatus::Failed => WaitState::Failed(
                    match &self.entries[k].job.error {
                        Some(e) => e.clone(),
                        None => "Job failed".to_owned(),
                    },
                ),
                JobStatus::Cancelled => WaitState::Failed("Job cancelled".to_owned()),
                _ => WaitState::Pending,
            },
        }
    }
}

/// The queue length estimated after `pages` pages were scraped: at least three
/// (twice the pages) while fewer than five were scraped, then a third of the
/// pages (at least one).
pub open spec fn estimated_queue(pages: int) -> int {
    if pages < 5 {
        if 3 > pages * 2 {
            3
        } else {
            pages * 2
        }
    } else if 1 > pages / 3 {
        1
    } else {
        pages / 3
    }
}

/// The progress reported after `pages_scraped` pages, the last at `url` and
/// `depth`: the discovery phase for the first two pages, scraping after.
pub fn estimate_progress(
    pages_scraped: usize,
    max_pages: usize,
    max_depth: usize,
    url: String,
    depth: usize,
) -> (r: JobProgress)
    requires
        pages_scraped + estimated_queue(pages_scraped as int) <= usize::MAX,
    ensures
        r.pages_scraped == pages_scraped,
        r.pages_scraped < r.total_discovered,
        r.is_discovering == (r.phase == CrawlPhase::Discovering),
        r.queue_length == estimated_queue(pages_scraped as int),
        r.total_discovered == pages_scraped + estimated_queue(pages_scraped as int),
        r.phase == (if pages_scraped < 3 {
            CrawlPhase::Discovering
        } else {
            CrawlPhase::Scraping
        }),
        r.is_discovering == (pages_scraped < 3),
        r.max_pages == max_pages,
        r.total_pages == (if r.total_discovered < max_pages {
            if r.total_discovered > 1 { r.total_discovered as int } else { 1 }
        } else {
            if max_pages > 1 { max_pages as int } else { 1 }
        }),
        r.pages_explored == r.total_discovered,
        r.current_url == Some(url),
        r.depth == depth,
        r.max_depth == max_depth,
{
    let estimated = if pages_scraped < 5 {
        if 3 > pages_scraped * 2 {
            3
        } else {
            pages_scraped * 2
        }
    } else if 1 > pages_scraped / 3 {
        1
    } else {
        pages_scraped / 3
    };
    let total_discovered = pages_scraped + estimated;
    let phase = if pages_scraped < 3 {
        CrawlPhase::Discovering
    } else {
        CrawlPhase::Scraping
    };
    let effective_total = if total_discovered < max_pages {
        total_discovered
    } else {
        max_pages
    };
    JobProgress {
        phase,
        pages_scraped,
        total_discovered,
        queue_length: estimated,
        max_pages,
        total_pages: if effective_total > 1 {
            effective_total
        } else {
            1
        },
        pages_explored: total_discovered,
        current_url: Some(url),
        depth,
        max_depth,
        is_discovering: pages_scraped < 3,
    }
}

/// The progress reported when a job starts, before any page: one page
/// discovered and being explored.
pub fn initial_job_progress(max_pages: usize, max_depth: usize, source_url: String) -> (r: JobProgress)
    ensures
        r.phase == CrawlPhase::Discovering,
        r.pages_scraped == 0,
        r.total_discovered == 1,
        r.queue_length == 1,
        r.max_pages == max_pages,
        r.total_pages == 1,
        r.pages_explored == 1,
        r.current_url == Some(source_url),
        r.depth == 0,
        r.max_depth == max_depth,
        r.is_discovering,
{
    JobProgress {
        phase: CrawlPhase::Discovering,
        pages_scraped: 0,
        total_discovered: 1,
        queue_length: 1,
        max_pages,
        total_pages: 1,
        pages_explored: 1,
        current_url: Some(source_url),
        depth: 0,
        max_depth,
        is_discovering: true,
    }
}

/// Whether a progress update is sent for the `pages_scraped`-th page: always
/// for the first five, else once at least 50 ms passed since the last one.
pub fn should_report(pages_scraped: usize, millis_since_last: u128) -> (b: bool)
    ensures
        b == (pages_scraped <= 5 || millis_since_last >= 50),
{
    pages_scraped <= 5 || millis_since_last >= 50
}

proof fn lemma_unfinished_not_finished(es: Seq<JobEntry>)
    ensures
        forall|i: int| 0 <= i < unfinished(es).len() ==> !is_finished(#[trigger] unfinished(es)[i].job.status),
    decreases es.len(),
{
    if es.len() > 0 {
        lemma_unfinished_not_finished(es.drop_last());
        let u0 = unfinished(es.drop_last());
        assert forall|i: int| 0 <= i < unfinished(es).len() implies !is_finished(#[trigger] unfinished(es)[i].job.status) by {
            if i < u0.len() {
                assert(unfinished(es)[i] == u0[i]);
            }
        }
    }
}

proof fn lemma_unfinished_keeps(es: Seq<JobEntry>, k: int)
    requires
        0 <= k < es.len(),
        !is_finished(es[k].job.status),
    ensures
        unfinished(es).contains(es[k]),
    decreases es.len(),
{
    if k < es.len() - 1 {
        lemma_unfinished_keeps(es.drop_last(), k);
        assert(es.drop_last()[k] == es[k]);
        let u0 = unfinished(es.drop_last());
        let j = choose|j: int| 0 <= j < u0.len() && u0[j] == es[k];
        assert(unfinished(es)[j] == u0[j]);
    } else {
        assert(unfinished(es)[unfinished(es).len() - 1] == es[k]);
    }
}

/// Clearing finished jobs leaves no completed, failed or cancelled job, and
/// keeps every other job.
pub proof fn law_clear_keeps_unfinished(es: Seq<JobEntry>)
    ensures
        forall|i: int| 0 <= i < unfinished(es).len() ==> !is_finished(#[trigger] unfinished(es)[i].job.status),
        forall|k: int| 0 <= k < es.len() && !is_finished(#[trigger] es[k].job.status) ==> unfinished(es).contains(es[k]),
{
    lemma_unfinished_not_finished(es);
    assert forall|k: int| 0 <= k < es.len() && !is_finished(#[trigger] es[k].job.status) implies unfinished(es).contains(es[k]) by {
        lemma_unfinished_keeps(es, k);
    }
}

/// A cancelled job leaves the queue: taking an identifier out of the queue
/// leaves none of it, and keeps the others in order.
pub proof fn law_unqueue_removes(q: Seq<Seq<char>>, id: Seq<char>)
    ensures
        !without_id(q, id).contains(id),
        forall|x: Seq<char>| x != id ==> (without_id(q, id).contains(x) <==> q.contains(x)),
    decreases q.len(),
{
    if q.len() > 0 {
        law_unqueue_removes(q.drop_last(), id);
        let w0 = without_id(q.drop_last(), id);
        let w = without_id(q, id);
        if w.contains(id) {
            let j = choose|j: int| 0 <= j < w.len() && w[j] == id;
            if j < w0.len() {
                assert(w[j] == w0[j]);
            }
        }
        assert forall|x: Seq<char>| x != id implies (w.contains(x) <==> q.contains(x)) by {
            if w.contains(x) {
                let j = choose|j: int| 0 <= j < w.len() && w[j] == x;
                if j < w0.len() {
                    assert(w[j] == w0[j]);
                    assert(w0.contains(x));
                    assert(q.drop_last().contains(x));
                    let i = choose|i: int| 0 <= i < q.drop_last().len() && q.drop_last()[i] == x;
                    assert(q.drop_last()[i] == q[i]);
                    assert(q[i] == x);
                } else {
                    assert(q[q.len() - 1] == x);
                }
            }
            if q.contains(x) {
                let i = choose|i: int| 0 <= i < q.len() && q[i] == x;
                if i < q.len() - 1 {
                    assert(q.drop_last()[i] == x);
                    assert(q.drop_last().contains(x));
                    assert(w0.contains(x));
                    let j = choose|j: int| 0 <= j < w0.len() && w0[j] == x;
                    assert(w[j] == w0[j]);
                } else {
                    assert(w[w.len() - 1] == x);
                }
            }
        }
    }
}

} // verus!
