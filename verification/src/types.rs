//! Core domain types.
use vstd::prelude::*;

use crate::text::{str_eq, chars_of};

verus! {

/// The char sequences held by a sequence of strings.
pub open spec fn strings_view(v: Seq<String>) -> Seq<Seq<char>> {
    v.map_values(|s: String| s@)
}

/// Metadata for a document chunk.
#[derive(Debug, Clone)]
pub struct ChunkMetadata {
    /// Heading level depth.
    pub level: Option<i32>,
    /// Path of headings to this chunk.
    pub path: Option<Vec<String>>,
    /// Content types (e.g., "text", "code").
    pub types: Option<Vec<String>>,
}

/// What a `ChunkMetadata` holds, as plain values.
pub struct MetaView {
    pub level: Option<int>,
    pub path: Option<Seq<Seq<char>>>,
    pub types: Option<Seq<Seq<char>>>,
}

impl View for ChunkMetadata {
    type V = MetaView;

    open spec fn view(&self) -> MetaView {
        MetaView {
            level: match self.level {
                Some(l) => Some(l as int),
                None => None,
            },
            path: match &self.path {
                Some(p) => Some(strings_view(p@)),
                None => None,
            },
            types: match &self.types {
                Some(t) => Some(strings_view(t@)),
                None => None,
            },
        }
    }
}

impl Default for ChunkMetadata {
    fn default() -> (r: Self)
        ensures
            r.level is None,
            r.path is None,
            r.types is None,
    {
        ChunkMetadata { level: None, path: None, types: None }
    }
}


/// Status of a version.
#[derive(Debug, Clone, Copy, PartialEq, Eq, Structural)]
pub enum VersionStatus {
    /// Not yet indexed.
    NotIndexed,
    /// Queued for processing.
    Queued,
    /// Currently being processed.
    Running,
    /// Processing completed successfully.
    Completed,
    /// Processing failed.
    Failed,
    /// Processing was cancelled.
    Cancelled,
    /// Currently updating.
    Updating,
}

/// The name under which a status is written and read back.
pub open spec fn status_name(s: VersionStatus) -> Seq<char> {
    match s {
        VersionStatus::NotIndexed => "not_indexed"@,
        VersionStatus::Queued => "queued"@,
        VersionStatus::Running => "running"@,
        VersionStatus::Completed => "completed"@,
        VersionStatus::Failed => "failed"@,
        VersionStatus::Cancelled => "cancelled"@,
        VersionStatus::Updating => "updating"@,
    }
}

/// The status whose name is `n`, if any.
pub open spec fn status_of_name(n: Seq<char>) -> Option<VersionStatus> {
    if n == "not_indexed"@ {
        Some(VersionStatus::NotIndexed)
    } else if n == "queued"@ {
        Some(VersionStatus::Queued)
    } else if n == "running"@ {
        Some(VersionStatus::Running)
    } else if n == "completed"@ {
        Some(VersionStatus::Completed)
    } else if n == "failed"@ {
        Some(VersionStatus::Failed)
    } else if n == "cancelled"@ {
        Some(VersionStatus::Cancelled)
    } else if n == "updating"@ {
        Some(VersionStatus::Updating)
    } else {
        None
    }
}

/// The message that refuses an unknown status name.
pub open spec fn unknown_status_message(n: Seq<char>) -> Seq<char> {
    "Unknown version status: "@ + n
}

impl Default for VersionStatus {
    fn default() -> (r: Self)
        ensures
            r == VersionStatus::NotIndexed,
    {
        VersionStatus::NotIndexed
    }
}

impl VersionStatus {
    /// The status's name (`not_indexed`, `queued`, ...).
    pub fn as_str(&self) -> (r: &'static str)
        ensures
            r@ == status_name(*self),
    {
        match self {
            VersionStatus::NotIndexed => "not_indexed",
            VersionStatus::Queued => "queued",
            VersionStatus::Running => "running",
            VersionStatus::Completed => "completed",
            VersionStatus::Failed => "failed",
            VersionStatus::Cancelled => "cancelled",
            VersionStatus::Updating => "updating",
        }
    }

    /// The status's name as a new string.
    pub fn to_string(&self) -> (r: String)
        ensures
            r@ == status_name(*self),
    {
        self.as_str().to_owned()
    }

    /// The status named `s`; an unknown name is refused with a message.
    pub fn parse_name(s: &str) -> (r: Result<VersionStatus, String>)
        ensures
            match r {
                Ok(v) => status_of_name(s@) == Some(v),
                Err(m) => status_of_name(s@) is None && m@ == unknown_status_message(s@),
            },
    {
        if str_eq(s, "not_indexed") {
            Ok(VersionStatus::NotIndexed)
        } else if str_eq(s, "queued") {
            Ok(VersionStatus::Queued)
        } else if str_eq(s, "running") {
            Ok(VersionStatus::Running)
        } else if str_eq(s, "completed") {
            Ok(VersionStatus::Completed)
        } else if str_eq(s, "failed") {
            Ok(VersionStatus::Failed)
        } else if str_eq(s, "cancelled") {
            Ok(VersionStatus::Cancelled)
        } else if str_eq(s, "updating") {
            Ok(VersionStatus::Updating)
        } else {
            let mut m = "Unknown version status: ".to_owned();
            m.append(s);
            Err(m)
        }
    }
}

impl std::str::FromStr for VersionStatus {
    type Err = String;

    fn from_str(s: &str) -> (r: Result<Self, String>)
        ensures
            match r {
                Ok(v) => status_of_name(s@) == Some(v),
                Err(m) => status_of_name(s@) is None && m@ == unknown_status_message(s@),
            },
    {
        VersionStatus::parse_name(s)
    }
}

/// Reading back the name of a status gives that status.
pub proof fn lemma_status_name_roundtrip(s: VersionStatus)
    ensures
        status_of_name(status_name(s)) == Some(s),
{
    reveal_strlit("not_indexed");
    reveal_strlit("queued");
    reveal_strlit("running");
    reveal_strlit("completed");
    reveal_strlit("failed");
    reveal_strlit("cancelled");
    reveal_strlit("updating");
    let n = "not_indexed"@;
    let q = "queued"@;
    let r = "running"@;
    let c = "completed"@;
    let f = "failed"@;
    let x = "cancelled"@;
    match s {
        VersionStatus::NotIndexed => {},
        VersionStatus::Queued => {
            assert(q[0] != n[0]);
        },
        VersionStatus::Running => {
            assert(r[0] != n[0] && r[0] != q[0]);
        },
        VersionStatus::Completed => {
            assert(c[0] != n[0] && c[0] != q[0] && c[0] != r[0]);
        },
        VersionStatus::Failed => {
            assert(f[0] != n[0] && f[0] != q[0] && f[0] != r[0] && f[0] != c[0]);
        },
        VersionStatus::Cancelled => {
            assert(x[0] != n[0] && x[0] != q[0] && x[0] != r[0] && x[1] != c[1] && x[0] != f[0]);
        },
        VersionStatus::Updating => {
            let u = "updating"@;
            assert(u[0] != n[0] && u[0] != q[0] && u[0] != r[0] && u[0] != c[0] && u[0] != f[0]
                && u[0] != x[0]);
        },
    }
}

/// Distinct statuses have distinct names.
pub proof fn lemma_status_name_injective(a: VersionStatus, b: VersionStatus)
    ensures
        status_name(a) == status_name(b) ==> a == b,
{
    lemma_status_name_roundtrip(a);
    lemma_status_name_roundtrip(b);
}

/// Scraper options for a version.
#[derive(Debug, Clone)]
pub struct ScraperOptions {
    /// Maximum number of pages to scrape.
    pub max_pages: Option<usize>,
    /// Maximum crawl depth.
    pub max_depth: Option<usize>,
    /// URL patterns to include.
    pub include_patterns: Option<Vec<String>>,
    /// URL patterns to exclude.
    pub exclude_patterns: Option<Vec<String>>,
    /// Follow robots.txt rules.
    pub respect_robots_txt: Option<bool>,
    /// Scrape mode: "fetch" (HTTP only) or "browser" (headless Chrome).
    pub scrape_mode: Option<String>,
}

impl Default for ScraperOptions {
    fn default() -> (r: Self)
        ensures
            r.max_pages is None,
            r.max_depth is None,
            r.include_patterns is None,
            r.exclude_patterns is None,
            r.respect_robots_txt is None,
            r.scrape_mode is None,
    {
        ScraperOptions {
            max_pages: None,
            max_depth: None,
            include_patterns: None,
            exclude_patterns: None,
            respect_robots_txt: None,
            scrape_mode: None,
        }
    }
}

/// Whether two optional string lists hold the same strings.
pub open spec fn same_strings(a: Option<Vec<String>>, b: Option<Vec<String>>) -> bool {
    match (a, b) {
        (Some(x), Some(y)) => x@.map_values(|s: String| s@) == y@.map_values(|s: String| s@),
        (None, None) => true,
        _ => false,
    }
}

/// Whether two option sets say the same.
pub open spec fn same_options(a: ScraperOptions, b: ScraperOptions) -> bool {
    &&& a.max_pages == b.max_pages
    &&& a.max_depth == b.max_depth
    &&& same_strings(a.include_patterns, b.include_patterns)
    &&& same_strings(a.exclude_patterns, b.exclude_patterns)
    &&& a.respect_robots_txt == b.respect_robots_txt
    &&& a.scrape_mode == b.scrape_mode
}

/// A copy of a list of strings.
fn copy_strings(v: &Vec<String>) -> (r: Vec<String>)
    ensures
        r@.map_values(|s: String| s@) == v@.map_values(|s: String| s@),
{
    let mut out: Vec<String> = Vec::new();
    let mut i: usize = 0;
    while i < v.len()
        invariant
            i <= v.len(),
            out@.map_values(|s: String| s@) == v@.take(i as int).map_values(|s: String| s@),
        decreases v.len() - i,
    {
        out.push(v[i].clone());
        assert(v@.take(i + 1).map_values(|s: String| s@) =~= v@.take(i as int).map_values(|s: String| s@).push(v@[i as int]@));
        i = i + 1;
    }
    assert(v@.take(v.len() as int) =~= v@);
    out
}

/// A copy of an optional list of strings.
fn copy_opt_strings(v: &Option<Vec<String>>) -> (r: Option<Vec<String>>)
    ensures
        same_strings(r, *v),
{
    match v {
        Some(x) => Some(copy_strings(x)),
        None => None,
    }
}

impl ScraperOptions {
    /// A copy of these options.
    pub(crate) fn copy(&self) -> (r: ScraperOptions)
        ensures
            same_options(r, *self),
    {
        ScraperOptions {
            max_pages: self.max_pages,
            max_depth: self.max_depth,
            include_patterns: copy_opt_strings(&self.include_patterns),
            exclude_patterns: copy_opt_strings(&self.exclude_patterns),
            respect_robots_txt: self.respect_robots_txt,
            scrape_mode: match &self.scrape_mode {
                Some(m) => Some(m.clone()),
                None => None,
            },
        }
    }
}

/// New library to create.
#[derive(Debug, Clone)]
pub struct NewLibrary {
    pub name: String,
}

/// New version to create.
#[derive(Debug, Clone)]
pub struct NewVersion {
    pub library_id: i64,
    pub name: String,
    pub source_url: Option<String>,
    pub scraper_options: Option<ScraperOptions>,
}

/// New page to create.
#[derive(Debug, Clone)]
pub struct NewPage {
    pub version_id: i64,
    pub url: String,
    pub title: Option<String>,
    pub etag: Option<String>,
    pub last_modified: Option<String>,
    pub content_type: Option<String>,
    pub depth: i32,
}

/// The label of a status as the web API reports it: its variant name in lower
/// case (`notindexed`, `queued`, ...).
pub open spec fn status_label(s: VersionStatus) -> Seq<char> {
    match s {
        VersionStatus::NotIndexed => "notindexed"@,
        VersionStatus::Queued => "queued"@,
        VersionStatus::Running => "running"@,
        VersionStatus::Completed => "completed"@,
        VersionStatus::Failed => "failed"@,
        VersionStatus::Cancelled => "cancelled"@,
        VersionStatus::Updating => "updating"@,
    }
}

impl VersionStatus {
    /// The label of the status as the web API reports it.
    pub fn label(&self) -> (r: String)
        ensures
            r@ == status_label(*self),
    {
        match self {
            VersionStatus::NotIndexed => "notindexed".to_owned(),
            VersionStatus::Queued => "queued".to_owned(),
            VersionStatus::Running => "running".to_owned(),
            VersionStatus::Completed => "completed".to_owned(),
            VersionStatus::Failed => "failed".to_owned(),
            VersionStatus::Cancelled => "cancelled".to_owned(),
            VersionStatus::Updating => "updating".to_owned(),
        }
    }
}

} // verus!
