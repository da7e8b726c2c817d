//! The crawl of a documentation site: which pages to fetch, in which order.
//!
//! The crawl is breadth-first from the start URL. Its state is the queue of
//! pages still to look at and the list of every URL ever queued; the fetching
//! itself is done outside, which reports each page fetched and its links.
use vstd::prelude::*;

use std::collections::VecDeque;

use crate::pattern::{regex_compiles, regex_compiles_of};
use crate::scrape::dom::{opt_view, parse_url, url_parse_of};
use crate::scrape::parser::{links_view, passes, passes_patterns, string_seq, Link, LinkView};
use crate::text::{lowercase_of, str_eq, to_lowercase};
use crate::scrape::converter::{convert_spec, HtmlToMarkdown};
use crate::scrape::fetch::FetchResult;
use crate::scrape::link_extractor::{extracted_links, LinkExtractor};
use crate::types::ScraperOptions;
use crate::error::Error;

verus! {

broadcast use vstd::string::group_string_axioms;

/// Progress information during crawling.
#[derive(Debug, Clone)]
pub struct CrawlProgress {
    /// Number of pages scraped so far.
    pub pages_scraped: usize,
    /// Total pages discovered (including in queue).
    pub total_discovered: usize,
    /// Current queue length.
    pub queue_length: usize,
    /// Current URL being processed.
    pub current_url: Option<String>,
    /// Current depth.
    pub depth: usize,
}

/// Result of crawling a page.
#[derive(Debug, Clone)]
pub struct CrawlResult {
    /// The page URL.
    pub url: String,
    /// Page title.
    pub title: Option<String>,
    /// Markdown content.
    pub content: String,
    /// Content type.
    pub content_type: Option<String>,
    /// ETag for caching.
    pub etag: Option<String>,
    /// Last-Modified header.
    pub last_modified: Option<String>,
    /// Crawl depth.
    pub depth: usize,
}

/// Scrape mode for determining how to fetch pages.
#[derive(Debug, Clone, Copy, PartialEq, Eq, Structural)]
pub enum ScrapeMode {
    /// Simple HTTP fetch.
    Fetch,
    /// Browser-based rendering.
    Browser,
}

impl Default for ScrapeMode {
    fn default() -> (r: Self)
        ensures
            r == ScrapeMode::Browser,
    {
        ScrapeMode::Browser
    }
}

/// The scrape mode named `s` (in any case).
pub open spec fn scrape_mode_of(s: Seq<char>) -> Option<ScrapeMode> {
    if lowercase_of(s) == "fetch"@ {
        Some(ScrapeMode::Fetch)
    } else if lowercase_of(s) == "browser"@ {
        Some(ScrapeMode::Browser)
    } else {
        None
    }
}

impl ScrapeMode {
    /// The scrape mode named `s` (in any case); another name is refused with a message.
    pub fn parse_name(s: &str) -> (r: Result<ScrapeMode, String>)
        ensures
            match r {
                Ok(m) => scrape_mode_of(s@) == Some(m),
                Err(e) => scrape_mode_of(s@) is None && e@ == "Unknown scrape mode: "@ + s@
                    + ", expected 'fetch' or 'browser'"@,
            },
    {
        let low = to_lowercase(s);
        if str_eq(low.as_str(), "fetch") {
            Ok(ScrapeMode::Fetch)
        } else if str_eq(low.as_str(), "browser") {
            Ok(ScrapeMode::Browser)
        } else {
            let mut m = "Unknown scrape mode: ".to_owned();
            m.append(s);
            m.append(", expected 'fetch' or 'browser'");
            Err(m)
        }
    }
}

impl std::str::FromStr for ScrapeMode {
    type Err = String;

    fn from_str(s: &str) -> (r: Result<Self, String>)
        ensures
            match r {
                Ok(m) => scrape_mode_of(s@) == Some(m),
                Err(e) => scrape_mode_of(s@) is None && e@ == "Unknown scrape mode: "@ + s@
                    + ", expected 'fetch' or 'browser'"@,
            },
    {
        ScrapeMode::parse_name(s)
    }
}

/// Crawler configuration.
#[derive(Debug, Clone)]
pub struct CrawlConfig {
    /// Maximum number of pages to crawl.
    pub max_pages: usize,
    /// Maximum crawl depth.
    pub max_depth: usize,
    /// Maximum concurrent requests.
    pub max_concurrency: usize,
    /// Delay between requests (in milliseconds).
    pub delay_ms: u64,
    /// URL patterns (regular expressions) a page must match one of, if any.
    pub include_patterns: Vec<String>,
    /// URL patterns (regular expressions) a page must match none of.
    pub exclude_patterns: Vec<String>,
    /// Request timeout in seconds.
    pub timeout_secs: u64,
    /// User agent string.
    pub user_agent: String,
    /// Scrape mode.
    pub scrape_mode: ScrapeMode,
}

impl Default for CrawlConfig {
    fn default() -> (r: Self)
        ensures
            r.max_pages == 1000,
            r.max_depth == 3,
            r.max_concurrency == 5,
            r.delay_ms == 100,
            r.include_patterns@.len() == 0,
            r.exclude_patterns@.len() == 0,
            r.timeout_secs == 30,
            r.user_agent@ == "docs-mcp-rs/0.1.0"@,
            r.scrape_mode == ScrapeMode::Browser,
    {
        CrawlConfig {
            max_pages: 1000,
            max_depth: 3,
            max_concurrency: 5,
            delay_ms: 100,
            include_patterns: Vec::new(),
            exclude_patterns: Vec::new(),
            timeout_secs: 30,
            user_agent: "docs-mcp-rs/0.1.0".to_owned(),
            scrape_mode: ScrapeMode::Browser,
        }
    }
}

/// The patterns of `ps` that compile, in order.
pub open spec fn valid_patterns(ps: Seq<Seq<char>>) -> Seq<Seq<char>>
    decreases ps.len(),
{
    if ps.len() == 0 {
        Seq::empty()
    } else if regex_compiles_of(ps.last()) {
        valid_patterns(ps.drop_last()).push(ps.last())
    } else {
        valid_patterns(ps.drop_last())
    }
}

/// The patterns of `ps` that compile.
fn compiling_patterns(ps: &Vec<String>) -> (r: Vec<String>)
    ensures
        string_seq(r@) == valid_patterns(string_seq(ps@)),
{
    let ghost pv = string_seq(ps@);
    let mut out: Vec<String> = Vec::new();
    let mut i: usize = 0;
    assert(pv.take(0) =~= Seq::<Seq<char>>::empty());
    assert(string_seq(out@) =~= Seq::<Seq<char>>::empty());
    while i < ps.len()
        invariant
            i <= ps.len(),
            pv == string_seq(ps@),
            string_seq(out@) == valid_patterns(pv.take(i as int)),
        decreases ps.len() - i,
    {
        assert(pv.take(i + 1).drop_last() =~= pv.take(i as int));
        assert(pv.take(i + 1).last() == ps@[i as int]@);
        if regex_compiles(ps[i].as_str()) {
            let ghost old_o = string_seq(out@);
            out.push(ps[i].clone());
            assert(string_seq(out@) =~= old_o.push(ps@[i as int]@));
        }
        i = i + 1;
    }
    assert(pv.take(ps.len() as int) =~= pv);
    out
}

impl CrawlConfig {
    /// The configuration for a job's scraper options: the defaults, with the
    /// limits the options set, the patterns of theirs that compile, and their
    /// scrape mode where it names one.
    pub fn from_options(options: ScraperOptions) -> (r: Self)
        ensures
            r.max_pages == match options.max_pages {
                Some(m) => m,
                None => 1000,
            },
            r.max_depth == match options.max_depth {
                Some(m) => m,
                None => 3,
            },
            r.max_concurrency == 5,
            r.delay_ms == 100,
            string_seq(r.include_patterns@) == match options.include_patterns {
                Some(p) => valid_patterns(string_seq(p@)),
                None => Seq::empty(),
            },
            string_seq(r.exclude_patterns@) == match options.exclude_patterns {
                Some(p) => valid_patterns(string_seq(p@)),
                None => Seq::empty(),
            },
            r.timeout_secs == 30,
            r.user_agent@ == "docs-mcp-rs/0.1.0"@,
            r.scrape_mode == match options.scrape_mode {
                Some(m) => match scrape_mode_of(m@) {
                    Some(mode) => mode,
                    None => ScrapeMode::Browser,
                },
                None => ScrapeMode::Browser,
            },
    {
        let mut config = CrawlConfig::default();
        assert(string_seq(config.include_patterns@) =~= Seq::<Seq<char>>::empty());
        assert(string_seq(config.exclude_patterns@) =~= Seq::<Seq<char>>::empty());
        if let Some(max_pages) = options.max_pages {
            config.max_pages = max_pages;
        }
        if let Some(max_depth) = options.max_depth {
            config.max_depth = max_depth;
        }
        if let Some(incl) = &options.include_patterns {
            config.include_patterns = compiling_patterns(incl);
        }
        if let Some(excl) = &options.exclude_patterns {
            config.exclude_patterns = compiling_patterns(excl);
        }
        if let Some(mode) = &options.scrape_mode {
            match ScrapeMode::parse_name(mode.as_str()) {
                Ok(m) => {
                    config.scrape_mode = m;
                },
                Err(_) => {},
            }
        }
        config
    }

    /// Whether the URL `url` is to be crawled for a site on `base_domain`: it is
    /// on that host (or does not parse as a URL) and passes the patterns.
    pub fn should_crawl(&self, url: &str, base_domain: &str) -> (b: bool)
        ensures
            b == crawlable(
                url@,
                base_domain@,
                string_seq(self.include_patterns@),
                string_seq(self.exclude_patterns@),
            ),
    {
        Self::should_crawl_static(url, base_domain, &self.include_patterns, &self.exclude_patterns)
    }

    /// `should_crawl`, given the patterns.
    pub fn should_crawl_static(
        url: &str,
        base_domain: &str,
        include_patterns: &Vec<String>,
        exclude_patterns: &Vec<String>,
    ) -> (b: bool)
        ensures
            b == crawlable(
                url@,
                base_domain@,
                string_seq(include_patterns@),
                string_seq(exclude_patterns@),
            ),
    {
        match parse_url(url) {
            Ok(p) => {
                match &p.host {
                    Some(h) => {
                        if !str_eq(h.as_str(), base_domain) {
                            return false;
                        }
                    },
                    None => {
                        return false;
                    },
                }
            },
            Err(_) => {},
        }
        passes(url, include_patterns, exclude_patterns)
    }
}

/// The host that a crawl from `start_url` stays on: the start URL's host (empty
/// where it has none); a start URL that does not parse is refused as invalid.
pub fn start_domain(start_url: &str) -> (r: Result<String, Error>)
    ensures
        match url_parse_of(start_url@) {
            Ok((_, h)) => r matches Ok(d) && d@ == (match h {
                Some(x) => x,
                None => Seq::empty(),
            }),
            Err(m) => r matches Err(Error::InvalidUrl(e)) && e@ == "Invalid start URL: "@ + m,
        },
{
    match parse_url(start_url) {
        Ok(p) => match p.host {
            Some(h) => Ok(h),
            None => Ok(String::new()),
        },
        Err(e) => {
            let mut m = "Invalid start URL: ".to_owned();
            m.append(e.as_str());
            Err(Error::InvalidUrl(m))
        },
    }
}

/// Whether `url` is to be crawled for a site on `domain`.
pub open spec fn crawlable(
    url: Seq<char>,
    domain: Seq<char>,
    incl: Seq<Seq<char>>,
    excl: Seq<Seq<char>>,
) -> bool {
    &&& match url_parse_of(url) {
        Ok((_, h)) => h == Some(domain),
        Err(_) => true,
    }
    &&& passes_patterns(url, incl, excl)
}

/// The state of a crawl as plain values: the pages still to look at (URL and
/// depth, first in first out), every URL ever queued, and the number of pages
/// fetched.
pub struct FrontierView {
    pub queue: Seq<(Seq<char>, usize)>,
    pub visited: Seq<Seq<char>>,
    pub pages: nat,
}

/// Whether no URL occurs twice in `v`.
pub open spec fn no_dups(v: Seq<Seq<char>>) -> bool {
    forall|i: int, j: int| 0 <= i < j < v.len() ==> v[i] != v[j]
}

/// The URLs of a queue.
pub open spec fn queue_urls(q: Seq<(Seq<char>, usize)>) -> Seq<Seq<char>> {
    q.map_values(|e: (Seq<char>, usize)| e.0)
}

/// The crawl state is consistent: no URL was queued twice, and every queued
/// page is among those ever queued.
pub open spec fn frontier_wf(f: FrontierView) -> bool {
    &&& no_dups(f.visited)
    &&& no_dups(queue_urls(f.queue))
    &&& forall|i: int| 0 <= i < f.queue.len() ==> f.visited.contains(#[trigger] f.queue[i].0)
}

/// The crawl state after the links of a page at depth `depth` are read: each
/// internal link not seen before is queued one level deeper.
pub open spec fn enqueue_links(f: FrontierView, links: Seq<LinkView>, depth: usize) -> FrontierView
    decreases links.len(),
{
    if links.len() == 0 {
        f
    } else {
        let g = enqueue_links(f, links.drop_last(), depth);
        let l = links.last();
        if !g.visited.contains(l.url) && l.is_internal {
            FrontierView {
                queue: g.queue.push((l.url, (depth + 1) as usize)),
                visited: g.visited.push(l.url),
                pages: g.pages,
            }
        } else {
            g
        }
    }
}

/// What the crawl does next: the page to fetch (and the state after taking it
/// off the queue), or `None` where the queue ran dry or the page limit is
/// reached. Pages too deep or not to be crawled are dropped on the way.
pub open spec fn next_page(
    f: FrontierView,
    max_pages: usize,
    max_depth: usize,
    domain: Seq<char>,
    incl: Seq<Seq<char>>,
    excl: Seq<Seq<char>>,
) -> (Option<(Seq<char>, usize)>, FrontierView)
    decreases f.queue.len(),
{
    if f.queue.len() == 0 {
        (None, f)
    } else {
        let (url, depth) = f.queue[0];
        let rest = FrontierView { queue: f.queue.drop_first(), visited: f.visited, pages: f.pages };
        if f.pages >= max_pages {
            (None, rest)
        } else if depth > max_depth || !crawlable(url, domain, incl, excl) {
            next_page(rest, max_pages, max_depth, domain, incl, excl)
        } else {
            (Some((url, depth)), rest)
        }
    }
}

/// The state of a breadth-first crawl.
pub struct CrawlFrontier {
    queue: VecDeque<(String, usize)>,
    visited: Vec<String>,
    pages: usize,
}

/// The plain values of a queue.
pub open spec fn queue_view(q: Seq<(String, usize)>) -> Seq<(Seq<char>, usize)> {
    q.map_values(|e: (String, usize)| (e.0@, e.1))
}

impl View for CrawlFrontier {
    type V = FrontierView;

    closed spec fn view(&self) -> FrontierView {
        FrontierView { queue: queue_view(self.queue@), visited: string_seq(self.visited@), pages: self.pages as nat }
    }
}

/// Whether `v` holds the string `u`.
fn holds(v: &Vec<String>, u: &String) -> (b: bool)
    ensures
        b == string_seq(v@).contains(u@),
{
    let mut i: usize = 0;
    while i < v.len()
        invariant
            i <= v.len(),
            forall|k: int| 0 <= k < i ==> v@[k]@ != u@,
        decreases v.len() - i,
    {
        if v[i] == *u {
            assert(string_seq(v@)[i as int] == u@);
            return true;
        }
        i = i + 1;
    }
    assert forall|k: int| 0 <= k < string_seq(v@).len() implies string_seq(v@)[k] != u@ by {
        assert(string_seq(v@)[k] == v@[k]@);
    }
    false
}

proof fn lemma_enqueue_wf(f: FrontierView, links: Seq<LinkView>, depth: usize)
    requires
        frontier_wf(f),
        depth < usize::MAX,
    ensures
        frontier_wf(enqueue_links(f, links, depth)),
        enqueue_links(f, links, depth).pages == f.pages,
        f.visited.is_prefix_of(enqueue_links(f, links, depth).visited),
        f.queue.is_prefix_of(enqueue_links(f, links, depth).queue),
    decreases links.len(),
{
    if links.len() > 0 {
        lemma_enqueue_wf(f, links.drop_last(), depth);
        let g = enqueue_links(f, links.drop_last(), depth);
        let l = links.last();
        if !g.visited.contains(l.url) && l.is_internal {
            let h = enqueue_links(f, links, depth);
            assert(queue_urls(h.queue) =~= queue_urls(g.queue).push(l.url));
            assert forall|i: int| 0 <= i < h.queue.len() implies h.visited.contains(#[trigger] h.queue[i].0) by {
                if i < g.queue.len() {
                    assert(h.queue[i] == g.queue[i]);
                    let k = choose|k: int| 0 <= k < g.visited.len() && g.visited[k] == g.queue[i].0;
                    assert(h.visited[k] == g.queue[i].0);
                } else {
                    assert(h.visited[h.visited.len() - 1] == l.url);
                }
            }
            assert forall|i: int, j: int| 0 <= i < j < queue_urls(h.queue).len() implies queue_urls(h.queue)[i] != queue_urls(h.queue)[j] by {
                if j == queue_urls(h.queue).len() - 1 {
                    assert(queue_urls(h.queue)[i] == g.queue[i].0);
                    assert(g.visited.contains(g.queue[i].0));
                } else {
                    assert(queue_urls(h.queue)[i] == queue_urls(g.queue)[i]);
                    assert(queue_urls(h.queue)[j] == queue_urls(g.queue)[j]);
                }
            }
            assert forall|i: int, j: int| 0 <= i < j < h.visited.len() implies h.visited[i] != h.visited[j] by {
                if j == h.visited.len() - 1 {
                    assert(h.visited[i] == g.visited[i]);
                } else {
                    assert(h.visited[i] == g.visited[i] && h.visited[j] == g.visited[j]);
                }
            }
        }
    }
}

proof fn lemma_pop_wf(f: FrontierView)
    requires
        frontier_wf(f),
        f.queue.len() > 0,
    ensures
        frontier_wf(FrontierView { queue: f.queue.drop_first(), visited: f.visited, pages: f.pages }),
{
    let rest = FrontierView { queue: f.queue.drop_first(), visited: f.visited, pages: f.pages };
    assert(queue_urls(rest.queue) =~= queue_urls(f.queue).drop_first());
    assert forall|i: int| 0 <= i < rest.queue.len() implies rest.visited.contains(#[trigger] rest.queue[i].0) by {
        assert(rest.queue[i] == f.queue[i + 1]);
    }
    assert forall|i: int, j: int| 0 <= i < j < queue_urls(rest.queue).len() implies queue_urls(rest.queue)[i] != queue_urls(rest.queue)[j] by {
        assert(queue_urls(rest.queue)[i] == queue_urls(f.queue)[i + 1]);
        assert(queue_urls(rest.queue)[j] == queue_urls(f.queue)[j + 1]);
    }
}

proof fn lemma_next_wf(
    f: FrontierView,
    max_pages: usize,
    max_depth: usize,
    domain: Seq<char>,
    incl: Seq<Seq<char>>,
    excl: Seq<Seq<char>>,
)
    requires
        frontier_wf(f),
    ensures
        frontier_wf(next_page(f, max_pages, max_depth, domain, incl, excl).1),
        next_page(f, max_pages, max_depth, domain, incl, excl).1.visited == f.visited,
        next_page(f, max_pages, max_depth, domain, incl, excl).1.pages == f.pages,
    decreases f.queue.len(),
{
    if f.queue.len() > 0 {
        let rest = FrontierView { queue: f.queue.drop_first(), visited: f.visited, pages: f.pages };
        lemma_pop_wf(f);
        lemma_next_wf(rest, max_pages, max_depth, domain, incl, excl);
    }
}

impl CrawlFrontier {
    /// The start of a crawl from `start_url`: only the start page queued, at depth 0.
    pub fn new(start_url: &str) -> (r: Self)
        ensures
            r@.queue == seq![(start_url@, 0usize)],
            r@.visited == seq![start_url@],
            r@.pages == 0,
            frontier_wf(r@),
    {
        let mut queue: VecDeque<(String, usize)> = VecDeque::new();
        queue.push_back((start_url.to_owned(), 0));
        let mut visited: Vec<String> = Vec::new();
        visited.push(start_url.to_owned());
        let r = CrawlFrontier { queue, visited, pages: 0 };
        assert(r@.queue =~= seq![(start_url@, 0usize)]);
        assert(r@.visited =~= seq![start_url@]);
        assert(r@.visited[0] == start_url@);
        assert(r@.visited.contains(start_url@));
        assert(r@.queue[0].0 == start_url@);
        r
    }

    /// Number of pages fetched so far.
    pub fn pages(&self) -> (r: usize)
        ensures
            r == self@.pages,
    {
        self.pages
    }

    /// Number of pages waiting in the queue.
    pub fn queue_len(&self) -> (r: usize)
        ensures
            r == self@.queue.len(),
    {
        self.queue.len()
    }

    /// Number of URLs ever queued.
    pub fn visited_len(&self) -> (r: usize)
        ensures
            r == self@.visited.len(),
    {
        self.visited.len()
    }

    /// The next page to fetch, or `None` where the crawl is over (the queue ran
    /// dry or `max_pages` pages were fetched). Pages deeper than `max_depth` or
    /// not to be crawled are dropped on the way.
    pub fn next_url(&mut self, config: &CrawlConfig, base_domain: &str) -> (r: Option<(String, usize)>)
        requires
            frontier_wf(old(self)@),
        ensures
            ({
                let (n, f) = next_page(
                    old(self)@,
                    config.max_pages,
                    config.max_depth,
                    base_domain@,
                    string_seq(config.include_patterns@),
                    string_seq(config.exclude_patterns@),
                );
                &&& final(self)@ == f
                &&& match r {
                    Some((u, d)) => n == Some((u@, d)),
                    None => n is None,
                }
            }),
            frontier_wf(final(self)@),
    {
        let ghost incl = string_seq(config.include_patterns@);
        let ghost excl = string_seq(config.exclude_patterns@);
        let ghost start = self@;
        proof {
            lemma_next_wf(start, config.max_pages, config.max_depth, base_domain@, incl, excl);
        }
        loop
            invariant
                next_page(self@, config.max_pages, config.max_depth, base_domain@, incl, excl)
                    == next_page(start, config.max_pages, config.max_depth, base_domain@, incl, excl),
                incl == string_seq(config.include_patterns@),
                excl == string_seq(config.exclude_patterns@),
                start == old(self)@,
                frontier_wf(self@),
            decreases self@.queue.len(),
        {
            let ghost before = self@;
            proof {
                lemma_next_wf(before, config.max_pages, config.max_depth, base_domain@, incl, excl);
            }
            match self.queue.pop_front() {
                None => {
                    return None;
                },
                Some((url, depth)) => {
                    assert(self@.queue =~= before.queue.drop_first());
                    assert(before.queue[0] == (url@, depth));
                    assert(self@ == FrontierView { queue: before.queue.drop_first(), visited: before.visited, pages: before.pages });
                    if self.pages >= config.max_pages {
                        return None;
                    }
                    if depth > config.max_depth || !config.should_crawl(url.as_str(), base_domain) {
                        proof {
                            lemma_pop_wf(before);
                        }
                    } else {
                        return Some((url, depth));
                    }
                },
            }
        }
    }

    /// Record a fetched page at depth `depth` and its links: each internal link
    /// not queued before is queued, one level deeper.
    pub fn record_page(&mut self, depth: usize, links: &Vec<Link>)
        requires
            frontier_wf(old(self)@),
            old(self)@.pages < usize::MAX,
            depth < usize::MAX,
        ensures
            final(self)@ == enqueue_links(
                FrontierView { queue: old(self)@.queue, visited: old(self)@.visited, pages: old(self)@.pages + 1 },
                links_view(links@),
                depth,
            ),
            frontier_wf(final(self)@),
    {
        self.pages = self.pages + 1;
        let ghost f0 = self@;
        let ghost lv = links_view(links@);
        proof {
            lemma_enqueue_wf(f0, lv, depth);
        }
        let mut i: usize = 0;
        assert(lv.take(0) =~= Seq::<LinkView>::empty());
        while i < links.len()
            invariant
                i <= links.len(),
                lv == links_view(links@),
                depth < usize::MAX,
                frontier_wf(f0),
                self@ == enqueue_links(f0, lv.take(i as int), depth),
            decreases links.len() - i,
        {
            assert(lv.take(i + 1).drop_last() =~= lv.take(i as int));
            assert(lv.take(i + 1).last() == links@[i as int]@);
            let link = &links[i];
            if !holds(&self.visited, &link.url) && link.is_internal {
                let ghost before = self@;
                self.visited.push(link.url.clone());
                self.queue.push_back((link.url.clone(), depth + 1));
                assert(self@.visited =~= before.visited.push(link.url@));
                assert(self@.queue =~= before.queue.push((link.url@, (depth + 1) as usize)));
            }
            i = i + 1;
        }
        assert(lv.take(links.len() as int) =~= lv);
        proof {
            lemma_enqueue_wf(f0, lv, depth);
        }
    }

    /// The progress report after the page `url` at depth `depth` was fetched.
    pub fn progress(&self, url: String, depth: usize) -> (r: CrawlProgress)
        requires
            self@.pages + self@.queue.len() <= usize::MAX,
        ensures
            r.pages_scraped == self@.pages,
            r.total_discovered == self@.pages + self@.queue.len(),
            r.queue_length == self@.queue.len(),
            r.current_url == Some(url),
            r.depth == depth,
    {
        CrawlProgress {
            pages_scraped: self.pages,
            total_discovered: self.pages + self.queue.len(),
            queue_length: self.queue.len(),
            current_url: Some(url),
            depth,
        }
    }
}

/// The progress report at the start of a crawl: one page discovered and queued.
pub fn initial_progress() -> (r: CrawlProgress)
    ensures
        r.pages_scraped == 0,
        r.total_discovered == 1,
        r.queue_length == 1,
        r.current_url is None,
        r.depth == 0,
{
    CrawlProgress { pages_scraped: 0, total_discovered: 1, queue_length: 1, current_url: None, depth: 0 }
}

/// A page the crawl hands out next was waiting in the queue, is no deeper than
/// `max_depth`, is to be crawled, and comes while fewer than `max_pages` pages
/// were fetched; taking it forgets no URL and fetches nothing.
pub proof fn law_next_page_within_limits(
    f: FrontierView,
    max_pages: usize,
    max_depth: usize,
    domain: Seq<char>,
    incl: Seq<Seq<char>>,
    excl: Seq<Seq<char>>,
)
    ensures
        next_page(f, max_pages, max_depth, domain, incl, excl).0 matches Some((u, d)) ==> {
            &&& f.pages < max_pages
            &&& d <= max_depth
            &&& crawlable(u, domain, incl, excl)
            &&& f.queue.contains((u, d))
        },
        next_page(f, max_pages, max_depth, domain, incl, excl).1.visited == f.visited,
        next_page(f, max_pages, max_depth, domain, incl, excl).1.pages == f.pages,
    decreases f.queue.len(),
{
    if f.queue.len() > 0 {
        let rest = FrontierView { queue: f.queue.drop_first(), visited: f.visited, pages: f.pages };
        law_next_page_within_limits(rest, max_pages, max_depth, domain, incl, excl);
        if let Some((u, d)) = next_page(rest, max_pages, max_depth, domain, incl, excl).0 {
            if rest.queue.contains((u, d)) {
                let k = choose|k: int| 0 <= k < rest.queue.len() && rest.queue[k] == (u, d);
                assert(f.queue[k + 1] == (u, d));
            }
        }
        assert(f.queue[0] == f.queue[0]);
    }
}

/// Reading a page's links queues no URL twice over the whole crawl: URLs queued
/// before stay queued in order, each new one is internal, not seen before, and
/// queued one level deeper than its page; the number of pages fetched is unchanged.
pub proof fn law_links_queued_once(f: FrontierView, links: Seq<LinkView>, depth: usize)
    requires
        frontier_wf(f),
        depth < usize::MAX,
    ensures
        frontier_wf(enqueue_links(f, links, depth)),
        f.visited.is_prefix_of(enqueue_links(f, links, depth).visited),
        f.queue.is_prefix_of(enqueue_links(f, links, depth).queue),
        enqueue_links(f, links, depth).pages == f.pages,
{
    lemma_enqueue_wf(f, links, depth);
}

/// What a fetched page yields: its result (the page converted to Markdown,
/// titled, with the fetch's headers) and the links in its HTML.
pub fn page_result(url: &str, depth: usize, fetched: FetchResult) -> (r: (CrawlResult, Vec<Link>))
    ensures
        r.0.url@ == url@,
        r.0.title matches Some(t) && t@ == convert_spec(fetched.content@, url@).title,
        r.0.content@ == convert_spec(fetched.content@, url@).content,
        r.0.content_type == fetched.content_type,
        r.0.etag == fetched.etag,
        r.0.last_modified == fetched.last_modified,
        r.0.depth == depth,
        links_view(r.1@) == extracted_links(fetched.content@, url@),
{
    let article = match HtmlToMarkdown::convert(fetched.content.as_str(), url) {
        Ok(a) => a,
        Err(_) => {
            assert(false);
            return (
                CrawlResult {
                    url: url.to_owned(),
                    title: None,
                    content: String::new(),
                    content_type: None,
                    etag: None,
                    last_modified: None,
                    depth,
                },
                Vec::new(),
            );
        },
    };
    let links = LinkExtractor::extract(fetched.content.as_str(), url);
    let result = CrawlResult {
        url: url.to_owned(),
        title: Some(article.title),
        content: article.content,
        content_type: fetched.content_type,
        etag: fetched.etag,
        last_modified: fetched.last_modified,
        depth,
    };
    (result, links)
}

/// A crawl never leaves its host: a URL that parses is crawlable only when its
/// host is exactly the crawl's domain (a subdomain or another host is refused)
/// and it passes the patterns; one on that very host that passes them is crawlable.
pub proof fn law_crawl_stays_on_host(u: Seq<char>, d: Seq<char>, incl: Seq<Seq<char>>, excl: Seq<Seq<char>>)
    ensures
        crawlable(u, d, incl, excl) ==> (url_parse_of(u) matches Ok((_, h)) ==> h == Some(d)),
        crawlable(u, d, incl, excl) ==> passes_patterns(u, incl, excl),
        (url_parse_of(u) matches Ok((_, h)) && h == Some(d)) && passes_patterns(u, incl, excl) ==> crawlable(
            u,
            d,
            incl,
            excl,
        ),
        (url_parse_of(u) matches Ok((_, h)) && h != Some(d)) ==> !crawlable(u, d, incl, excl),
{
}

} // verus!
