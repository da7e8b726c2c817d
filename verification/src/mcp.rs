//! Parameters of the MCP tools.
use vstd::prelude::*;

use crate::search::join_with;
use crate::text::{decimal, format_i64, format_u64};
use crate::types::ScraperOptions;

verus! {

/// Tool parameters for scrape_docs.
#[derive(Debug, Clone)]
pub struct ScrapeDocsParams {
    /// The name of the library to index.
    pub library: String,
    /// The URL to start scraping from.
    pub url: String,
    /// Optional version string.
    pub version: Option<String>,
    /// Maximum pages to scrape.
    pub max_pages: usize,
    /// Maximum crawl depth.
    pub max_depth: usize,
}

/// The page limit of a scrape request that names none.
pub fn default_max_pages() -> (r: usize)
    ensures
        r == 1000,
{
    1000
}

/// The depth limit of a scrape request that names none.
pub fn default_max_depth() -> (r: usize)
    ensures
        r == 10,
{
    10
}

impl ScrapeDocsParams {
    /// The scraper options of the job that the request starts: its limits, and
    /// nothing else set.
    pub fn scraper_options(&self) -> (r: ScraperOptions)
        ensures
            r.max_pages == Some(self.max_pages),
            r.max_depth == Some(self.max_depth),
            r.include_patterns is None,
            r.exclude_patterns is None,
            r.respect_robots_txt is None,
            r.scrape_mode is None,
    {
        ScraperOptions {
            max_pages: Some(self.max_pages),
            max_depth: Some(self.max_depth),
            include_patterns: None,
            exclude_patterns: None,
            respect_robots_txt: None,
            scrape_mode: None,
        }
    }
}

/// Tool parameters for search_docs.
#[derive(Debug, Clone)]
pub struct SearchDocsParams {
    /// The library name to search in.
    pub library: String,
    /// Optional version to search in.
    pub version: Option<String>,
    /// The search query.
    pub query: String,
    /// Maximum number of results.
    pub limit: usize,
}

/// The result limit of a search that names none.
pub fn default_limit() -> (r: usize)
    ensures
        r == 10,
{
    10
}

/// Tool parameters for remove_library.
#[derive(Debug, Clone)]
pub struct RemoveLibraryParams {
    /// The library name to remove.
    pub library: String,
}

/// The report of a finished scrape.
pub open spec fn scrape_summary_text(pages: usize, chunks: usize, library: Seq<char>, version: Seq<char>) -> Seq<char> {
    "Successfully scraped "@ + decimal(pages as int) + " pages with "@ + decimal(chunks as int)
        + " chunks for library '"@ + library + "' (version: "@ + version + ")"@
}

/// The report of a finished scrape.
pub fn scrape_summary(pages: usize, chunks: usize, library: &str, version: &str) -> (r: String)
    ensures
        r@ == scrape_summary_text(pages, chunks, library@, version@),
{
    let mut m = "Successfully scraped ".to_owned();
    m.append(format_u64(pages as u64).as_str());
    m.append(" pages with ");
    m.append(format_u64(chunks as u64).as_str());
    m.append(" chunks for library '");
    m.append(library);
    m.append("' (version: ");
    m.append(version);
    m.append(")");
    m
}

/// The message for a library that does not exist.
pub fn library_not_found(name: &str) -> (r: String)
    ensures
        r@ == "Library '"@ + name@ + "' not found"@,
{
    let mut m = "Library '".to_owned();
    m.append(name);
    m.append("' not found");
    m
}

/// The message for a version that does not exist.
pub fn version_not_found(name: &str) -> (r: String)
    ensures
        r@ == "Version '"@ + name@ + "' not found"@,
{
    let mut m = "Version '".to_owned();
    m.append(name);
    m.append("' not found");
    m
}

/// The report of a removed library.
pub fn library_removed(name: &str) -> (r: String)
    ensures
        r@ == "Successfully removed library '"@ + name@ + "'"@,
{
    let mut m = "Successfully removed library '".to_owned();
    m.append(name);
    m.append("'");
    m
}

/// A library in the listing: its name, identifier and version names.
pub struct LibraryListing {
    pub name: String,
    pub id: i64,
    pub versions: Vec<String>,
}

/// The strings of a sequence of strings.
pub open spec fn strings_of(v: Seq<String>) -> Seq<Seq<char>> {
    v.map_values(|s: String| s@)
}

/// One library's line of the listing.
pub open spec fn listing_entry(name: Seq<char>, id: i64, versions: Seq<Seq<char>>) -> Seq<char> {
    "- **"@ + name + "** (ID: "@ + decimal(id as int) + ")\n  Versions: "@ + (if versions.len() == 0 {
        "none"@
    } else {
        join_with(versions, ", "@)
    })
}

/// The listing of the libraries: one entry per library, or a note that none is indexed.
pub open spec fn library_listing_text(libs: Seq<LibraryListing>) -> Seq<char> {
    if libs.len() == 0 {
        "No libraries indexed yet."@
    } else {
        join_with(
            libs.map_values(|l: LibraryListing| listing_entry(l.name@, l.id, strings_of(l.versions@))),
            "\n"@,
        )
    }
}

/// The strings of `parts` joined with `sep`.
pub fn join_strings(parts: &Vec<String>, sep: &str) -> (r: String)
    ensures
        r@ == join_with(strings_of(parts@), sep@),
{
    let ghost pv = strings_of(parts@);
    let mut out = String::new();
    let mut k: usize = 0;
    while k < parts.len()
        invariant
            k <= parts.len(),
            pv == strings_of(parts@),
            out@ == join_with(pv.take(k as int), sep@),
        decreases parts.len() - k,
    {
        assert(pv.take(k + 1).drop_last() =~= pv.take(k as int));
        assert(pv.take(k + 1).last() == parts@[k as int]@);
        if k > 0 {
            out.append(sep);
        }
        out.append(parts[k].as_str());
        proof {
            if k == 0 {
                assert(out@ =~= pv.take(1)[0]);
            } else {
                assert(out@ =~= join_with(pv.take(k as int), sep@) + sep@ + parts@[k as int]@);
            }
        }
        k = k + 1;
    }
    assert(pv.take(parts.len() as int) =~= pv);
    out
}

/// The listing of the libraries.
pub fn library_listing(libs: &Vec<LibraryListing>) -> (r: String)
    ensures
        r@ == library_listing_text(libs@),
{
    if libs.len() == 0 {
        return "No libraries indexed yet.".to_owned();
    }
    let mut entries: Vec<String> = Vec::new();
    let mut i: usize = 0;
    while i < libs.len()
        invariant
            i <= libs.len(),
            strings_of(entries@) == libs@.take(i as int).map_values(
                |l: LibraryListing| listing_entry(l.name@, l.id, strings_of(l.versions@)),
            ),
        decreases libs.len() - i,
    {
        let l = &libs[i];
        let mut e = "- **".to_owned();
        e.append(l.name.as_str());
        e.append("** (ID: ");
        e.append(format_i64(l.id).as_str());
        e.append(")\n  Versions: ");
        if l.versions.len() == 0 {
            e.append("none");
        } else {
            e.append(join_strings(&l.versions, ", ").as_str());
        }
        let ghost old_e = strings_of(entries@);
        let ghost ev = e@;
        assert(ev == listing_entry(l.name@, l.id, strings_of(l.versions@)));
        entries.push(e);
        assert(strings_of(entries@) =~= old_e.push(ev));
        assert(strings_of(entries@) =~= libs@.take(i + 1).map_values(
            |l: LibraryListing| listing_entry(l.name@, l.id, strings_of(l.versions@)),
        ));
        i = i + 1;
    }
    assert(libs@.take(libs.len() as int) =~= libs@);
    join_strings(&entries, "\n")
}

/// One search hit as reported: its score (already written out), URL, title if
/// any, and content.
pub struct SearchHit {
    pub score: String,
    pub url: String,
    pub title: Option<String>,
    pub content: String,
}

/// The report of hit number `n` (counting from one).
pub open spec fn hit_text(n: int, h: SearchHit) -> Seq<char> {
    "## Result "@ + decimal(n) + " (score: "@ + h.score@ + ")\n**URL**: "@ + h.url@ + "\n**Title**: "@
        + match h.title {
        Some(t) => t@,
        None => "N/A"@,
    } + "\n\n"@ + h.content@ + "\n"@
}

/// The report of search hits: each numbered from one, separated by rules, or a
/// note that nothing was found.
pub open spec fn search_report_text(hits: Seq<SearchHit>) -> Seq<char> {
    if hits.len() == 0 {
        "No results found."@
    } else {
        join_with(Seq::new(hits.len(), |i: int| hit_text(i + 1, hits[i])), "\n---\n"@)
    }
}

/// The report of search hits.
pub fn search_report(hits: &Vec<SearchHit>) -> (r: String)
    requires
        hits.len() < usize::MAX,
    ensures
        r@ == search_report_text(hits@),
{
    if hits.len() == 0 {
        return "No results found.".to_owned();
    }
    let mut parts: Vec<String> = Vec::new();
    let mut i: usize = 0;
    while i < hits.len()
        invariant
            i <= hits.len(),
            hits.len() < usize::MAX,
            strings_of(parts@) == Seq::new(i as nat, |k: int| hit_text(k + 1, hits@[k])),
        decreases hits.len() - i,
    {
        let h = &hits[i];
        let mut t = "## Result ".to_owned();
        t.append(format_u64((i + 1) as u64).as_str());
        t.append(" (score: ");
        t.append(h.score.as_str());
        t.append(")\n**URL**: ");
        t.append(h.url.as_str());
        t.append("\n**Title**: ");
        match &h.title {
            Some(x) => t.append(x.as_str()),
            None => t.append("N/A"),
        }
        t.append("\n\n");
        t.append(h.content.as_str());
        t.append("\n");
        let ghost old_p = strings_of(parts@);
        let ghost tv = t@;
        assert(tv == hit_text(i + 1, hits@[i as int]));
        parts.push(t);
        assert(strings_of(parts@) =~= old_p.push(tv));
        assert(strings_of(parts@) =~= Seq::new((i + 1) as nat, |k: int| hit_text(k + 1, hits@[k])));
        i = i + 1;
    }
    join_strings(&parts, "\n---\n")
}

} // verus!
