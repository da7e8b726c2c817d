//! HTML to Markdown conversion: the article is picked out of the page (with
//! the page's main content as the fallback), written as Markdown, and the
//! Markdown tidied.
use vstd::prelude::*;

use crate::error::Error;
use crate::scrape::dom::{
    article_parts, html_to_markdown, markdown_of, opt_view, readability_article, readability_of,
};
use crate::scrape::parser::{description_of, main_content_html_of, title_of, HtmlParser};
use crate::text::{chars_of, contains, contains_seq, occurs_at, string_from_chars, trim_chars, trim_seq};

verus! {

broadcast use vstd::string::group_string_axioms;

/// HTML to Markdown conversion result.
#[derive(Debug, Clone)]
pub struct ConversionResult {
    /// Page title.
    pub title: String,
    /// Markdown content.
    pub content: String,
    /// Short excerpt/summary.
    pub excerpt: Option<String>,
    /// Author/byline.
    pub author: Option<String>,
    /// Published time.
    pub published_time: Option<String>,
}

/// A conversion result as plain values.
pub struct ConversionView {
    pub title: Seq<char>,
    pub content: Seq<char>,
    pub excerpt: Option<Seq<char>>,
    pub author: Option<Seq<char>>,
    pub published_time: Option<Seq<char>>,
}

impl View for ConversionResult {
    type V = ConversionView;

    open spec fn view(&self) -> ConversionView {
        ConversionView {
            title: self.title@,
            content: self.content@,
            excerpt: opt_view(self.excerpt),
            author: opt_view(self.author),
            published_time: opt_view(self.published_time),
        }
    }
}

/// `k` newlines.
pub open spec fn newlines(k: nat) -> Seq<char> {
    Seq::new(k, |i: int| '\n')
}

/// `s[i..]` with every occurrence of the non-empty `p` replaced by `w`, scanning
/// from the left (what `str::replace` does).
pub open spec fn replace_from(s: Seq<char>, p: Seq<char>, w: Seq<char>, i: int) -> Seq<char>
    decreases s.len() - i,
{
    if p.len() == 0 || i < 0 || i >= s.len() {
        Seq::empty()
    } else if occurs_at(s, p, i) {
        w + replace_from(s, p, w, i + p.len())
    } else {
        seq![s[i]] + replace_from(s, p, w, i + 1)
    }
}

pub proof fn lemma_replace_len(s: Seq<char>, p: Seq<char>, w: Seq<char>, i: int)
    requires
        0 <= i <= s.len(),
        p.len() > 0,
        w.len() < p.len(),
    ensures
        replace_from(s, p, w, i).len() <= s.len() - i,
        (exists|j: int| i <= j && occurs_at(s, p, j)) ==> replace_from(s, p, w, i).len() < s.len()
            - i,
    decreases s.len() - i,
{
    if i < s.len() {
        if occurs_at(s, p, i) {
            lemma_replace_len(s, p, w, i + p.len());
        } else {
            lemma_replace_len(s, p, w, i + 1);
            if exists|j: int| i <= j && occurs_at(s, p, j) {
                let j = choose|j: int| i <= j && occurs_at(s, p, j);
                assert(i + 1 <= j);
            }
        }
    }
}

/// `s` with runs of newlines shortened by replacing four newlines with three
/// until no four are left.
pub open spec fn collapse_newlines(s: Seq<char>) -> Seq<char>
    decreases s.len(),
{
    if contains_seq(s, newlines(4)) {
        proof {
            let j = choose|j: int| occurs_at(s, newlines(4), j);
            lemma_replace_len(s, newlines(4), newlines(3), 0);
        }
        collapse_newlines(replace_from(s, newlines(4), newlines(3), 0))
    } else {
        s
    }
}

proof fn lemma_collapse_no_run(s: Seq<char>)
    ensures
        !contains_seq(collapse_newlines(s), newlines(4)),
    decreases s.len(),
{
    if contains_seq(s, newlines(4)) {
        let j = choose|j: int| occurs_at(s, newlines(4), j);
        lemma_replace_len(s, newlines(4), newlines(3), 0);
        lemma_collapse_no_run(replace_from(s, newlines(4), newlines(3), 0));
    }
}

proof fn lemma_trim_no_run(s: Seq<char>, p: Seq<char>)
    requires
        !contains_seq(s, p),
    ensures
        !contains_seq(trim_seq(s), p),
{
    let t = trim_seq(s);
    crate::text::lemma_trim_bounds(s);
    if contains_seq(t, p) {
        let j = choose|j: int| occurs_at(t, p, j);
        if crate::text::lead_ws(s) < s.len() {
            let a = crate::text::lead_ws(s) as int;
            assert(s.subrange(a + j, a + j + p.len()) =~= t.subrange(j, j + p.len()));
            assert(occurs_at(s, p, a + j));
        } else {
            assert(s.subrange(0, p.len() as int) =~= p);
            assert(occurs_at(s, p, 0));
        }
    }
}

/// Tidied Markdown: no more than three newlines in a row, and no whitespace at
/// either end.
pub open spec fn post_process_spec(s: Seq<char>) -> Seq<char> {
    trim_seq(collapse_newlines(s))
}

/// The Markdown that the converter writes for clean HTML.
pub open spec fn to_markdown_spec(h: Seq<char>) -> Seq<char> {
    post_process_spec(markdown_of(h, false))
}

/// The number of elements that Readability reads at most.
pub open spec fn max_elements() -> usize {
    9000
}

/// What a page converts to: the article that Readability picks, in Markdown;
/// where it picks none, the page's main content in Markdown, titled by the
/// page's title ("Untitled" without one) and excerpted by its meta description.
pub open spec fn convert_spec(html: Seq<char>, url: Seq<char>) -> ConversionView {
    match readability_of(html, url, max_elements()) {
        Some(a) => ConversionView {
            title: a.0,
            content: to_markdown_spec(a.1),
            excerpt: a.2,
            author: a.3,
            published_time: a.4,
        },
        None => ConversionView {
            title: match title_of(html) {
                Some(t) => t,
                None => "Untitled"@,
            },
            content: to_markdown_spec(main_content_html_of(html)),
            excerpt: description_of(html),
            author: None,
            published_time: None,
        },
    }
}

/// `s` with every occurrence of the non-empty `p` replaced by `w`.
fn replace_all(s: &Vec<char>, p: &Vec<char>, w: &Vec<char>) -> (r: Vec<char>)
    requires
        p.len() > 0,
    ensures
        r@ == replace_from(s@, p@, w@, 0),
{
    let mut r: Vec<char> = Vec::new();
    let mut i: usize = 0;
    while i < s.len()
        invariant
            i <= s.len(),
            p.len() > 0,
            r@ + replace_from(s@, p@, w@, i as int) == replace_from(s@, p@, w@, 0),
        decreases s.len() - i,
    {
        if crate::text::matches_at(s, p, i) {
            let ghost old_r = r@;
            crate::text::append_all(&mut r, w);
            assert(r@ + replace_from(s@, p@, w@, (i + p.len()) as int) =~= old_r + replace_from(
                s@,
                p@,
                w@,
                i as int,
            ));
            i = i + p.len();
        } else {
            let ghost old_r = r@;
            r.push(s[i]);
            assert(r@ + replace_from(s@, p@, w@, i + 1) =~= old_r + replace_from(
                s@,
                p@,
                w@,
                i as int,
            ));
            i = i + 1;
        }
    }
    assert(r@ =~= r@ + replace_from(s@, p@, w@, i as int));
    r
}

/// `k` newlines.
fn newline_run(k: usize) -> (r: Vec<char>)
    ensures
        r@ == newlines(k as nat),
{
    let mut r: Vec<char> = Vec::new();
    let mut i: usize = 0;
    while i < k
        invariant
            i <= k,
            r@ == newlines(i as nat),
        decreases k - i,
    {
        r.push('\n');
        assert(r@ =~= newlines((i + 1) as nat));
        i = i + 1;
    }
    r
}

/// HTML to Markdown converter with content extraction.
pub struct HtmlToMarkdown;

impl HtmlToMarkdown {
    /// Convert HTML to Markdown with content extraction.
    ///
    /// Readability picks the article out of the page first; where it picks none,
    /// the page's main content (found by common selectors: main, article,
    /// .content, ...) is converted instead.
    pub fn convert(html: &str, url: &str) -> (r: Result<ConversionResult, Error>)
        ensures
            r matches Ok(c) && c@ == convert_spec(html@, url@),
            r matches Ok(c) && !contains_seq(c.content@, newlines(4)),
    {
        match Self::extract_content(html, url) {
            Some(article) => {
                let markdown = Self::to_markdown(article.content.as_str());
                Ok(
                    ConversionResult {
                        title: article.title,
                        content: markdown,
                        excerpt: article.excerpt,
                        author: article.byline,
                        published_time: article.published_time,
                    },
                )
            },
            None => Self::convert_with_fallback(html, url),
        }
    }

    /// Fallback conversion using HtmlParser when Readability finds no article.
    pub fn convert_with_fallback(html: &str, _url: &str) -> (r: Result<ConversionResult, Error>)
        ensures
            r matches Ok(c) && c@ == (ConversionView {
                title: match title_of(html@) {
                    Some(t) => t,
                    None => "Untitled"@,
                },
                content: to_markdown_spec(main_content_html_of(html@)),
                excerpt: description_of(html@),
                author: None,
                published_time: None,
            }),
            r matches Ok(c) && !contains_seq(c.content@, newlines(4)),
    {
        let parser = HtmlParser::new();
        let document = parser.parse(html);
        let title = match parser.extract_title(&document) {
            Some(t) => t,
            None => "Untitled".to_owned(),
        };
        let content_html = parser.extract_main_content_html(&document);
        let markdown = Self::to_markdown(content_html.as_str());
        let excerpt = parser.extract_description(&document);
        Ok(ConversionResult { title, content: markdown, excerpt, author: None, published_time: None })
    }

    /// Extract the article from HTML using Readability.
    fn extract_content(html: &str, url: &str) -> (r: Option<crate::scrape::dom::Article>)
        ensures
            match r {
                Some(a) => readability_of(html@, url@, max_elements()) == Some(article_parts(a)),
                None => readability_of(html@, url@, max_elements()) is None,
            },
    {
        readability_article(html, url, 9000)
    }

    /// Convert clean HTML to Markdown.
    pub fn to_markdown(clean_html: &str) -> (r: String)
        ensures
            r@ == to_markdown_spec(clean_html@),
            !contains_seq(r@, newlines(4)),
    {
        let md = html_to_markdown(clean_html, false);
        Self::post_process(md.as_str())
    }

    /// Post-process the markdown output: remove excessive newlines (more than
    /// three in a row) and trim whitespace at start and end.
    pub fn post_process(markdown: &str) -> (r: String)
        ensures
            r@ == post_process_spec(markdown@),
            !contains_seq(r@, newlines(4)),
    {
        let mut result = chars_of(markdown);
        let pat = newline_run(4);
        let rep = newline_run(3);
        while contains(&result, &pat)
            invariant
                pat@ == newlines(4),
                rep@ == newlines(3),
                collapse_newlines(result@) == collapse_newlines(markdown@),
            decreases result.len(),
        {
            proof {
                let j = choose|j: int| occurs_at(result@, newlines(4), j);
                lemma_replace_len(result@, newlines(4), newlines(3), 0);
            }
            result = replace_all(&result, &pat, &rep);
        }
        proof {
            lemma_collapse_no_run(markdown@);
            lemma_trim_no_run(collapse_newlines(markdown@), newlines(4));
        }
        string_from_chars(&trim_chars(&result))
    }
}

impl Default for HtmlToMarkdown {
    fn default() -> (r: Self) {
        HtmlToMarkdown
    }
}

} // verus!
