//! HTML parsing, content extraction and link extraction.
use vstd::prelude::*;

use crate::error::Error;
use crate::pattern::regex_is_match_of;
use crate::scrape::dom::{
    document_html, document_text, elements_of, first_attr_of, first_html_of, first_text_of,
    opt_view, parse_url, root_html_of, root_text_of, select_all, select_first_attr,
    select_first_html, select_first_text, url_join, url_join_of, url_parse_of, url_parts_view,
    element_view,
};
use crate::pattern::regex_is_match;
use crate::text::{chars_of, matches_at, occurs_at, trim_chars, trim_seq, string_from_chars};

verus! {

broadcast use vstd::string::group_string_axioms;

/// An extracted link.
#[derive(Debug, Clone)]
pub struct Link {
    /// The link URL.
    pub url: String,
    /// The link text.
    pub text: String,
    /// Whether the link is internal (same domain).
    pub is_internal: bool,
}

/// A link as plain values.
pub struct LinkView {
    pub url: Seq<char>,
    pub text: Seq<char>,
    pub is_internal: bool,
}

impl View for Link {
    type V = LinkView;

    open spec fn view(&self) -> LinkView {
        LinkView { url: self.url@, text: self.text@, is_internal: self.is_internal }
    }
}

/// The views of a sequence of links.
pub open spec fn links_view(v: Seq<Link>) -> Seq<LinkView> {
    v.map_values(|l: Link| l@)
}

/// A parsed HTML document.
pub struct Document {
    source: String,
}

impl Document {
    /// The HTML the document was read from.
    pub closed spec fn source(&self) -> Seq<char> {
        self.source@
    }
}

/// Whether `s` starts with `p`.
pub open spec fn starts_with(s: Seq<char>, p: Seq<char>) -> bool {
    occurs_at(s, p, 0)
}

/// The selectors tried, in order, for the main content of a page.
pub open spec fn main_selectors() -> Seq<Seq<char>> {
    seq![
        "main"@,
        "article"@,
        "[role=\"main\"]"@,
        ".content"@,
        ".documentation"@,
        ".docs"@,
        "#content"@,
        "#main"@,
    ]
}

/// The first of the selectors from index `i` on that matches in `h`, with what
/// `pick` takes of the element it matches.
pub open spec fn first_match(h: Seq<char>, sels: Seq<Seq<char>>, i: int, as_html: bool) -> Option<
    Seq<char>,
>
    decreases sels.len() - i,
{
    if i < 0 || i >= sels.len() {
        None
    } else {
        let found = if as_html {
            first_html_of(h, sels[i])
        } else {
            first_text_of(h, sels[i])
        };
        match found {
            Some(t) => Some(t),
            None => first_match(h, sels, i + 1, as_html),
        }
    }
}

/// The main content of a page: the text of the first main-content element
/// found, else of the body, else of the whole document.
pub open spec fn main_content_of(h: Seq<char>) -> Seq<char> {
    match first_match(h, main_selectors(), 0, false) {
        Some(t) => t,
        None => match first_text_of(h, "body"@) {
            Some(t) => t,
            None => root_text_of(h),
        },
    }
}

/// The HTML of the main content of a page, chosen as `main_content_of` chooses
/// its text.
pub open spec fn main_content_html_of(h: Seq<char>) -> Seq<char> {
    match first_match(h, main_selectors(), 0, true) {
        Some(t) => t,
        None => match first_html_of(h, "body"@) {
            Some(t) => t,
            None => root_html_of(h),
        },
    }
}

/// The title of a page: the trimmed text of its `title` element.
pub open spec fn title_of(h: Seq<char>) -> Option<Seq<char>> {
    match first_text_of(h, "title"@) {
        Some(t) => Some(trim_seq(t)),
        None => None,
    }
}

/// The meta description of a page.
pub open spec fn description_of(h: Seq<char>) -> Option<Seq<char>> {
    match first_attr_of(h, "meta[name=\"description\"]"@, "content"@) {
        Some(a) => a,
        None => None,
    }
}

/// `href` resolved against the page at `base` (of scheme `scheme` and host
/// `host`): absolute HTTP links as they are, root-relative ones on the page's
/// scheme and host, others joined to the page's URL.
pub open spec fn resolve_href(
    href: Seq<char>,
    base: Seq<char>,
    scheme: Seq<char>,
    host: Option<Seq<char>>,
) -> Option<Seq<char>> {
    if starts_with(href, "http://"@) || starts_with(href, "https://"@) {
        Some(href)
    } else if starts_with(href, "/"@) {
        Some(
            scheme + "://"@ + match host {
                Some(h) => h,
                None => Seq::empty(),
            } + href,
        )
    } else {
        url_join_of(base, href)
    }
}

/// Whether the URL `u` is on the host `host`.
pub open spec fn is_internal_url(u: Seq<char>, host: Option<Seq<char>>) -> bool {
    match url_parse_of(u) {
        Ok((_, h)) => h == host,
        Err(_) => false,
    }
}

/// Whether some link of `links` has the URL `u`.
pub open spec fn has_url(links: Seq<LinkView>, u: Seq<char>) -> bool {
    exists|i: int| 0 <= i < links.len() && links[i].url == u
}

/// The links found so far, after one more `<a href>` element.
pub open spec fn link_step(
    links: Seq<LinkView>,
    e: (Option<Seq<char>>, Seq<char>),
    base: Seq<char>,
    scheme: Seq<char>,
    host: Option<Seq<char>>,
) -> Seq<LinkView> {
    match e.0 {
        None => links,
        Some(href) => if href.len() == 0 || starts_with(href, "javascript:"@) || starts_with(
            href,
            "#"@,
        ) {
            links
        } else {
            match resolve_href(href, base, scheme, host) {
                None => links,
                Some(u) => if has_url(links, u) {
                    links
                } else {
                    links.push(
                        LinkView { url: u, text: trim_seq(e.1), is_internal: is_internal_url(u, host) },
                    )
                },
            }
        },
    }
}

/// The links of the elements `es`.
pub open spec fn links_fold(
    es: Seq<(Option<Seq<char>>, Seq<char>)>,
    base: Seq<char>,
    scheme: Seq<char>,
    host: Option<Seq<char>>,
) -> Seq<LinkView>
    decreases es.len(),
{
    if es.len() == 0 {
        Seq::empty()
    } else {
        link_step(links_fold(es.drop_last(), base, scheme, host), es.last(), base, scheme, host)
    }
}

/// The links of the page `h` at `base`, or the message refusing `base`.
pub open spec fn page_links(h: Seq<char>, base: Seq<char>) -> Result<Seq<LinkView>, Seq<char>> {
    match url_parse_of(base) {
        Err(e) => Err("Invalid base URL: "@ + e),
        Ok((scheme, host)) => Ok(links_fold(elements_of(h, "a[href]"@, "href"@), base, scheme, host)),
    }
}

/// Whether a link passes the patterns: it matches no exclusion pattern, and some
/// inclusion pattern if there are any.
pub open spec fn passes_patterns(u: Seq<char>, incl: Seq<Seq<char>>, excl: Seq<Seq<char>>) -> bool {
    &&& forall|i: int| 0 <= i < excl.len() ==> !regex_is_match_of(#[trigger] excl[i], u)
    &&& (incl.len() == 0 || exists|i: int|
        0 <= i < incl.len() && regex_is_match_of(#[trigger] incl[i], u))
}

/// The links of `links` that pass the patterns, in order.
pub open spec fn filter_links_spec(
    links: Seq<LinkView>,
    incl: Seq<Seq<char>>,
    excl: Seq<Seq<char>>,
) -> Seq<LinkView>
    decreases links.len(),
{
    if links.len() == 0 {
        Seq::empty()
    } else {
        let rest = filter_links_spec(links.drop_last(), incl, excl);
        if passes_patterns(links.last().url, incl, excl) {
            rest.push(links.last())
        } else {
            rest
        }
    }
}

/// The strings of a sequence of strings.
pub open spec fn string_seq(v: Seq<String>) -> Seq<Seq<char>> {
    v.map_values(|s: String| s@)
}

/// The main-content selectors, in order.
fn main_selector_list() -> (r: Vec<&'static str>)
    ensures
        r@.map_values(|s: &str| s@) == main_selectors(),
{
    let mut v: Vec<&'static str> = Vec::new();
    v.push("main");
    v.push("article");
    v.push("[role=\"main\"]");
    v.push(".content");
    v.push(".documentation");
    v.push(".docs");
    v.push("#content");
    v.push("#main");
    assert(v@.map_values(|s: &str| s@) =~= main_selectors());
    v
}

/// Whether the string `s` starts with `p`.
fn str_starts_with(s: &Vec<char>, p: &str) -> (b: bool)
    ensures
        b == starts_with(s@, p@),
{
    let pc = chars_of(p);
    matches_at(s, &pc, 0)
}

/// Whether some link of `links` has the URL `u`.
fn contains_url(links: &Vec<Link>, u: &String) -> (b: bool)
    ensures
        b == has_url(links_view(links@), u@),
{
    let mut i: usize = 0;
    while i < links.len()
        invariant
            i <= links.len(),
            forall|k: int| 0 <= k < i ==> links@[k].url@ != u@,
        decreases links.len() - i,
    {
        if links[i].url == *u {
            assert(links_view(links@)[i as int].url == u@);
            return true;
        }
        i = i + 1;
    }
    assert forall|k: int| 0 <= k < links_view(links@).len() implies links_view(links@)[k].url != u@ by {
        assert(links_view(links@)[k] == links@[k]@);
    }
    false
}

/// HTML parser for content extraction.
pub struct HtmlParser;

impl HtmlParser {
    /// Create a new HTML parser.
    pub fn new() -> (r: Self) {
        HtmlParser
    }

    /// Parse HTML document.
    pub fn parse(&self, html: &str) -> (r: Document)
        ensures
            r.source() == html@,
    {
        Document { source: html.to_owned() }
    }

    /// Extract the title from HTML.
    pub fn extract_title(&self, document: &Document) -> (r: Option<String>)
        ensures
            opt_view(r) == title_of(document.source()),
    {
        match select_first_text(document.source.as_str(), "title") {
            Some(t) => {
                let tc = chars_of(t.as_str());
                Some(string_from_chars(&trim_chars(&tc)))
            },
            None => None,
        }
    }

    /// Extract meta description.
    pub fn extract_description(&self, document: &Document) -> (r: Option<String>)
        ensures
            opt_view(r) == description_of(document.source()),
    {
        match select_first_attr(document.source.as_str(), "meta[name=\"description\"]", "content") {
            Some(a) => a,
            None => None,
        }
    }

    /// The first main-content element found, as text or as HTML.
    fn first_main(&self, document: &Document, as_html: bool) -> (r: Option<String>)
        ensures
            opt_view(r) == first_match(document.source(), main_selectors(), 0, as_html),
    {
        let sels = main_selector_list();
        let ghost sv = main_selectors();
        let mut i: usize = 0;
        while i < sels.len()
            invariant
                i <= sels.len(),
                sels@.map_values(|s: &str| s@) == sv,
                sv == main_selectors(),
                first_match(document.source(), sv, 0, as_html) == first_match(
                    document.source(),
                    sv,
                    i as int,
                    as_html,
                ),
            decreases sels.len() - i,
        {
            assert(sv[i as int] == sels@[i as int]@);
            let found = if as_html {
                select_first_html(document.source.as_str(), sels[i])
            } else {
                select_first_text(document.source.as_str(), sels[i])
            };
            match found {
                Some(t) => {
                    return Some(t);
                },
                None => {},
            }
            i = i + 1;
        }
        None
    }

    /// Extract main content from HTML (excluding navigation, header, footer, etc.).
    pub fn extract_main_content(&self, document: &Document) -> (r: String)
        ensures
            r@ == main_content_of(document.source()),
    {
        match self.first_main(document, false) {
            Some(t) => t,
            None => match select_first_text(document.source.as_str(), "body") {
                Some(t) => t,
                None => document_text(document.source.as_str()),
            },
        }
    }

    /// Extract the HTML of the main content (chosen as `extract_main_content` chooses it).
    pub fn extract_main_content_html(&self, document: &Document) -> (r: String)
        ensures
            r@ == main_content_html_of(document.source()),
    {
        match self.first_main(document, true) {
            Some(t) => t,
            None => match select_first_html(document.source.as_str(), "body") {
                Some(t) => t,
                None => document_html(document.source.as_str()),
            },
        }
    }

    /// Extract links from HTML: skipping empty, `javascript:` and anchor links,
    /// resolving the others against `base_url`, each URL once.
    pub fn extract_links(&self, document: &Document, base_url: &str) -> (r: Result<Vec<Link>, Error>)
        ensures
            match page_links(document.source(), base_url@) {
                Ok(ls) => r matches Ok(v) && links_view(v@) == ls,
                Err(m) => r matches Err(Error::InvalidUrl(e)) && e@ == m,
            },
    {
        let base = match parse_url(base_url) {
            Ok(b) => b,
            Err(e) => {
                let mut m = "Invalid base URL: ".to_owned();
                m.append(e.as_str());
                return Err(Error::InvalidUrl(m));
            },
        };
        let ghost host = opt_view(base.host);
        let ghost scheme = base.scheme@;
        let es = select_all(document.source.as_str(), "a[href]", "href");
        let ghost ev = es@.map_values(|e: (Option<String>, String)| element_view(e));
        let mut links: Vec<Link> = Vec::new();
        let mut i: usize = 0;
        assert(ev.take(0) =~= Seq::<(Option<Seq<char>>, Seq<char>)>::empty());
        assert(links_view(links@) =~= Seq::<LinkView>::empty());
        while i < es.len()
            invariant
                i <= es.len(),
                ev == es@.map_values(|e: (Option<String>, String)| element_view(e)),
                host == opt_view(base.host),
                scheme == base.scheme@,
                url_parse_of(base_url@) == Ok::<(Seq<char>, Option<Seq<char>>), Seq<char>>((scheme, host)),
                links_view(links@) == links_fold(ev.take(i as int), base_url@, scheme, host),
            decreases es.len() - i,
        {
            assert(ev.take(i + 1).drop_last() =~= ev.take(i as int));
            assert(ev.take(i + 1).last() == element_view(es@[i as int]));
            let e = &es[i];
            let text = &e.1;
            match &e.0 {
                None => {},
                Some(h) => {
                    let hc = chars_of(h.as_str());
                    if hc.len() == 0 || str_starts_with(&hc, "javascript:") || str_starts_with(&hc, "#") {
                    } else {
                        let resolved = if str_starts_with(&hc, "http://") || str_starts_with(&hc, "https://") {
                            Some(h.clone())
                        } else if str_starts_with(&hc, "/") {
                            let mut u = base.scheme.clone();
                            u.append("://");
                            match &base.host {
                                Some(hs) => u.append(hs.as_str()),
                                None => {},
                            }
                            u.append(h.as_str());
                            Some(u)
                        } else {
                            url_join(base_url, h.as_str())
                        };
                        match resolved {
                            None => {},
                            Some(u) => {
                                if !contains_url(&links, &u) {
                                    let is_internal = self.is_internal_link(u.as_str(), &base.host);
                                    let tc = chars_of(text.as_str());
                                    let t = string_from_chars(&trim_chars(&tc));
                                    let link = Link { url: u, text: t, is_internal };
                                    let ghost old_l = links_view(links@);
                                    let ghost lv = link@;
                                    links.push(link);
                                    assert(links_view(links@) =~= old_l.push(lv));
                                }
                            },
                        }
                    }
                },
            }
            i = i + 1;
        }
        assert(ev.take(es.len() as int) =~= ev);
        Ok(links)
    }

    /// Check if a URL is internal (on the host `base_host`).
    fn is_internal_link(&self, url: &str, base_host: &Option<String>) -> (b: bool)
        ensures
            b == is_internal_url(url@, opt_view(*base_host)),
    {
        match parse_url(url) {
            Ok(p) => opt_eq(&p.host, base_host),
            Err(_) => false,
        }
    }

    /// Filter links to only incl those matching patterns: a link matching an
    /// excl pattern is dropped; with incl patterns, only links matching one
    /// of them are kept.
    pub fn filter_links(links: &Vec<Link>, include_patterns: &Vec<String>, exclude_patterns: &Vec<String>) -> (r: Vec<Link>)
        ensures
            links_view(r@) == filter_links_spec(
                links_view(links@),
                string_seq(include_patterns@),
                string_seq(exclude_patterns@),
            ),
    {
        let ghost lv = links_view(links@);
        let ghost inc = string_seq(include_patterns@);
        let ghost exc = string_seq(exclude_patterns@);
        let mut out: Vec<Link> = Vec::new();
        let mut i: usize = 0;
        assert(lv.take(0) =~= Seq::<LinkView>::empty());
        assert(links_view(out@) =~= Seq::<LinkView>::empty());
        while i < links.len()
            invariant
                i <= links.len(),
                lv == links_view(links@),
                inc == string_seq(include_patterns@),
                exc == string_seq(exclude_patterns@),
                links_view(out@) == filter_links_spec(lv.take(i as int), inc, exc),
            decreases links.len() - i,
        {
            assert(lv.take(i + 1).drop_last() =~= lv.take(i as int));
            assert(lv.take(i + 1).last() == links@[i as int]@);
            let link = &links[i];
            if passes(link.url.as_str(), include_patterns, exclude_patterns) {
                let ghost old_o = links_view(out@);
                let c = Link { url: link.url.clone(), text: link.text.clone(), is_internal: link.is_internal };
                out.push(c);
                assert(links_view(out@) =~= old_o.push(link@));
            }
            i = i + 1;
        }
        assert(lv.take(links.len() as int) =~= lv);
        out
    }
}

impl Default for HtmlParser {
    fn default() -> (r: Self) {
        HtmlParser::new()
    }
}

/// Whether two optional strings are equal.
fn opt_eq(a: &Option<String>, b: &Option<String>) -> (r: bool)
    ensures
        r == (opt_view(*a) == opt_view(*b)),
{
    match (a, b) {
        (Some(x), Some(y)) => *x == *y,
        (None, None) => true,
        _ => false,
    }
}

/// Whether the URL `u` passes the incl and excl patterns.
pub fn passes(u: &str, include_patterns: &Vec<String>, exclude_patterns: &Vec<String>) -> (b: bool)
    ensures
        b == passes_patterns(u@, string_seq(include_patterns@), string_seq(exclude_patterns@)),
{
    let ghost inc = string_seq(include_patterns@);
    let ghost exc = string_seq(exclude_patterns@);
    let mut i: usize = 0;
    while i < exclude_patterns.len()
        invariant
            i <= exclude_patterns.len(),
            exc == string_seq(exclude_patterns@),
            forall|k: int| 0 <= k < i ==> !regex_is_match_of(#[trigger] exc[k], u@),
        decreases exclude_patterns.len() - i,
    {
        assert(exc[i as int] == exclude_patterns@[i as int]@);
        if regex_is_match(exclude_patterns[i].as_str(), u) {
            return false;
        }
        i = i + 1;
    }
    if include_patterns.len() == 0 {
        return true;
    }
    let mut j: usize = 0;
    while j < include_patterns.len()
        invariant
            j <= include_patterns.len(),
            inc == string_seq(include_patterns@),
            exc == string_seq(exclude_patterns@),
            forall|k: int| 0 <= k < exc.len() ==> !regex_is_match_of(#[trigger] exc[k], u@),
            forall|k: int| 0 <= k < j ==> !regex_is_match_of(#[trigger] inc[k], u@),
        decreases include_patterns.len() - j,
    {
        assert(inc[j as int] == include_patterns@[j as int]@);
        if regex_is_match(include_patterns[j].as_str(), u) {
            return true;
        }
        j = j + 1;
    }
    false
}

/// Extracting a page's links never yields a URL twice.
pub proof fn law_page_links_distinct(
    es: Seq<(Option<Seq<char>>, Seq<char>)>,
    base: Seq<char>,
    scheme: Seq<char>,
    host: Option<Seq<char>>,
)
    ensures
        forall|i: int, j: int|
            0 <= i < j < links_fold(es, base, scheme, host).len() ==> links_fold(es, base, scheme, host)[i].url
                != links_fold(es, base, scheme, host)[j].url,
    decreases es.len(),
{
    if es.len() > 0 {
        law_page_links_distinct(es.drop_last(), base, scheme, host);
        let prev = links_fold(es.drop_last(), base, scheme, host);
        let now = links_fold(es, base, scheme, host);
        assert forall|i: int, j: int| 0 <= i < j < now.len() implies now[i].url != now[j].url by {
            if j == prev.len() && now.len() == prev.len() + 1 {
                assert(prev[i].url == now[i].url);
                if now[i].url == now[j].url {
                    assert(has_url(prev, now[j].url));
                }
            } else {
                assert(now[i] == prev[i] && now[j] == prev[j]);
            }
        }
    }
}

/// Include patterns are alternatives and exclude patterns vetoes: a URL that
/// matches some include pattern (or there is none) and no exclude pattern
/// passes; one that matches an exclude pattern, or no include pattern of a
/// non-empty list, does not.
pub proof fn law_patterns_any_include(u: Seq<char>, incl: Seq<Seq<char>>, excl: Seq<Seq<char>>)
    ensures
        (incl.len() == 0 || exists|i: int| 0 <= i < incl.len() && regex_is_match_of(#[trigger] incl[i], u))
            && (forall|j: int| 0 <= j < excl.len() ==> !regex_is_match_of(#[trigger] excl[j], u))
            ==> passes_patterns(u, incl, excl),
        (exists|j: int| 0 <= j < excl.len() && regex_is_match_of(#[trigger] excl[j], u)) ==> !passes_patterns(
            u,
            incl,
            excl,
        ),
        incl.len() > 0 && (forall|i: int| 0 <= i < incl.len() ==> !regex_is_match_of(#[trigger] incl[i], u))
            ==> !passes_patterns(u, incl, excl),
{
}

} // verus!
