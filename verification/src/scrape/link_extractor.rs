//! Link extraction from HTML.
use vstd::prelude::*;

pub use crate::scrape::parser::Link;
use crate::scrape::dom::{element_view, elements_of, opt_view, parse_url, select_all, url_join, url_join_of, url_parse_of};
use crate::scrape::parser::{has_url, links_view, starts_with, LinkView};
use crate::text::{chars_of, matches_at, string_from_chars, trim_chars, trim_seq};

verus! {

broadcast use vstd::string::group_string_axioms;

/// Whether a link with this `href` is skipped: empty once trimmed, an anchor,
/// or a `javascript:`, `mailto:`, `tel:` or `data:` link.
pub open spec fn skips_href(href: Seq<char>) -> bool {
    let t = trim_seq(href);
    t.len() == 0 || starts_with(t, "#"@) || starts_with(t, "javascript:"@) || starts_with(
        t,
        "mailto:"@,
    ) || starts_with(t, "tel:"@) || starts_with(t, "data:"@)
}

/// `href` resolved against `base`: absolute HTTP links as they are, others
/// joined to the base URL, and `href` itself where that fails.
pub open spec fn resolved_url(href: Seq<char>, base: Seq<char>) -> Seq<char> {
    if starts_with(href, "http://"@) || starts_with(href, "https://"@) {
        href
    } else {
        match url_join_of(base, href) {
            Some(u) => u,
            None => href,
        }
    }
}

/// The host of the URL `u`, if it parses and has one.
pub open spec fn host_of(u: Seq<char>) -> Option<Seq<char>> {
    match url_parse_of(u) {
        Ok((_, h)) => h,
        Err(_) => None,
    }
}

/// Whether the URL `u` is on the domain of the base page (never, where the base
/// page has none).
pub open spec fn on_domain(u: Seq<char>, domain: Option<Seq<char>>) -> bool {
    match domain {
        Some(d) => host_of(u) == Some(d),
        None => false,
    }
}

/// The links found so far, after one more `<a href>` element.
pub open spec fn extract_step(
    links: Seq<LinkView>,
    e: (Option<Seq<char>>, Seq<char>),
    base: Seq<char>,
) -> Seq<LinkView> {
    match e.0 {
        None => links,
        Some(href) => if skips_href(href) {
            links
        } else {
            let u = resolved_url(href, base);
            if has_url(links, u) {
                links
            } else {
                links.push(LinkView { url: u, text: trim_seq(e.1), is_internal: on_domain(u, host_of(base)) })
            }
        },
    }
}

/// The links of the elements `es`.
pub open spec fn extract_fold(es: Seq<(Option<Seq<char>>, Seq<char>)>, base: Seq<char>) -> Seq<LinkView>
    decreases es.len(),
{
    if es.len() == 0 {
        Seq::empty()
    } else {
        extract_step(extract_fold(es.drop_last(), base), es.last(), base)
    }
}

/// The links of the page `html` at `base`.
pub open spec fn extracted_links(html: Seq<char>, base: Seq<char>) -> Seq<LinkView> {
    extract_fold(elements_of(html, "a[href]"@, "href"@), base)
}

/// Whether no two links of `ls` have the same URL.
pub open spec fn distinct_urls(ls: Seq<LinkView>) -> bool {
    forall|i: int, j: int| 0 <= i < j < ls.len() ==> ls[i].url != ls[j].url
}

/// Extracting links never yields a URL twice.
pub proof fn lemma_extract_distinct(es: Seq<(Option<Seq<char>>, Seq<char>)>, base: Seq<char>)
    ensures
        distinct_urls(extract_fold(es, base)),
    decreases es.len(),
{
    if es.len() > 0 {
        lemma_extract_distinct(es.drop_last(), base);
        let prev = extract_fold(es.drop_last(), base);
        let now = extract_fold(es, base);
        assert forall|i: int, j: int| 0 <= i < j < now.len() implies now[i].url != now[j].url by {
            if j == prev.len() && now.len() == prev.len() + 1 {
                assert(prev[i].url == now[i].url);
                if now[i].url == now[j].url {
                    assert(has_url(prev, now[j].url));
                }
            } else {
                assert(now[i] == prev[i] && now[j] == prev[j]);
            }
        }
    }
}

/// Whether two optional strings are equal.
fn opt_str_eq(a: &Option<String>, b: &Option<String>) -> (r: bool)
    ensures
        r == (opt_view(*a) == opt_view(*b)),
{
    match (a, b) {
        (Some(x), Some(y)) => *x == *y,
        (None, None) => true,
        _ => false,
    }
}

/// The host of the URL `u`, if it parses and has one.
fn host(u: &str) -> (r: Option<String>)
    ensures
        opt_view(r) == host_of(u@),
{
    match parse_url(u) {
        Ok(p) => p.host,
        Err(_) => None,
    }
}

/// Whether the string `s` starts with `p`.
fn begins_with(s: &Vec<char>, p: &str) -> (b: bool)
    ensures
        b == starts_with(s@, p@),
{
    let pc = chars_of(p);
    matches_at(s, &pc, 0)
}

/// Whether some link of `links` has the URL `u`.
fn has_link(links: &Vec<Link>, u: &String) -> (b: bool)
    ensures
        b == has_url(links_view(links@), u@),
{
    let mut i: usize = 0;
    while i < links.len()
        invariant
            i <= links.len(),
            forall|k: int| 0 <= k < i ==> links@[k].url@ != u@,
        decreases links.len() - i,
    {
        if links[i].url == *u {
            assert(links_view(links@)[i as int].url == u@);
            return true;
        }
        i = i + 1;
    }
    assert forall|k: int| 0 <= k < links_view(links@).len() implies links_view(links@)[k].url
        != u@ by {
        assert(links_view(links@)[k] == links@[k]@);
    }
    false
}

/// Link extractor for HTML documents.
pub struct LinkExtractor;

impl LinkExtractor {
    /// Extract links from HTML: each link once, resolved against `base_url`,
    /// marked internal when on the base URL's host.
    pub fn extract(html: &str, base_url: &str) -> (r: Vec<Link>)
        ensures
            links_view(r@) == extracted_links(html@, base_url@),
            distinct_urls(links_view(r@)),
    {
        let es = select_all(html, "a[href]", "href");
        let ghost ev = es@.map_values(|e: (Option<String>, String)| element_view(e));
        let base_domain = host(base_url);
        let mut links: Vec<Link> = Vec::new();
        let mut i: usize = 0;
        assert(ev.take(0) =~= Seq::<(Option<Seq<char>>, Seq<char>)>::empty());
        assert(links_view(links@) =~= Seq::<LinkView>::empty());
        while i < es.len()
            invariant
                i <= es.len(),
                ev == es@.map_values(|e: (Option<String>, String)| element_view(e)),
                opt_view(base_domain) == host_of(base_url@),
                links_view(links@) == extract_fold(ev.take(i as int), base_url@),
            decreases es.len() - i,
        {
            assert(ev.take(i + 1).drop_last() =~= ev.take(i as int));
            assert(ev.take(i + 1).last() == element_view(es@[i as int]));
            let e = &es[i];
            match &e.0 {
                None => {},
                Some(href) => {
                    if !Self::should_skip_href(href.as_str()) {
                        let resolved = Self::resolve_url(href.as_str(), base_url);
                        if !has_link(&links, &resolved) {
                            let is_internal = match &base_domain {
                                Some(_) => {
                                    let h = host(resolved.as_str());
                                    match h {
                                        Some(_) => opt_str_eq(&h, &base_domain),
                                        None => false,
                                    }
                                },
                                None => false,
                            };
                            let tc = chars_of(e.1.as_str());
                            let text = string_from_chars(&trim_chars(&tc));
                            let link = Link { url: resolved, text, is_internal };
                            let ghost old_l = links_view(links@);
                            let ghost lv = link@;
                            links.push(link);
                            assert(links_view(links@) =~= old_l.push(lv));
                        }
                    }
                },
            }
            i = i + 1;
        }
        assert(ev.take(es.len() as int) =~= ev);
        proof {
            lemma_extract_distinct(ev, base_url@);
        }
        links
    }

    /// Check if an href should be skipped.
    pub fn should_skip_href(href: &str) -> (b: bool)
        ensures
            b == skips_href(href@),
    {
        let hc = chars_of(href);
        let t = trim_chars(&hc);
        t.len() == 0 || begins_with(&t, "#") || begins_with(&t, "javascript:") || begins_with(
            &t,
            "mailto:",
        ) || begins_with(&t, "tel:") || begins_with(&t, "data:")
    }

    /// Resolve a URL relative to a base URL.
    fn resolve_url(href: &str, base_url: &str) -> (r: String)
        ensures
            r@ == resolved_url(href@, base_url@),
    {
        let hc = chars_of(href);
        if begins_with(&hc, "http://") || begins_with(&hc, "https://") {
            return href.to_owned();
        }
        match url_join(base_url, href) {
            Some(u) => u,
            None => href.to_owned(),
        }
    }
}

impl Default for LinkExtractor {
    fn default() -> (r: Self) {
        LinkExtractor
    }
}

/// A link that is not an absolute HTTP(S) URL is resolved exactly as the URL
/// standard joins it to the page's URL (relative to the page, not to the site's
/// root), and an absolute one is kept as it is.
pub proof fn law_resolve_joins_to_page(href: Seq<char>, base: Seq<char>)
    ensures
        !starts_with(href, "http://"@) && !starts_with(href, "https://"@) ==> match url_join_of(base, href) {
            Some(u) => resolved_url(href, base) == u,
            None => resolved_url(href, base) == href,
        },
        starts_with(href, "http://"@) || starts_with(href, "https://"@) ==> resolved_url(href, base) == href,
{
}

} // verus!
