//! What the outside HTML, Markdown and URL libraries compute, taken as plain values.
//!
//! Parsing HTML and selecting elements is the `scraper` crate's work, picking
//! an article out of a page is `dom_smoothie`'s, turning HTML into Markdown is
//! `fast_html2md`'s, and URL parsing is the `url` crate's. Each is named here
//! as a function of its string arguments; the library's logic works on the
//! strings that come back.
use vstd::prelude::*;

verus! {

/// The chars of an optional string.
pub open spec fn opt_view(o: Option<String>) -> Option<Seq<char>> {
    match o {
        Some(s) => Some(s@),
        None => None,
    }
}

/// The text of the first element of the document `html` that the CSS selector
/// `selector` matches; `None` when the selector does not parse or matches nothing.
pub uninterp spec fn first_text_of(html: Seq<char>, selector: Seq<char>) -> Option<Seq<char>>;

/// The HTML of the first element of the document `html` that `selector`
/// matches; `None` when the selector does not parse or matches nothing.
pub uninterp spec fn first_html_of(html: Seq<char>, selector: Seq<char>) -> Option<Seq<char>>;

/// The value of attribute `attr` of the first element of the document `html`
/// that `selector` matches: `None` when no element matches (or the selector does
/// not parse), `Some(None)` when that element has no such attribute.
pub uninterp spec fn first_attr_of(html: Seq<char>, selector: Seq<char>, attr: Seq<char>) -> Option<
    Option<Seq<char>>,
>;

/// The text of the whole document `html`.
pub uninterp spec fn root_text_of(html: Seq<char>) -> Seq<char>;

/// The HTML of the root element of the document `html`.
pub uninterp spec fn root_html_of(html: Seq<char>) -> Seq<char>;

/// For each element of the document `html` that `selector` matches, in document
/// order: the value of its attribute `attr`, if it has one, and its text.
pub uninterp spec fn elements_of(html: Seq<char>, selector: Seq<char>, attr: Seq<char>) -> Seq<
    (Option<Seq<char>>, Seq<char>),
>;

/// `scraper::Html::parse_document`, `scraper::Selector::parse`, `Html::select`
/// and `ElementRef::text`: the text of the first element that matches.
///
/// Trusted: the result is `first_text_of(html, selector)`.
#[verifier::external_body]
pub(crate) fn select_first_text(html: &str, selector: &str) -> (r: Option<String>)
    ensures
        opt_view(r) == first_text_of(html@, selector@),
{
    let doc = ::scraper::Html::parse_document(html);
    let sel = ::scraper::Selector::parse(selector).ok()?;
    let el = doc.select(&sel).next()?;
    Some(el.text().collect::<String>())
}

/// `scraper::Html::parse_document`, `scraper::Selector::parse`, `Html::select`
/// and `ElementRef::html`: the HTML of the first element that matches.
///
/// Trusted: the result is `first_html_of(html, selector)`.
#[verifier::external_body]
pub(crate) fn select_first_html(html: &str, selector: &str) -> (r: Option<String>)
    ensures
        opt_view(r) == first_html_of(html@, selector@),
{
    let doc = ::scraper::Html::parse_document(html);
    let sel = ::scraper::Selector::parse(selector).ok()?;
    let el = doc.select(&sel).next()?;
    Some(el.html())
}

/// `scraper::Html::parse_document`, `scraper::Selector::parse`, `Html::select`
/// and `Element::attr`: an attribute of the first element that matches.
///
/// Trusted: the result is `first_attr_of(html, selector, attr)`.
#[verifier::external_body]
pub(crate) fn select_first_attr(html: &str, selector: &str, attr: &str) -> (r: Option<
    Option<String>,
>)
    ensures
        match r {
            Some(a) => first_attr_of(html@, selector@, attr@) == Some(opt_view(a)),
            None => first_attr_of(html@, selector@, attr@) is None,
        },
{
    let doc = ::scraper::Html::parse_document(html);
    let sel = ::scraper::Selector::parse(selector).ok()?;
    let el = doc.select(&sel).next()?;
    Some(el.value().attr(attr).map(|s| s.to_string()))
}

/// `scraper::Html::parse_document`, `Html::root_element` and `ElementRef::text`.
///
/// Trusted: the result is `root_text_of(html)`.
#[verifier::external_body]
pub(crate) fn document_text(html: &str) -> (r: String)
    ensures
        r@ == root_text_of(html@),
{
    let doc = ::scraper::Html::parse_document(html);
    doc.root_element().text().collect::<String>()
}

/// `scraper::Html::parse_document`, `Html::root_element` and `ElementRef::html`.
///
/// Trusted: the result is `root_html_of(html)`.
#[verifier::external_body]
pub(crate) fn document_html(html: &str) -> (r: String)
    ensures
        r@ == root_html_of(html@),
{
    let doc = ::scraper::Html::parse_document(html);
    doc.root_element().html()
}

/// One matched element as plain values: its attribute, if any, and its text.
pub open spec fn element_view(e: (Option<String>, String)) -> (Option<Seq<char>>, Seq<char>) {
    (opt_view(e.0), e.1@)
}

/// `scraper::Html::parse_document`, `scraper::Selector::parse`, `Html::select`,
/// `Element::attr` and `ElementRef::text`, for every element that matches.
///
/// Trusted: the result is `elements_of(html, selector, attr)` (no element where
/// the selector does not parse).
#[verifier::external_body]
pub(crate) fn select_all(html: &str, selector: &str, attr: &str) -> (r: Vec<(Option<String>, String)>)
    ensures
        r@.map_values(|e: (Option<String>, String)| element_view(e)) == elements_of(
            html@,
            selector@,
            attr@,
        ),
{
    let doc = ::scraper::Html::parse_document(html);
    match ::scraper::Selector::parse(selector) {
        Ok(sel) => doc.select(&sel).map(
            |el| (el.value().attr(attr).map(|s| s.to_string()), el.text().collect::<String>()),
        ).collect(),
        Err(_) => Vec::new(),
    }
}

/// The parts of an article as plain values: title, content (HTML), excerpt,
/// author, published time.
pub type ArticleParts = (Seq<char>, Seq<char>, Option<Seq<char>>, Option<Seq<char>>, Option<
    Seq<char>,
>);

/// The article that Readability picks out of the page `html` at `url`, reading at
/// most `max_elements` elements and writing its text as Markdown; `None` where
/// it refuses the URL or finds no article.
pub uninterp spec fn readability_of(html: Seq<char>, url: Seq<char>, max_elements: usize) -> Option<
    ArticleParts,
>;

/// An article picked out of a page.
pub struct Article {
    /// The title.
    pub title: String,
    /// The relevant HTML content.
    pub content: String,
    /// The excerpt.
    pub excerpt: Option<String>,
    /// The author.
    pub byline: Option<String>,
    /// The published time.
    pub published_time: Option<String>,
}

/// The plain values of an article.
pub open spec fn article_parts(a: Article) -> ArticleParts {
    (a.title@, a.content@, opt_view(a.excerpt), opt_view(a.byline), opt_view(a.published_time))
}

/// `dom_smoothie::Readability::new` with a configuration that reads at most
/// `max_elements` elements in Markdown text mode, then `Readability::parse`.
///
/// Trusted: the result is `readability_of(html, url, max_elements)`.
#[verifier::external_body]
pub(crate) fn readability_article(html: &str, url: &str, max_elements: usize) -> (r: Option<Article>)
    ensures
        match r {
            Some(a) => readability_of(html@, url@, max_elements) == Some(article_parts(a)),
            None => readability_of(html@, url@, max_elements) is None,
        },
{
    let config = dom_smoothie::Config {
        max_elements_to_parse: max_elements,
        text_mode: dom_smoothie::TextMode::Markdown,
        ..Default::default()
    };
    let mut readability = dom_smoothie::Readability::new(html, Some(url), Some(config)).ok()?;
    let a = readability.parse().ok()?;
    Some(Article {
        title: a.title,
        content: a.content.to_string(),
        excerpt: a.excerpt,
        byline: a.byline,
        published_time: a.published_time,
    })
}

/// The Markdown that `fast_html2md` writes for `html`.
pub uninterp spec fn markdown_of(html: Seq<char>, commonmark: bool) -> Seq<char>;

/// `fast_html2md::parse_html`.
///
/// Trusted: the result is `markdown_of(html, commonmark)`.
#[verifier::external_body]
pub(crate) fn html_to_markdown(html: &str, commonmark: bool) -> (r: String)
    ensures
        r@ == markdown_of(html@, commonmark),
{
    html2md::parse_html(html, commonmark)
}

/// What `url::Url::parse` makes of `url`: its scheme and host (if it has one),
/// or the message of the parse error.
pub uninterp spec fn url_parse_of(url: Seq<char>) -> Result<(Seq<char>, Option<Seq<char>>), Seq<char>>;

/// `href` resolved against the URL `base`; `None` when `base` does not parse or
/// the result is no URL.
pub uninterp spec fn url_join_of(base: Seq<char>, href: Seq<char>) -> Option<Seq<char>>;

/// The parts of a parsed URL that the library reads.
pub struct UrlParts {
    /// The scheme.
    pub scheme: String,
    /// The host, if any.
    pub host: Option<String>,
}

/// The plain values of a URL parse.
pub open spec fn url_parts_view(r: Result<UrlParts, String>) -> Result<(Seq<char>, Option<Seq<char>>), Seq<char>> {
    match r {
        Ok(p) => Ok((p.scheme@, opt_view(p.host))),
        Err(e) => Err(e@),
    }
}

/// `url::Url::parse`, then `Url::scheme` and `Url::host_str`, or the parse
/// error's message.
///
/// Trusted: the result is `url_parse_of(url)`.
#[verifier::external_body]
pub(crate) fn parse_url(url: &str) -> (r: Result<UrlParts, String>)
    ensures
        url_parts_view(r) == url_parse_of(url@),
{
    match url::Url::parse(url) {
        Ok(u) => Ok(UrlParts { scheme: u.scheme().to_string(), host: u.host_str().map(|h| h.to_string()) }),
        Err(e) => Err(e.to_string()),
    }
}

/// `url::Url::parse`, `Url::join` and the joined URL's string form.
///
/// Trusted: the result is `url_join_of(base, href)`.
#[verifier::external_body]
pub(crate) fn url_join(base: &str, href: &str) -> (r: Option<String>)
    ensures
        opt_view(r) == url_join_of(base@, href@),
{
    let b = url::Url::parse(base).ok()?;
    b.join(href).ok().map(|u| u.to_string())
}

} // verus!
