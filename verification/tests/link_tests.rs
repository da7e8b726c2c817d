use docs_mcp_rs::error::Error;
use docs_mcp_rs::scrape::crawler::{start_domain, CrawlConfig, CrawlFrontier, CrawlResult, ScrapeMode};
use docs_mcp_rs::scrape::order::sort_results;
use docs_mcp_rs::scrape::link_extractor::{Link, LinkExtractor};
use docs_mcp_rs::scrape::parser::HtmlParser;
use docs_mcp_rs::types::ScraperOptions;

#[test]
fn test_extract_basic_links() {
    let html = "<html><body>\
            <a href=\"https://example.com/page1\">Page 1</a>\
            <a href=\"/page2\">Page 2</a>\
            <a href=\"page3\">Page 3</a>\
        </body></html>";

    let links = LinkExtractor::extract(html, "https://example.com/");

    assert_eq!(links.len(), 3);
    assert!(links.iter().any(|l| l.url == "https://example.com/page1"));
    assert!(links.iter().any(|l| l.url == "https://example.com/page2"));
    assert!(links.iter().any(|l| l.url == "https://example.com/page3"));
}

#[test]
fn test_skip_unwanted_links() {
    let html = "<html><body>\
            <a href=\"#section\">Anchor</a>\
            <a href=\"javascript:void(0)\">JS</a>\
            <a href=\"mailto:test@example.com\">Email</a>\
            <a href=\"tel:+123\">Phone</a>\
            <a href=\"data:text/plain,test\">Data</a>\
            <a href=\"\">Empty</a>\
            <a href=\"valid\">Valid Link</a>\
        </body></html>";

    let links = LinkExtractor::extract(html, "https://example.com/");

    assert_eq!(links.len(), 1);
    assert_eq!(links[0].url, "https://example.com/valid");
}

#[test]
fn test_internal_external_detection() {
    let html = "<html><body>\
            <a href=\"/internal\">Internal</a>\
            <a href=\"https://example.com/page\">Same Domain</a>\
            <a href=\"https://other.com/page\">External</a>\
        </body></html>";

    let links = LinkExtractor::extract(html, "https://example.com/");

    assert_eq!(links.len(), 3);

    let internal = links.iter().find(|l| l.url.contains("/internal")).unwrap();
    assert!(internal.is_internal);

    let same_domain = links.iter().find(|l| l.url == "https://example.com/page").unwrap();
    assert!(same_domain.is_internal);

    let external = links.iter().find(|l| l.url == "https://other.com/page").unwrap();
    assert!(!external.is_internal);
}

#[test]
fn test_deduplication() {
    let html = "<html><body>\
            <a href=\"/page\">Link 1</a>\
            <a href=\"/page\">Link 2</a>\
            <a href=\"/page\">Link 3</a>\
        </body></html>";

    let links = LinkExtractor::extract(html, "https://example.com/");

    assert_eq!(links.len(), 1);
    assert_eq!(links[0].url, "https://example.com/page");
}

#[test]
fn test_link_text() {
    let html = "<html><body>\
            <a href=\"/page\">Click Here</a>\
        </body></html>";

    let links = LinkExtractor::extract(html, "https://example.com/");

    assert_eq!(links.len(), 1);
    assert_eq!(links[0].text, "Click Here");
}

#[test]
fn test_extract_links() {
    let html = r#"
        <html><body>
            <a href="https://example.com/page1">Page 1</a>
            <a href="/page2">Page 2</a>
            <a href="https://other.com/page3">External</a>
            <a href="javascript:void(0)">Skip</a>
        </body></html>
    "#;
    let parser = HtmlParser::new();
    let doc = parser.parse(html);

    let links = parser.extract_links(&doc, "https://example.com/").unwrap();
    assert_eq!(links.len(), 3);

    assert!(links.iter().any(|l| l.url == "https://example.com/page1" && l.is_internal));
    assert!(links.iter().any(|l| l.url == "https://example.com/page2" && l.is_internal));
    assert!(links.iter().any(|l| l.url == "https://other.com/page3" && !l.is_internal));
}

#[test]
fn test_crawl_config_default() {
    let config = CrawlConfig::default();
    assert_eq!(config.max_pages, 1000);
    assert_eq!(config.max_depth, 3);
    assert_eq!(config.max_concurrency, 5);
}

#[test]
fn extract_links_refuses_a_bad_base() {
    let parser = HtmlParser::new();
    let doc = parser.parse("<a href=\"/x\">x</a>");
    let r = parser.extract_links(&doc, "not a url");
    match r {
        Err(docs_mcp_rs::error::Error::InvalidUrl(m)) => assert!(m.starts_with("Invalid base URL: ")),
        _ => panic!("expected an invalid URL error"),
    }
}

#[test]
fn should_skip_href_cases() {
    assert!(LinkExtractor::should_skip_href("   "));
    assert!(LinkExtractor::should_skip_href(" #top"));
    assert!(LinkExtractor::should_skip_href("mailto:a@b.c"));
    assert!(!LinkExtractor::should_skip_href("/docs"));
}

#[test]
fn parser_extracts_description_and_main_content() {
    let html = "<html><head><title>  T  </title><meta name=\"description\" content=\"About\"></head>\
        <body><nav>N</nav><article>Body text</article></body></html>";
    let parser = HtmlParser::new();
    let doc = parser.parse(html);
    assert_eq!(parser.extract_title(&doc), Some("T".to_string()));
    assert_eq!(parser.extract_description(&doc), Some("About".to_string()));
    assert_eq!(parser.extract_main_content(&doc), "Body text");
    let none = parser.parse("<html><body><p>Only body</p></body></html>");
    assert_eq!(parser.extract_description(&none), None);
    assert_eq!(parser.extract_main_content(&none), "Only body");
}

#[test]
fn filter_links_by_patterns() {
    let links = vec![
        Link { url: "https://e.com/docs/a".to_string(), text: String::new(), is_internal: true },
        Link { url: "https://e.com/blog/b".to_string(), text: String::new(), is_internal: true },
        Link { url: "https://e.com/docs/c.pdf".to_string(), text: String::new(), is_internal: true },
    ];
    let kept = HtmlParser::filter_links(&links, &vec!["/docs/".to_string()], &vec![r"\.pdf$".to_string()]);
    assert_eq!(kept.len(), 1);
    assert_eq!(kept[0].url, "https://e.com/docs/a");
    let all = HtmlParser::filter_links(&links, &vec![], &vec![]);
    assert_eq!(all.len(), 3);
}

#[test]
fn crawl_config_from_options() {
    let options = ScraperOptions {
        max_pages: Some(10),
        max_depth: None,
        include_patterns: Some(vec!["docs".to_string(), "(".to_string()]),
        exclude_patterns: None,
        respect_robots_txt: None,
        scrape_mode: Some("FETCH".to_string()),
    };
    let c = CrawlConfig::from_options(options);
    assert_eq!(c.max_pages, 10);
    assert_eq!(c.max_depth, 3);
    assert_eq!(c.include_patterns, vec!["docs".to_string()]);
    assert_eq!(c.scrape_mode, ScrapeMode::Fetch);
    let mut o = ScraperOptions::default();
    o.scrape_mode = Some("weird".to_string());
    assert_eq!(CrawlConfig::from_options(o).scrape_mode, ScrapeMode::Browser);
}

#[test]
fn scrape_mode_parse() {
    assert_eq!("Browser".parse::<ScrapeMode>(), Ok(ScrapeMode::Browser));
    assert_eq!(
        "x".parse::<ScrapeMode>(),
        Err("Unknown scrape mode: x, expected 'fetch' or 'browser'".to_string())
    );
}

#[test]
fn should_crawl_checks_host_and_patterns() {
    let mut c = CrawlConfig::default();
    assert!(c.should_crawl("https://example.com/docs", "example.com"));
    assert!(!c.should_crawl("https://other.com/docs", "example.com"));
    c.exclude_patterns = vec![r"\.pdf$".to_string()];
    assert!(!c.should_crawl("https://example.com/a.pdf", "example.com"));
    c.include_patterns = vec!["/docs".to_string()];
    assert!(!c.should_crawl("https://example.com/blog", "example.com"));
    assert!(c.should_crawl("https://example.com/docs/x", "example.com"));
}

#[test]
fn frontier_queues_each_url_once() {
    let mut config = CrawlConfig::default();
    config.max_depth = 1;
    let mut f = CrawlFrontier::new("https://example.com/");
    let first = f.next_url(&config, "example.com");
    assert_eq!(first, Some(("https://example.com/".to_string(), 0)));
    let links = vec![
        Link { url: "https://example.com/a".to_string(), text: String::new(), is_internal: true },
        Link { url: "https://example.com/a".to_string(), text: String::new(), is_internal: true },
        Link { url: "https://other.com/b".to_string(), text: String::new(), is_internal: false },
        Link { url: "https://example.com/".to_string(), text: String::new(), is_internal: true },
    ];
    f.record_page(0, &links);
    assert_eq!(f.pages(), 1);
    assert_eq!(f.queue_len(), 1);
    assert_eq!(f.visited_len(), 2);
    let p = f.progress("https://example.com/".to_string(), 0);
    assert_eq!(p.total_discovered, 2);
    let next = f.next_url(&config, "example.com");
    assert_eq!(next, Some(("https://example.com/a".to_string(), 1)));
    f.record_page(1, &vec![Link { url: "https://example.com/deep".to_string(), text: String::new(), is_internal: true }]);
    // too deep: dropped
    assert_eq!(f.next_url(&config, "example.com"), None);
}

#[test]
fn frontier_stops_at_page_limit() {
    let mut config = CrawlConfig::default();
    config.max_pages = 1;
    let mut f = CrawlFrontier::new("https://example.com/");
    assert!(f.next_url(&config, "example.com").is_some());
    f.record_page(0, &vec![Link { url: "https://example.com/a".to_string(), text: String::new(), is_internal: true }]);
    assert_eq!(f.next_url(&config, "example.com"), None);
}

#[test]
fn start_domain_of_a_url() {
    assert_eq!(start_domain("https://docs.rs/tokio/latest").unwrap(), "docs.rs");
    assert_eq!(start_domain("mailto:someone@example.com").unwrap(), "");
    match start_domain("not a url") {
        Err(Error::InvalidUrl(m)) => assert!(m.starts_with("Invalid start URL: ")),
        other => panic!("unexpected {:?}", other),
    }
}

fn result(url: &str, depth: usize) -> CrawlResult {
    CrawlResult {
        url: url.to_string(),
        title: None,
        content: String::new(),
        content_type: None,
        etag: None,
        last_modified: None,
        depth,
    }
}

#[test]
fn results_sort_by_depth_then_url() {
    let v = vec![result("https://x.org/b", 1), result("https://x.org/", 0), result("https://x.org/a", 1), result("https://x.org/c", 0)];
    let r = sort_results(v);
    let got: Vec<(usize, &str)> = r.iter().map(|c| (c.depth, c.url.as_str())).collect();
    assert_eq!(got, vec![(0, "https://x.org/"), (0, "https://x.org/c"), (1, "https://x.org/a"), (1, "https://x.org/b")]);
}

#[test]
fn results_with_equal_keys_keep_their_order() {
    let mut first = result("https://x.org/a", 1);
    first.title = Some("first".to_string());
    let mut second = result("https://x.org/a", 1);
    second.title = Some("second".to_string());
    let r = sort_results(vec![first, result("https://x.org/", 0), second]);
    let titles: Vec<Option<String>> = r.iter().map(|c| c.title.clone()).collect();
    assert_eq!(titles, vec![None, Some("first".to_string()), Some("second".to_string())]);
}
