use docs_mcp_rs::scrape::converter::HtmlToMarkdown;
use docs_mcp_rs::scrape::fetch::BrowserFetchConfig;
use docs_mcp_rs::scrape::parser::HtmlParser;

#[test]
fn test_convert_basic() {
    let html = "<html>\
        <head><title>Test Page</title></head>\
        <body>\
            <nav>Navigation</nav>\
            <article>\
                <h1>Main Title</h1>\
                <p>This is <strong>bold</strong> text.</p>\
            </article>\
            <footer>Footer</footer>\
        </body>\
        </html>";

    let result = HtmlToMarkdown::convert(html, "https://example.com/test");
    assert!(result.is_ok(), "Conversion should succeed");

    let article = result.unwrap();
    assert!(article.title.contains("Test") || article.title.contains("Main"));
    assert!(article.content.contains("bold"));
}

#[test]
fn test_removes_scripts_and_styles() {
    let html = "<html>\
        <head>\
            <title>Test</title>\
            <script>var x = 1;</script>\
            <style>body { color: red; }</style>\
        </head>\
        <body>\
            <main>\
                <h1>Content</h1>\
                <p>Real content here.</p>\
            </main>\
        </body>\
        </html>";

    let result = HtmlToMarkdown::convert(html, "https://example.com/test").unwrap();

    // Should not contain script or style content
    assert!(!result.content.contains("var x = 1"));
    assert!(!result.content.contains("color: red"));
    assert!(result.content.contains("Real content"));
}

#[test]
fn test_extracts_main_content() {
    let html = "<html>\
        <head><title>Documentation</title></head>\
        <body>\
            <header>Site Header</header>\
            <nav>Menu</nav>\
            <main>\
                <h1>Getting Started</h1>\
                <p>This is the main documentation content.</p>\
                <h2>Installation</h2>\
                <p>Install with cargo.</p>\
            </main>\
            <footer>Copyright 2024</footer>\
        </body>\
        </html>";

    let result = HtmlToMarkdown::convert(html, "https://docs.example.com/guide").unwrap();

    // Should contain main content
    assert!(result.content.contains("Getting Started"));
    assert!(result.content.contains("documentation content"));

    // Should not contain navigation/header/footer
    assert!(!result.content.contains("Site Header"));
    assert!(!result.content.contains("Menu"));
    assert!(!result.content.contains("Copyright"));
}

#[test]
fn test_post_process_removes_excess_newlines() {
    let markdown = "Line 1\n\n\n\n\nLine 2";
    let processed = HtmlToMarkdown::post_process(markdown);

    // Should reduce to at most 3 newlines
    assert!(!processed.contains("\n\n\n\n"));
    assert!(processed.contains("Line 1"));
    assert!(processed.contains("Line 2"));
}

#[test]
fn test_fallback_when_readability_fails() {
    // This HTML structure may cause Readability to fail (no clear article content)
    // but should still be parseable by the fallback HtmlParser
    let html = "<html>
        <head><title>Documentation Index</title></head>
        <body>
            <header>Site Header</header>
            <nav>
                <a href=\"/page1\">Page 1</a>
                <a href=\"/page2\">Page 2</a>
            </nav>
            <div class=\"content\">
                <h1>Welcome to Documentation</h1>
                <p>This is the main documentation page with links to various sections.</p>
                <ul>
                    <li><a href=\"/intro\">Introduction</a></li>
                    <li><a href=\"/guide\">User Guide</a></li>
                    <li><a href=\"/api\">API Reference</a></li>
                </ul>
            </div>
            <footer>Copyright 2024</footer>
        </body>
        </html>";

    // The conversion should succeed even if Readability fails
    let result = HtmlToMarkdown::convert(html, "https://docs.example.com/");
    assert!(
        result.is_ok(),
        "Conversion should succeed with fallback: {:?}",
        result.err()
    );

    let article = result.unwrap();
    // Should have extracted the title
    assert!(
        article.title.contains("Documentation"),
        "Title should contain 'Documentation', got: {}",
        article.title
    );

    // Should have extracted some content (even if Readability fails, fallback should work)
    assert!(!article.content.is_empty(), "Content should not be empty");

    // Should contain main content from the .content div
    assert!(
        article.content.contains("Welcome") || article.content.contains("documentation"),
        "Content should contain main text, got: {}",
        article.content
    );
}

#[test]
fn test_fallback_with_main_element() {
    // Test fallback extraction with <main> element
    let html = "<html>
        <head>
            <title>API Docs</title>
            <meta name=\"description\" content=\"API documentation for developers\">
        </head>
        <body>
            <header>Navigation</header>
            <main>
                <h1>API Reference</h1>
                <p>Complete API documentation for developers.</p>
                <h2>Endpoints</h2>
                <p>List of available endpoints.</p>
            </main>
            <footer>Footer content</footer>
        </body>
        </html>";

    let result = HtmlToMarkdown::convert(html, "https://api.example.com/docs");
    assert!(result.is_ok(), "Conversion should succeed");

    let article = result.unwrap();
    assert!(article.title.contains("API"));
    assert!(article.content.contains("API Reference"));
    assert!(article.content.contains("Endpoints"));
    // Should extract meta description as excerpt
    assert!(article.excerpt.is_some());
    assert!(article.excerpt.unwrap().contains("API documentation"));
}

#[test]
fn test_extract_title() {
    let html = r#"<html><head><title>Test Page</title></head><body></body></html>"#;
    let parser = HtmlParser::new();
    let doc = parser.parse(html);

    let title = parser.extract_title(&doc);
    assert_eq!(title, Some("Test Page".to_string()));
}

#[test]
fn test_browser_fetch_config_default() {
    let config = BrowserFetchConfig::default();
    assert!(config.headless);
    assert_eq!(config.timeout_secs, 30);
    assert!(config.extract_shadow_dom);
    assert!(config.process_iframes);
    assert_eq!(config.wait_after_load_ms, 500); // Updated default
}
