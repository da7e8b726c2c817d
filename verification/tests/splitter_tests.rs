use docs_mcp_rs::splitter::code_splitter::CodeSplitter;
use docs_mcp_rs::splitter::markdown_splitter::{align_to_char_boundary, MarkdownSplitter};
use docs_mcp_rs::splitter::text_splitter::TextSplitter;

#[test]
fn test_split_rust_code() {
    let code = r#"
fn main() {
    println!("Hello, world!");
}

struct Point {
    x: i32,
    y: i32,
}

impl Point {
    fn new(x: i32, y: i32) -> Self {
        Self { x, y }
    }
}
"#;
    let splitter = CodeSplitter::new();
    let chunks = splitter.split(code, "rust");

    assert!(!chunks.is_empty());

    // Check that function/struct names are in the content
    let content: String = chunks.iter().map(|c| c.content.as_str()).collect();
    assert!(content.contains("main"));
}

#[test]
fn test_split_python_code() {
    let code = r#"
def hello():
    print("Hello")

class Person:
    def __init__(self, name):
        self.name = name
    
    def greet(self):
        print(f"Hello, {self.name}")
"#;
    let splitter = CodeSplitter::new();
    let chunks = splitter.split(code, "python");

    assert!(!chunks.is_empty());
}

#[test]
fn code_splitter_test_split_empty() {
    let splitter = CodeSplitter::new();
    let chunks = splitter.split("", "rust");
    assert!(chunks.is_empty());
}

#[test]
fn test_merge_consecutive_empty_headers() {
    // Test that consecutive headers without content are merged with the next section
    let markdown = "# Main Title\n\n## Empty Section 1\n\n## Empty Section 2\n\n### Actual Content\n\nThis is the real content that should include all the parent headers.\n\n## Another Section\n\nMore content here.";

    let splitter = MarkdownSplitter::new();
    let chunks = splitter.split(markdown);

    // Should not have chunks with just headers (content shorter than header itself)
    for chunk in &chunks {
        let content = chunk.content.trim();
        assert!(
            content.len() > 20,
            "Chunk content too short ({} chars), likely header-only: {}",
            content.len(),
            content
        );
    }

    // The actual content section should include parent headers
    let actual_content_chunk = chunks.iter().find(|c| c.content.contains("real content"));
    assert!(actual_content_chunk.is_some(), "Should have chunk with actual content");

    let content = &actual_content_chunk.unwrap().content;
    // Should include the parent headers
    assert!(
        content.contains("Empty Section 1") || content.contains("Empty Section 2"),
        "Content should include parent headers"
    );
}

#[test]
fn test_split_simple_markdown() {
    let markdown = r#"# Main Title

This is the introduction.

## Section 1

Content for section 1.

## Section 2

Content for section 2.
"#;
    let splitter = MarkdownSplitter::new();
    let chunks = splitter.split(markdown);

    assert!(!chunks.is_empty());

    // Check that headers are included
    let content: String = chunks.iter().map(|c| c.content.as_str()).collect();
    assert!(content.contains("Main Title"));
    assert!(content.contains("Section 1"));
    assert!(content.contains("Section 2"));
}

#[test]
fn markdown_splitter_test_split_empty() {
    let splitter = MarkdownSplitter::new();
    let chunks = splitter.split("");
    assert!(chunks.is_empty());
}

#[test]
fn test_metadata_path() {
    let markdown = r#"# Level 1

## Level 2

### Level 3

Content here.
"#;
    let splitter = MarkdownSplitter::new();
    let chunks = splitter.split(markdown);

    // Find the chunk for Level 3
    let level3_chunk = chunks.iter().find(|c| c.content.contains("Level 3"));
    assert!(level3_chunk.is_some());

    let metadata = &level3_chunk.unwrap().metadata;
    assert_eq!(metadata.level, Some(3));
    assert!(metadata.path.is_some());
    let path = metadata.path.as_ref().unwrap();
    assert!(path.contains(&"Level 1".to_string()));
}

#[test]
fn test_content_before_header() {
    // Test markdown that starts with content before any header
    let markdown = r#"This is some introductory text.

It has multiple paragraphs.

# First Header

Content under first header.

## Second Header

More content.
"#;
    let splitter = MarkdownSplitter::new();
    let chunks = splitter.split(markdown);

    // Should have chunks for the intro text and each section
    assert!(!chunks.is_empty());

    // Check that intro text is included
    let intro_chunk = chunks.iter().find(|c| c.content.contains("introductory text"));
    assert!(intro_chunk.is_some(), "Should have chunk with intro text");

    // Check that headers are included
    let first_header_chunk = chunks.iter().find(|c| c.content.contains("First Header"));
    assert!(first_header_chunk.is_some(), "Should have chunk with first header");
}

#[test]
fn test_multibyte_utf8_characters() {
    // Test markdown with multi-byte UTF-8 characters (like emojis, Chinese, special symbols)
    let markdown = r#"# Test Header

This content has multi-byte characters: … (ellipsis), 🎉 (emoji), 中文 (Chinese).

## Section with more special chars

Some more content here with various Unicode characters: → ← ↑ ↓ ✓ × ÷ • ·

And a longer paragraph with repeated special characters: … … … … … … … … … …

# Another Header

Final section with emojis: 🚀 🌟 💡 🔧 📝
"#;
    let splitter = MarkdownSplitter::new();
    // This should not panic
    let chunks = splitter.split(markdown);

    // Should produce chunks
    assert!(!chunks.is_empty(), "Should produce at least one chunk");

    // Check that content is preserved
    let all_content: String = chunks.iter().map(|c| c.content.as_str()).collect();
    assert!(all_content.contains("…"), "Should preserve ellipsis character");
    assert!(all_content.contains("中文"), "Should preserve Chinese characters");
    assert!(all_content.contains("🎉"), "Should preserve emoji");
}

#[test]
fn test_align_to_char_boundary() {
    let text = "Hello…World"; // … is 3 bytes
    assert_eq!(align_to_char_boundary(text, 0), 0);
    assert_eq!(align_to_char_boundary(text, 5), 5); // Start of …
    assert_eq!(align_to_char_boundary(text, 6), 8); // Middle of …, should align to 8 (W)
    assert_eq!(align_to_char_boundary(text, 7), 8); // End of …, should align to 8 (W)
    assert_eq!(align_to_char_boundary(text, 8), 8); // W
    assert_eq!(align_to_char_boundary(text, 100), text.len()); // Beyond end
}

#[test]
fn test_split_basic() {
    let text = "This is a test. ".repeat(100);
    let splitter = TextSplitter::new();
    let chunks = splitter.split(&text);

    assert!(!chunks.is_empty());
    for chunk in &chunks {
        assert!(chunk.content.len() <= splitter.config().chunk_size + 100); // Allow some flexibility
    }
}

#[test]
fn text_splitter_test_split_empty() {
    let splitter = TextSplitter::new();
    let chunks = splitter.split("");
    assert!(chunks.is_empty());
}

#[test]
fn test_split_small_text() {
    let text = "This is a small text.";
    let splitter = TextSplitter::new();
    let chunks = splitter.split(text);

    assert_eq!(chunks.len(), 1);
    assert_eq!(chunks[0].content, text);
}

#[test]
fn test_split_by_separators() {
    let text = "Paragraph 1.\n\nParagraph 2.\n\nParagraph 3.";
    let splitter = TextSplitter::new();
    let chunks = splitter.split_by_separators(text, &["\n\n", "\n", ". ", " "]);

    assert!(!chunks.is_empty());
}
