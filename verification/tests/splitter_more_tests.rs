use docs_mcp_rs::scrape::converter::HtmlToMarkdown;
use docs_mcp_rs::splitter::code_splitter::{CodeSplitConfig, CodeSplitter};
use docs_mcp_rs::splitter::markdown_splitter::MarkdownSplitter;
use docs_mcp_rs::splitter::text_splitter::TextSplitter;
use docs_mcp_rs::splitter::SplitConfig;

#[test]
fn post_process_collapses_and_trims() {
    assert_eq!(HtmlToMarkdown::post_process("  a\n\n\n\n\n\n\n\nb  "), "a\n\n\nb");
    assert_eq!(HtmlToMarkdown::post_process("a\n\n\nb"), "a\n\n\nb");
    assert_eq!(HtmlToMarkdown::post_process("\n\n\n\n"), "");
}

#[test]
fn convert_falls_back_to_main_content() {
    let r = HtmlToMarkdown::convert_with_fallback(
        "<html><head><title> Docs </title></head><body><main><p>Hello there</p></main></body></html>",
        "https://x.org/",
    )
    .unwrap();
    assert_eq!(r.title, "Docs");
    assert!(r.content.contains("Hello there"));
    let u = HtmlToMarkdown::convert_with_fallback("<p>x</p>", "https://x.org/").unwrap();
    assert_eq!(u.title, "Untitled");
}

#[test]
fn separator_split_keeps_small_text_whole() {
    let splitter = TextSplitter::new();
    let chunks = splitter.split_by_separators("  Paragraph 1.\n\nParagraph 2.  ", &["\n\n"]);
    assert_eq!(chunks.len(), 1);
    assert_eq!(chunks[0].content, "Paragraph 1.\n\nParagraph 2.");
    assert_eq!(chunks[0].sort_order, 0);
}

#[test]
fn separator_split_merges_pieces() {
    let cfg = SplitConfig { chunk_size: 12, chunk_overlap: 0, preserve_words: true };
    let splitter = TextSplitter::with_config(cfg);
    let chunks = splitter.split_by_separators("aaaa bbbb cccc dddd", &["\n\n", " "]);
    let texts: Vec<&str> = chunks.iter().map(|c| c.content.as_str()).collect();
    assert_eq!(texts, vec!["aaaa bbbb", "cccc dddd"]);
    for (i, c) in chunks.iter().enumerate() {
        assert_eq!(c.sort_order, i as i32);
    }
}

#[test]
fn text_split_chunks_are_numbered_and_trimmed() {
    let cfg = SplitConfig { chunk_size: 10, chunk_overlap: 2, preserve_words: false };
    let splitter = TextSplitter::with_config(cfg);
    let chunks = splitter.split("abcdefghij klmnopqrst uvwxyz");
    assert!(chunks.len() >= 3);
    for (i, c) in chunks.iter().enumerate() {
        assert_eq!(c.sort_order, i as i32);
        assert!(!c.content.is_empty());
        assert_eq!(c.content.trim(), c.content);
    }
    assert!(splitter.split("   \n  ").is_empty());
}

#[test]
fn code_split_by_lines_when_functions_not_kept() {
    let mut cfg = CodeSplitConfig::default();
    cfg.preserve_functions = false;
    cfg.max_lines_per_chunk = 2;
    let splitter = CodeSplitter::with_config(cfg);
    let chunks = splitter.split("a\nb\nc\nd\ne", "text");
    let texts: Vec<&str> = chunks.iter().map(|c| c.content.as_str()).collect();
    assert_eq!(texts, vec!["a\nb", "c\nd", "e"]);
    assert_eq!(chunks[0].metadata.types, Some(vec!["code".to_string(), "text".to_string()]));
    assert_eq!(chunks[0].sort_order, 0);
    assert_eq!(chunks[1].sort_order, 1);
    // the last chunk of a line split keeps the sort order it started with
    assert_eq!(chunks[2].sort_order, 2);
}

#[test]
fn code_blocks_follow_definitions() {
    let code = "use x;\nfn main() {\n    run();\n}\npub struct P {\n    x: i32,\n}\n";
    let chunks = CodeSplitter::new().split(code, "rust");
    let names: Vec<Option<Vec<String>>> = chunks.iter().map(|c| c.metadata.path.clone()).collect();
    assert_eq!(
        names,
        vec![
            Some(vec!["module".to_string()]),
            Some(vec!["main".to_string()]),
            Some(vec!["P".to_string()]),
        ]
    );
    assert_eq!(chunks[1].content, "fn main() {\n    run();\n}");
    assert_eq!(chunks[0].metadata.level, Some(0));
    assert_eq!(chunks[1].metadata.level, Some(1));
}

#[test]
fn code_definitions_in_other_languages() {
    let js = CodeSplitter::new().split("export async function load() {\n  go();\n}\n", "javascript");
    assert_eq!(js[0].metadata.path, Some(vec!["load".to_string()]));
    let go = CodeSplitter::new().split("func (s *Server) Run() {\n}\n", "go");
    assert_eq!(go[0].metadata.path, Some(vec!["Run".to_string()]));
    assert_eq!(go[0].metadata.level, Some(2));
    let c = CodeSplitter::new().split("int add(int a, int b) {\n  return a + b;\n}\n", "c");
    assert_eq!(c[0].metadata.path, Some(vec!["add".to_string()]));
}

#[test]
fn sort_orders_stay_within_the_text_size() {
    let code = "fn a() {\n    one();\n}\nfn b() {\n    two();\n}\n";
    let mut small = CodeSplitConfig::default();
    small.base.chunk_size = 12;
    for cfg in [CodeSplitConfig::default(), small] {
        let chunks = CodeSplitter::with_config(cfg).split(code, "rust");
        assert!(!chunks.is_empty());
        for c in &chunks {
            assert!(c.sort_order >= 0 && (c.sort_order as usize) <= code.chars().count() + 1);
        }
    }

    let md = "# T\n\nintro\n\n## S\n\nbody text that is long enough to be cut\n";
    let md_cfg = SplitConfig { chunk_size: 16, chunk_overlap: 0, preserve_words: true };
    let chunks = MarkdownSplitter::with_config(md_cfg).split(md);
    assert!(chunks.len() >= 2);
    for c in &chunks {
        assert!((c.sort_order as usize) <= 16 * (md.chars().count() + 1));
    }

    let text = "abcdefghij klmnopqrst uvwxyz";
    let cfg = SplitConfig { chunk_size: 10, chunk_overlap: 2, preserve_words: false };
    let chunks = TextSplitter::with_config(cfg).split(text);
    for c in &chunks {
        assert!((c.sort_order as usize) <= 4 * text.chars().count());
    }
}

#[test]
fn markdown_header_only_sections_merge_into_the_next() {
    let chunks = MarkdownSplitter::new().split("### A\n### B\nbody");
    assert_eq!(chunks.len(), 1);
    assert!(chunks[0].content.contains("### A"));
    assert!(chunks[0].content.contains("### B"));
    assert!(chunks[0].content.contains("body"));
}

#[test]
fn markdown_chunks_take_successive_sort_orders() {
    let chunks = MarkdownSplitter::new().split("# A\n\none\n\n# B\n\ntwo\n\n# C\n\nthree");
    assert_eq!(chunks.len(), 3);
    for (i, c) in chunks.iter().enumerate() {
        assert_eq!(c.sort_order, i as i32);
    }
}

#[test]
fn markdown_split_keeps_every_char() {
    let md = "# T\n\n".to_string() + &"x".repeat(2000);
    let chunks = MarkdownSplitter::new().split(&md);
    let xs: usize = chunks.iter().map(|c| c.content.matches('x').count()).sum();
    assert!(xs >= 2000);
    for (i, c) in chunks.iter().enumerate() {
        assert_eq!(c.sort_order, i as i32);
    }
}

#[test]
fn separator_split_cuts_text_without_separators() {
    let text = "a".repeat(2000);
    let chunks = TextSplitter::new().split_by_separators(&text, &[" "]);
    assert!(chunks.len() >= 2);
    let total: usize = chunks.iter().map(|c| c.content.len()).sum();
    assert!(total >= 2000);
    for (i, c) in chunks.iter().enumerate() {
        assert!(c.content.len() <= 1500);
        assert_eq!(c.sort_order, i as i32);
    }
    assert_eq!(chunks[0].content.len(), 1500);
    assert_eq!(chunks[1].content.len(), 700);
}

#[test]
fn code_chunks_rejoin_to_the_lines() {
    let code = "use std::io;\nfn a() {\n    one();\n}\nstruct B {\n    x: i32,\n}\nlet tail = 1;";
    let mut small = CodeSplitConfig::default();
    small.base.chunk_size = 16;
    let mut by_lines = CodeSplitConfig::default();
    by_lines.preserve_functions = false;
    by_lines.max_lines_per_chunk = 3;
    for cfg in [CodeSplitConfig::default(), small, by_lines] {
        let chunks = CodeSplitter::with_config(cfg).split(code, "rust");
        let joined = chunks.iter().map(|c| c.content.as_str()).collect::<Vec<_>>().join("\n");
        assert_eq!(joined, code.lines().collect::<Vec<_>>().join("\n"));
        for c in &chunks {
            assert_eq!(c.metadata.types, Some(vec!["code".to_string(), "rust".to_string()]));
        }
    }
}
