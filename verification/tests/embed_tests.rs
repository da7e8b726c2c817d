use docs_mcp_rs::embed::{estimate_batch_tokens, estimate_tokens};

#[test]
fn test_estimate_tokens() {
    // English text
    let english = "Hello world, this is a test.";
    let tokens = estimate_tokens(english);
    assert!(tokens > 0);
    assert!(tokens <= english.len());

    // Chinese text
    let chinese = "你好世界，这是一个测试。";
    let tokens_cn = estimate_tokens(chinese);
    assert!(tokens_cn >= chinese.chars().count());

    // Empty string should return at least 1
    let empty = "";
    assert_eq!(estimate_tokens(empty), 6); // minimum + overhead
}

#[test]
fn test_estimate_batch_tokens() {
    let texts = vec!["Hello", "World", "Test"];
    let total = estimate_batch_tokens(&texts);
    assert!(total >= 3);
}
