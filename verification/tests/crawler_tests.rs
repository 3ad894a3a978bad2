use seed_intelligence::crawler::SearchResult;

#[test]
fn test_search_result_clone() {
    let result = SearchResult {
        title: "原始标题".to_string(),
        snippet: "原始摘要".to_string(),
        url: "https://original.com".to_string(),
        source: "test".to_string(),
    };
    let cloned = result.clone();
    assert_eq!(cloned.title, result.title);
    assert_eq!(cloned.snippet, result.snippet);
}

#[test]
fn test_search_result_debug() {
    let result = SearchResult {
        title: "测试".to_string(),
        snippet: "内容".to_string(),
        url: "https://test.com".to_string(),
        source: "wikipedia".to_string(),
    };
    let debug_str = format!("{:?}", result);
    assert!(debug_str.contains("SearchResult"));
}
