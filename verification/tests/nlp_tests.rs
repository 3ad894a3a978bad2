use seed_intelligence::nlp::{filter_stop_words, get_tokenizer, simple_tokenize, TokenizerWrapper};

#[test]
fn test_tokenize() {
    let tokenizer = get_tokenizer();
    let tokens = tokenizer.tokenize("人工智能是计算机科学的一个分支");
    println!("Tokens: {:?}", tokens);
    assert!(!tokens.is_empty());
    assert!(tokens.contains(&"人工智能".to_string()) || tokens.contains(&"计算机科学".to_string()));
}

#[test]
fn test_chinese_segmentation() {
    let tokenizer = get_tokenizer();
    let tokens = tokenizer.tokenize("机器学习是人工智能的核心技术之一");
    println!("Tokens: {:?}", tokens);
    assert!(!tokens.is_empty());
}

#[test]
fn test_filter() {
    let tokens = vec!["水".to_string(), "的".to_string(), "是".to_string(), "重要".to_string()];
    let filtered = filter_stop_words(&tokens);
    assert!(!filtered.contains(&"的".to_string()));
}

#[test]
fn test_tokenize_chinese_text() {
    let tokenizer = TokenizerWrapper::new();
    let tokens = tokenizer.tokenize("人工智能是计算机科学的一个分支");
    assert!(!tokens.is_empty());
}

#[test]
fn test_tokenize_english_text() {
    let tokenizer = TokenizerWrapper::new();
    let tokens = tokenizer.tokenize("Artificial intelligence is a branch of computer science");
    assert!(!tokens.is_empty());
    assert!(tokens.iter().all(|t| t.to_lowercase() == *t));
}

#[test]
fn test_tokenize_mixed_text() {
    let tokenizer = TokenizerWrapper::new();
    let tokens = tokenizer.tokenize("AI人工智能是Artificial Intelligence的缩写");
    assert!(!tokens.is_empty());
}

#[test]
fn test_tokenize_empty_string() {
    let tokenizer = TokenizerWrapper::new();
    let tokens = tokenizer.tokenize("");
    assert!(tokens.is_empty());
}

#[test]
fn test_tokenize_filters_stopwords() {
    let tokenizer = TokenizerWrapper::new();
    let tokens = tokenizer.tokenize("这是一个测试");
    println!("Tokens: {:?}", tokens);
}

#[test]
fn test_simple_tokenize_works() {
    let tokens = simple_tokenize("机器学习是人工智能的核心技术");
    assert!(!tokens.is_empty());
}

#[test]
fn test_filter_stop_words() {
    let tokens = vec!["人工智能".to_string(), "的".to_string(), "机器学习".to_string(), "是".to_string()];
    let filtered = filter_stop_words(&tokens);
    assert!(!filtered.contains(&"的".to_string()));
    assert!(!filtered.contains(&"是".to_string()));
    assert!(filtered.contains(&"人工智能".to_string()));
}

#[test]
fn test_tokenize_minimum_length() {
    let tokenizer = TokenizerWrapper::new();
    let tokens = tokenizer.tokenize("人工智能");
    println!("Tokens for '人工智能': {:?}", tokens);
}

#[test]
fn test_tokenize_deduplication() {
    let tokenizer = TokenizerWrapper::new();
    let tokens = tokenizer.tokenize("人工智能人工智能人工智能");
    let unique_count = tokens.iter().collect::<std::collections::HashSet<_>>().len();
    assert_eq!(tokens.len(), unique_count);
}
