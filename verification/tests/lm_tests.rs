use seed_intelligence::lm::{ModelConfig, Vocab};

#[test]
fn test_vocab_new() {
    let vocab = Vocab::new();
    assert!(vocab.word2idx.contains_key("[PAD]"));
    assert!(vocab.word2idx.contains_key("[UNK]"));
    assert!(vocab.word2idx.contains_key("[BOS]"));
    assert!(vocab.word2idx.contains_key("[EOS]"));
    assert_eq!(vocab.size(), 4);
}

#[test]
fn test_vocab_add_token() {
    let mut vocab = Vocab::new();
    let idx1 = vocab.add_token("hello".to_string());
    let idx2 = vocab.add_token("world".to_string());
    assert_ne!(idx1, idx2);
    let idx1_again = vocab.add_token("hello".to_string());
    assert_eq!(idx1, idx1_again);
}

#[test]
fn test_vocab_tokenize() {
    let mut vocab = Vocab::new();
    vocab.add_token("a".to_string());
    vocab.add_token("b".to_string());
    vocab.add_token("c".to_string());
    let tokens = vocab.tokenize("abc");
    assert!(tokens.len() > 0);
    assert!(tokens.len() >= 4);
}

#[test]
fn test_vocab_tokenize_empty() {
    let vocab = Vocab::new();
    let tokens = vocab.tokenize("");
    assert_eq!(tokens.len(), 1);
}

#[test]
fn test_vocab_decode() {
    let mut vocab = Vocab::new();
    vocab.add_token("x".to_string());
    vocab.add_token("y".to_string());
    let tokens = vocab.tokenize("xy");
    let decoded = vocab.decode(&tokens[1..]);
    assert!(decoded.contains('x') || decoded.contains('y'));
}

#[test]
fn test_vocab_decode_unknown() {
    let vocab = Vocab::new();
    let decoded = vocab.decode(&[1]);
    println!("Decoded unknown: '{}'", decoded);
}

#[test]
fn test_vocab_size() {
    let mut vocab = Vocab::new();
    let initial_size = vocab.size();
    vocab.add_token("test".to_string());
    vocab.add_token("another".to_string());
    assert_eq!(vocab.size(), initial_size + 2);
}

#[test]
fn test_model_config_default() {
    let config = ModelConfig::default();
    assert_eq!(config.vocab_size, 2000);
    assert_eq!(config.embed_dim, 64);
    assert_eq!(config.num_heads, 2);
    assert_eq!(config.num_layers, 1);
    assert_eq!(config.context_len, 64);
    assert_eq!(config.hidden_dim, 256);
}

#[test]
fn test_model_config_clone() {
    let config = ModelConfig::default();
    let cloned = config.clone();
    assert_eq!(config.vocab_size, cloned.vocab_size);
    assert_eq!(config.embed_dim, cloned.embed_dim);
}

#[test]
fn test_vocab_default() {
    let vocab1 = Vocab::new();
    let vocab2 = Vocab::default();
    assert_eq!(vocab1.size(), vocab2.size());
}
