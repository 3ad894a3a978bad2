use seed_intelligence::observer::{chrono_timestamp, InteractionHistory, ObservationBuffer, BATCH_SIZE, MAX_HISTORY_SIZE};

#[test]
fn test_buffer_new() {
    let buffer = ObservationBuffer::new();
    assert_eq!(buffer.size(), 0);
    assert_eq!(buffer.count(), 0);
    assert!(!buffer.should_learn());
}

#[test]
fn test_buffer_add() {
    let mut buffer = ObservationBuffer::new();
    buffer.add("test", "Hello world");
    assert!(buffer.size() > 0);
    assert_eq!(buffer.count(), 1);
}

#[test]
fn test_buffer_add_empty() {
    let mut buffer = ObservationBuffer::new();
    buffer.add("test", "");
    buffer.add("test", "   ");
    assert_eq!(buffer.size(), 0);
    assert_eq!(buffer.count(), 0);
}

#[test]
fn test_buffer_add_multiple() {
    let mut buffer = ObservationBuffer::new();
    buffer.add("file", "Content from file");
    buffer.add("clipboard", "Content from clipboard");
    buffer.add("command", "Command output");
    assert_eq!(buffer.count(), 3);
    assert!(buffer.contents().contains("file"));
    assert!(buffer.contents().contains("clipboard"));
    assert!(buffer.contents().contains("command"));
}

#[test]
fn test_buffer_drain() {
    let mut buffer = ObservationBuffer::new();
    buffer.add("test", "Hello world");
    let content = buffer.drain();
    assert!(content.contains("Hello world"));
    assert_eq!(buffer.size(), 0);
}

#[test]
fn test_buffer_should_learn() {
    let mut buffer = ObservationBuffer::new();
    assert!(!buffer.should_learn());
    let long_content = "x".repeat(BATCH_SIZE);
    buffer.add("test", &long_content);
    assert!(buffer.should_learn());
}

#[test]
fn test_buffer_size_after_multiple_adds() {
    let mut buffer = ObservationBuffer::new();
    for i in 0..10 {
        buffer.add("test", &format!("Content number {}", i));
    }
    assert_eq!(buffer.count(), 10);
    assert!(buffer.size() > 0);
}

#[test]
fn test_history_new() {
    let history = InteractionHistory::new();
    assert!(history.recent(10).is_empty());
}

#[test]
fn test_history_add() {
    let mut history = InteractionHistory::new();
    history.add("file", "File content");
    let recent = history.recent(1);
    assert_eq!(recent.len(), 1);
    assert_eq!(recent[0].source, "file");
    assert_eq!(recent[0].content, "File content");
}

#[test]
fn test_history_add_multiple() {
    let mut history = InteractionHistory::new();
    for i in 0..5 {
        history.add("test", &format!("Content {}", i));
    }
    let recent = history.recent(3);
    assert_eq!(recent.len(), 3);
}

#[test]
fn test_history_max_size() {
    let mut history = InteractionHistory::new();
    for i in 0..(MAX_HISTORY_SIZE + 50) {
        history.add("test", &format!("Content {}", i));
    }
    let recent = history.recent(MAX_HISTORY_SIZE + 10);
    assert!(recent.len() <= MAX_HISTORY_SIZE);
}

#[test]
fn observer_test_history_format() {
    let mut history = InteractionHistory::new();
    history.add("file", "Test content");
    history.add("clipboard", "Clipboard text");
    let formatted = history.format(10);
    assert!(formatted.contains("file"));
    assert!(formatted.contains("clipboard"));
}

#[test]
fn test_chrono_timestamp() {
    let ts1 = chrono_timestamp();
    let ts2 = chrono_timestamp();
    assert!(ts1.parse::<u64>().is_ok());
    assert!(ts2.parse::<u64>().is_ok());
    assert!(ts2.parse::<u64>().unwrap() >= ts1.parse::<u64>().unwrap());
}

#[test]
fn test_observation_buffer_basic() {
    let mut buffer = ObservationBuffer::new();
    assert_eq!(buffer.size(), 0);
    assert_eq!(buffer.count(), 0);
    buffer.add("test", "Hello world");
    assert!(buffer.size() > 0);
    assert_eq!(buffer.count(), 1);
}

#[test]
fn test_observation_buffer_empty_content() {
    let mut buffer = ObservationBuffer::new();
    buffer.add("test", "");
    buffer.add("test", "   ");
    assert_eq!(buffer.size(), 0);
    assert_eq!(buffer.count(), 0);
}

#[test]
fn test_observation_buffer_drain() {
    let mut buffer = ObservationBuffer::new();
    buffer.add("source1", "Content 1");
    buffer.add("source2", "Content 2");
    let content = buffer.drain();
    assert!(content.contains("source1"));
    assert!(content.contains("source2"));
    assert_eq!(buffer.size(), 0);
}

#[test]
fn test_interaction_history_basic() {
    let mut history = InteractionHistory::new();
    assert!(history.recent(10).is_empty());
    history.add("file", "File content");
    let recent = history.recent(1);
    assert_eq!(recent.len(), 1);
    assert_eq!(recent[0].source, "file");
}

#[test]
fn test_interaction_history_multiple() {
    let mut history = InteractionHistory::new();
    for i in 0..5 {
        history.add("test", &format!("Content {}", i));
    }
    let recent = history.recent(3);
    assert_eq!(recent.len(), 3);
}

#[test]
fn test_buffer_accumulation() {
    let mut buffer = ObservationBuffer::new();
    buffer.add("file", "First observation");
    buffer.add("clipboard", "Second observation");
    buffer.add("command", "Third observation");
    assert_eq!(buffer.count(), 3);
    let content = buffer.drain();
    assert!(content.contains("file"));
    assert!(content.contains("clipboard"));
    assert!(content.contains("command"));
}

#[test]
fn observer_tests_test_history_format() {
    let mut history = InteractionHistory::new();
    history.add("file", "Test content");
    let formatted = history.format(10);
    assert!(formatted.contains("file"));
}
