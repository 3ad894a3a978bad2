use seed_intelligence::brain::Brain;
use seed_intelligence::inference::{
    aggregate_answer, ask, dijkstra, find_best_path, find_matching_concepts, find_paths, parse_query, query,
};

fn create_brain_with_knowledge() -> Brain {
    let mut brain = Brain::new();
    brain.get_or_create_concept("人工智能");
    brain.get_or_create_concept("机器学习");
    brain.get_or_create_concept("深度学习");
    brain.add_or_update_relation("人工智能", "机器学习");
    brain.add_or_update_relation("机器学习", "深度学习");
    brain
}

#[test]
fn test_parse_query_extracts_keywords() {
    let words = parse_query("什么是人工智能");
    assert!(!words.is_empty());
}

#[test]
fn test_parse_query_filters_stopwords() {
    let words = parse_query("什么是人工智能");
    assert!(!words.contains(&"什么".to_string()));
    assert!(!words.contains(&"是".to_string()));
}

#[test]
fn test_find_matching_concepts() {
    let brain = create_brain_with_knowledge();
    let query_words = vec!["人工智能".to_string()];
    let matches = find_matching_concepts(&query_words, &brain);
    assert!(!matches.is_empty());
}

#[test]
fn test_query_returns_answer() {
    let brain = create_brain_with_knowledge();
    let answer = query("人工智能", &brain);
    assert!(!answer.answer.is_empty());
}

#[test]
fn test_ask_returns_answer() {
    let brain = create_brain_with_knowledge();
    let answer = ask("什么是人工智能", &brain);
    assert!(!answer.answer.is_empty());
}

#[test]
fn test_query_empty_brain() {
    let brain = Brain::new();
    let answer = query("测试问题", &brain);
    assert!(answer.answer.contains("不了解") || answer.answer.contains("学习") || answer.answer.is_empty() == false);
}

#[test]
fn test_ask_single_concept() {
    let mut brain = Brain::new();
    brain.get_or_create_concept("测试概念");
    brain.add_or_update_relation("测试概念", "相关概念");
    let answer = ask("测试概念", &brain);
    assert!(!answer.answer.is_empty());
}

#[test]
fn test_query_confidence_range() {
    let brain = create_brain_with_knowledge();
    let answer = query("人工智能", &brain);
    assert!(answer.confidence <= 100);
}

#[test]
fn test_find_paths_single_concept() {
    let mut brain = Brain::new();
    brain.get_or_create_concept("A");
    brain.get_or_create_concept("B");
    brain.add_or_update_relation("A", "B");
    let paths = find_paths("A", &brain, 2);
    assert!(!paths.is_empty());
}

#[test]
fn test_find_paths_chain() {
    let mut brain = Brain::new();
    brain.get_or_create_concept("A");
    brain.get_or_create_concept("B");
    brain.get_or_create_concept("C");
    brain.add_or_update_relation("A", "B");
    brain.add_or_update_relation("B", "C");
    let paths = find_paths("A", &brain, 3);
    assert!(!paths.is_empty());
}

#[test]
fn test_find_paths_empty_brain() {
    let brain = Brain::new();
    let paths = find_paths("NonExistent", &brain, 2);
    assert!(paths.is_empty());
}

#[test]
fn test_find_paths_max_depth() {
    let mut brain = Brain::new();
    brain.get_or_create_concept("A");
    brain.get_or_create_concept("B");
    brain.get_or_create_concept("C");
    brain.get_or_create_concept("D");
    brain.add_or_update_relation("A", "B");
    brain.add_or_update_relation("B", "C");
    brain.add_or_update_relation("C", "D");
    let paths_depth_1 = find_paths("A", &brain, 1);
    let paths_depth_2 = find_paths("A", &brain, 2);
    println!("Paths depth 1: {:?}", paths_depth_1.len());
    println!("Paths depth 2: {:?}", paths_depth_2.len());
}

#[test]
fn test_dijkstra_direct_connection() {
    let mut brain = Brain::new();
    brain.get_or_create_concept("A");
    brain.get_or_create_concept("B");
    brain.add_or_update_relation("A", "B");
    brain.set_relation_weight("A", "B", 800_000);
    let path = dijkstra("A", "B", &brain);
    assert!(path.is_some());
    let path = path.unwrap();
    assert_eq!(path.len(), 2);
    assert_eq!(path[0], "A");
    assert_eq!(path[1], "B");
}

#[test]
fn test_dijkstra_no_path() {
    let mut brain = Brain::new();
    brain.get_or_create_concept("A");
    brain.get_or_create_concept("B");
    brain.get_or_create_concept("C");
    let path = dijkstra("A", "C", &brain);
    assert!(path.is_none());
}

#[test]
fn test_dijkstra_multi_hop() {
    let mut brain = Brain::new();
    brain.get_or_create_concept("A");
    brain.get_or_create_concept("B");
    brain.get_or_create_concept("C");
    brain.add_or_update_relation("A", "B");
    brain.add_or_update_relation("B", "C");
    brain.set_relation_weight("A", "B", 500_000);
    brain.set_relation_weight("B", "C", 500_000);
    let path = dijkstra("A", "C", &brain);
    assert!(path.is_some());
    let path = path.unwrap();
    assert_eq!(path.len(), 3);
}

#[test]
fn test_dijkstra_same_node() {
    let mut brain = Brain::new();
    brain.get_or_create_concept("A");
    let path = dijkstra("A", "A", &brain);
    println!("Path to self: {:?}", path);
}

#[test]
fn test_find_best_path_exists() {
    let mut brain = Brain::new();
    brain.get_or_create_concept("人工智能");
    brain.get_or_create_concept("机器学习");
    brain.add_or_update_relation("人工智能", "机器学习");
    brain.set_relation_weight("人工智能", "机器学习", 900_000);
    let result = find_best_path("人工智能", "机器学习", &brain);
    assert!(result.is_some());
    let path_result = result.unwrap();
    assert!(!path_result.path.is_empty());
    assert!(path_result.total_weight > 0);
}

#[test]
fn test_find_best_path_no_path() {
    let mut brain = Brain::new();
    brain.get_or_create_concept("A");
    brain.get_or_create_concept("B");
    let result = find_best_path("A", "B", &brain);
    assert!(result.is_none());
}

#[test]
fn test_find_best_path_with_details() {
    let mut brain = Brain::new();
    brain.get_or_create_concept("A");
    brain.get_or_create_concept("B");
    brain.add_or_update_relation("A", "B");
    brain.set_relation_weight("A", "B", 750_000);
    let result = find_best_path("A", "B", &brain);
    assert!(result.is_some());
    let path_result = result.unwrap();
    assert_eq!(path_result.path_details.len(), 1);
    assert_eq!(path_result.path_details[0].from, "A");
    assert_eq!(path_result.path_details[0].to, "B");
    assert!((path_result.path_details[0].weight as i64 - 750_000).abs() < 10_000);
}

#[test]
fn test_aggregate_answer_empty_paths() {
    let brain = Brain::new();
    let paths: Vec<Vec<String>> = vec![];
    let answer = aggregate_answer(&paths, &brain, "测试问题");
    assert!(answer.answer.contains("没有") || answer.answer.contains("建议"));
    assert_eq!(answer.confidence, 0);
}

#[test]
fn test_aggregate_answer_with_paths() {
    let mut brain = Brain::new();
    brain.get_or_create_concept("A");
    brain.get_or_create_concept("B");
    brain.add_or_update_relation("A", "B");
    brain.set_relation_weight("A", "B", 500_000);
    let paths = vec![vec!["A".to_string(), "B".to_string()]];
    let answer = aggregate_answer(&paths, &brain, "测试");
    assert!(!answer.answer.is_empty());
    assert!(!answer.concepts.is_empty());
}

#[test]
fn test_find_matching_concepts_fuzzy() {
    let mut brain = Brain::new();
    brain.get_or_create_concept("人工智能");
    brain.get_or_create_concept("机器学习");
    let query_words = vec!["智能".to_string()];
    let matches = find_matching_concepts(&query_words, &brain);
    assert!(!matches.is_empty());
}

#[test]
fn test_find_matching_concepts_case_insensitive() {
    let mut brain = Brain::new();
    brain.get_or_create_concept("Python");
    let query_words = vec!["python".to_string()];
    let matches = find_matching_concepts(&query_words, &brain);
    assert!(!matches.is_empty());
}
