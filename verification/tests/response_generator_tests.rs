use seed_intelligence::response_generator::{
    generate_multi_concept_answer, generate_paragraph, generate_single_concept_answer, infer_relation_type,
    relation_to_sentence, RelationType,
};

#[test]
fn test_infer_relation_type() {
    assert_eq!(infer_relation_type("机器学习", "人工智能分支"), RelationType::PartOf);
    assert_eq!(infer_relation_type("深度学习", "机器学习技术"), RelationType::HasProperty);
}

#[test]
fn test_relation_to_sentence() {
    let s = relation_to_sentence("深度学习", "机器学习", 800_000, &RelationType::PartOf);
    assert!(s.contains("属于"));
}

#[test]
fn test_generate_paragraph() {
    let relations = vec![
        ("机器学习".to_string(), "人工智能".to_string(), 700_000),
        ("深度学习".to_string(), "机器学习".to_string(), 800_000),
    ];
    let p = generate_paragraph(&relations, "机器学习");
    assert!(!p.is_empty());
}

#[test]
fn test_infer_relation_type_part_of() {
    let rel_type = infer_relation_type("机器学习", "人工智能分支");
    assert_eq!(rel_type, RelationType::PartOf);
}

#[test]
fn test_infer_relation_type_has_property() {
    let rel_type = infer_relation_type("神经网络", "深度学习技术");
    assert_eq!(rel_type, RelationType::HasProperty);
}

#[test]
fn test_infer_relation_type_related_to() {
    let rel_type = infer_relation_type("人工智能", "计算机");
    assert_eq!(rel_type, RelationType::RelatedTo);
}

#[test]
fn test_relation_to_sentence_is_a() {
    let sentence = relation_to_sentence("猫", "动物", 800_000, &RelationType::IsA);
    assert!(sentence.contains("猫"));
    assert!(sentence.contains("动物"));
}

#[test]
fn test_relation_to_sentence_part_of() {
    let sentence = relation_to_sentence("机器学习", "人工智能", 700_000, &RelationType::PartOf);
    assert!(sentence.contains("机器学习"));
    assert!(sentence.contains("人工智能"));
}

#[test]
fn test_relation_to_sentence_related_to() {
    let sentence = relation_to_sentence("人工智能", "计算机", 500_000, &RelationType::RelatedTo);
    assert!(sentence.contains("人工智能"));
    assert!(sentence.contains("计算机"));
}

#[test]
fn test_generate_single_concept_answer_empty() {
    let answer = generate_single_concept_answer("测试概念", &[]);
    assert!(answer.contains("测试概念"));
}

#[test]
fn test_generate_single_concept_answer_with_relations() {
    let related = vec![
        ("相关概念1".to_string(), 800_000),
        ("相关概念2".to_string(), 500_000),
        ("相关概念3".to_string(), 200_000),
    ];
    let answer = generate_single_concept_answer("主概念", &related);
    assert!(answer.contains("主概念"));
}

#[test]
fn test_generate_multi_concept_answer_no_path() {
    let concepts = vec!["概念A".to_string(), "概念B".to_string()];
    let path: Vec<String> = vec![];
    let path_details: Vec<(String, String, u64)> = vec![];
    let answer = generate_multi_concept_answer(&concepts, &path, &path_details);
    assert!(answer.contains("概念A") || answer.contains("概念B"));
}

#[test]
fn test_generate_multi_concept_answer_with_path() {
    let concepts = vec!["人工智能".to_string(), "机器学习".to_string()];
    let path = vec!["人工智能".to_string(), "技术".to_string(), "机器学习".to_string()];
    let path_details = vec![
        ("人工智能".to_string(), "技术".to_string(), 500_000),
        ("技术".to_string(), "机器学习".to_string(), 400_000),
    ];
    let answer = generate_multi_concept_answer(&concepts, &path, &path_details);
    assert!(!answer.is_empty());
}

#[test]
fn test_sentence_varies_by_weight() {
    let sentence_high = relation_to_sentence("A", "B", 800_000, &RelationType::RelatedTo);
    let sentence_low = relation_to_sentence("A", "B", 100_000, &RelationType::RelatedTo);
    assert!(sentence_high.contains("A"));
    assert!(sentence_high.contains("B"));
    assert!(sentence_low.contains("A"));
    assert!(sentence_low.contains("B"));
}
