use seed_intelligence::brain::Brain;

fn create_test_brain() -> Brain {
    Brain::new()
}

#[test]
fn test_brain_new_is_empty() {
    let brain = create_test_brain();
    assert_eq!(brain.total_concepts(), 0);
    assert_eq!(brain.total_relations(), 0);
}

#[test]
fn test_brain_add_concept() {
    let mut brain = create_test_brain();
    brain.get_or_create_concept("人工智能");
    assert_eq!(brain.total_concepts(), 1);
    let concept = brain.concepts().get("人工智能");
    assert!(concept.is_some());
}

#[test]
fn test_brain_add_concept_increments_count() {
    let mut brain = create_test_brain();
    brain.get_or_create_concept("机器学习");
    let concept = brain.concepts().get("机器学习").unwrap();
    assert!(concept.count >= 1);
}

#[test]
fn test_brain_add_relation() {
    let mut brain = create_test_brain();
    brain.add_or_update_relation("人工智能", "机器学习");
    assert_eq!(brain.total_relations(), 1);
}

#[test]
fn test_brain_relation_bidirectional() {
    let mut brain = create_test_brain();
    brain.add_or_update_relation("A", "B");
    brain.add_or_update_relation("B", "A");
    assert_eq!(brain.total_relations(), 1);
}

#[test]
fn test_brain_cleanup_removes_weak_relations() {
    let mut brain = create_test_brain();
    brain.add_or_update_relation("A", "B");
    let (pruned_relations, pruned_concepts) = brain.cleanup(500_000, 500_000, false);
    println!("Pruned: {} relations, {} concepts", pruned_relations, pruned_concepts);
}

#[test]
fn test_brain_clear() {
    let mut brain = create_test_brain();
    brain.get_or_create_concept("测试");
    brain.add_or_update_relation("A", "B");
    brain.clear();
    assert_eq!(brain.total_concepts(), 0);
    assert_eq!(brain.total_relations(), 0);
}

#[test]
fn test_brain_concept_energy_increases() {
    let mut brain = create_test_brain();
    brain.get_or_create_concept("测试");
    let concept = brain.concepts().get("测试").unwrap();
    assert!(concept.energy > 0);
}

#[test]
fn test_brain_relation_weight_updates() {
    let mut brain = create_test_brain();
    brain.add_or_update_relation("A", "B");
    if let Some(rel) = brain.get_relation("A", "B") {
        assert_eq!(rel.count, 0);
    }
    assert!(brain.set_relation_weight("A", "B", 800_000));
    assert!(brain.set_relation_count("A", "B", 5));
    let rel = brain.get_relation("A", "B").unwrap();
    assert!((rel.weight as i64 - 800_000).abs() < 10_000);
    assert_eq!(rel.count, 5);
}

#[test]
fn test_brain_get_relation_mut_nonexistent() {
    let mut brain = create_test_brain();
    let result = brain.set_relation_weight("NonExistent", "Relation", 0);
    assert!(!result);
    assert!(brain.get_relation("NonExistent", "Relation").is_none());
}

#[test]
fn test_brain_get_relations_for_concept() {
    let mut brain = create_test_brain();
    brain.add_or_update_relation("A", "B");
    brain.add_or_update_relation("A", "C");
    brain.add_or_update_relation("B", "C");
    let relations_a = brain.get_relations_for_concept("A");
    assert_eq!(relations_a.len(), 2);
}

#[test]
fn test_brain_get_relations_for_nonexistent_concept() {
    let brain = create_test_brain();
    let relations = brain.get_relations_for_concept("NonExistent");
    assert!(relations.is_empty());
}

#[test]
fn test_brain_find_relation() {
    let mut brain = create_test_brain();
    brain.add_or_update_relation("A", "B");
    assert!(brain.get_relation("A", "B").is_some());
    assert!(brain.get_relation("B", "A").is_some());
    assert!(brain.get_relation("A", "C").is_none());
}

#[test]
fn test_brain_version() {
    let brain = create_test_brain();
    assert_eq!(brain.version(), "2.0");
}

#[test]
fn test_brain_meta() {
    let brain = create_test_brain();
    assert_eq!(brain.meta().total_concepts, 0);
    assert_eq!(brain.meta().total_relations, 0);
    assert_eq!(brain.meta().total_learn_count, 0);
}

#[test]
fn test_brain_cleanup_aggressive() {
    let mut brain = create_test_brain();
    brain.get_or_create_concept("A");
    brain.get_or_create_concept("B");
    brain.add_or_update_relation("A", "B");
    let (pruned_relations, pruned_concepts) = brain.cleanup(10_000, 10_000, true);
    println!("Aggressive cleanup: {} relations, {} concepts pruned", pruned_relations, pruned_concepts);
}

#[test]
fn test_brain_concept_timestamps() {
    let mut brain = create_test_brain();
    brain.get_or_create_concept("测试");
    let concept = brain.concepts().get("测试").unwrap();
    assert!(!concept.first_seen.is_empty());
    assert!(!concept.last_seen.is_empty());
}

#[test]
fn test_brain_relation_id_format() {
    let mut brain = create_test_brain();
    brain.add_or_update_relation("概念A", "概念B");
    let rel = brain.relations().value_at(0);
    assert!(rel.id.starts_with("rel_"));
}

#[test]
fn test_brain_clone() {
    let mut brain = create_test_brain();
    brain.get_or_create_concept("测试");
    brain.add_or_update_relation("A", "B");
    let cloned = brain.clone();
    assert_eq!(cloned.total_concepts(), brain.total_concepts());
    assert_eq!(cloned.total_relations(), brain.total_relations());
}

#[test]
fn test_brain_default() {
    let brain1 = Brain::new();
    let brain2 = Brain::default();
    assert_eq!(brain1.total_concepts(), brain2.total_concepts());
    assert_eq!(brain1.version(), brain2.version());
}

#[test]
fn test_brain_concepts_with_special_chars() {
    let mut brain = create_test_brain();
    brain.get_or_create_concept("人工智能");
    brain.get_or_create_concept("Machine Learning");
    brain.get_or_create_concept("🤖 AI");
    assert_eq!(brain.total_concepts(), 3);
}

#[test]
fn test_brain_relation_with_same_concepts() {
    let mut brain = create_test_brain();
    brain.add_or_update_relation("A", "A");
    println!("Self-relation count: {}", brain.total_relations());
}

#[test]
fn test_brain_large_number_of_concepts() {
    let mut brain = create_test_brain();
    for i in 0..100 {
        brain.get_or_create_concept(&format!("概念{}", i));
    }
    assert_eq!(brain.total_concepts(), 100);
}

#[test]
fn test_brain_large_number_of_relations() {
    let mut brain = create_test_brain();
    for i in 0..50 {
        brain.add_or_update_relation(&format!("概念{}", i), &format!("概念{}", i + 1));
    }
    assert_eq!(brain.total_relations(), 50);
}
