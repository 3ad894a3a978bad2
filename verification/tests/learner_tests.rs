use seed_intelligence::brain::Brain;
use seed_intelligence::learner::IncrementalLearner;
use seed_intelligence::nlp::get_tokenizer;

fn create_test_learner() -> IncrementalLearner {
    IncrementalLearner::new(Brain::new(), "seed_test_brain.json".to_string(), get_tokenizer())
}

#[test]
fn test_learner_new_is_empty() {
    let learner = create_test_learner();
    let stats = learner.get_stats();
    assert_eq!(stats.total_concepts, 0);
    assert_eq!(stats.total_relations, 0);
}

#[test]
fn test_learner_learn_from_text() {
    let mut learner = create_test_learner();
    let result = learner.learn_from_text("人工智能是计算机科学的一个分支", None);
    assert!(result.success);
    assert!(result.tokens_processed > 0);
    assert!(result.relations_added > 0);
}

#[test]
fn test_learner_learn_increases_concepts() {
    let mut learner = create_test_learner();
    learner.learn_from_text("机器学习是人工智能的核心技术", None);
    let stats1 = learner.get_stats();
    learner.learn_from_text("深度学习是机器学习的子集", None);
    let stats2 = learner.get_stats();
    assert!(stats2.total_concepts > stats1.total_concepts);
}

#[test]
fn test_learner_focus_concept_gets_boost() {
    let mut learner = create_test_learner();
    learner.learn_from_text("人工智能很重要", Some("人工智能"));
    learner.learn_from_text("机器学习也很重要", Some("机器学习"));
    let ai_concept = learner.get_concept("人工智能");
    let ml_concept = learner.get_concept("机器学习");
    assert!(ai_concept.is_some() || ml_concept.is_some());
}

#[test]
fn test_learner_cleanup_removes_noise() {
    let mut learner = create_test_learner();
    learner.learn_from_text("测试文本用于验证清理功能", None);
    let cleanup = learner.cleanup(true);
    println!("pruned {} relations, {} concepts", cleanup.pruned_relations, cleanup.pruned_concepts);
}

#[test]
fn test_learner_get_related_concepts() {
    let mut learner = create_test_learner();
    learner.learn_from_text("人工智能与机器学习密切相关，深度学习是机器学习的分支", None);
    let related = learner.get_related_concepts("人工智能", 2);
    println!("Related concepts: {:?}", related);
}

#[test]
fn test_learner_stats_accuracy() {
    let mut learner = create_test_learner();
    learner.learn_from_text("计算机科学包含人工智能和机器学习", None);
    let stats = learner.get_stats();
    assert!(stats.total_concepts > 0);
    assert!(stats.total_relations > 0);
}

#[test]
fn test_learner_clear() {
    let mut learner = create_test_learner();
    learner.learn_from_text("测试内容", None);
    assert!(learner.get_stats().total_concepts > 0);
    learner.clear();
    assert_eq!(learner.get_stats().total_concepts, 0);
}
