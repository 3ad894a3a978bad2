use seed_intelligence::brain::{Brain, BookMetadata};
use seed_intelligence::crawler::url_encode;
use seed_intelligence::file_reader::{extract_book_metadata, get_file_format, is_ebook_format};
use seed_intelligence::inference::{find_matching_concepts, find_paths, parse_query, query};
use seed_intelligence::nlp::filter_stop_words;
use seed_intelligence::learner::IncrementalLearner;
use seed_intelligence::lm::Vocab;
use seed_intelligence::nlp::{get_tokenizer, tokenize};

fn chain_brain() -> Brain {
    let mut brain = Brain::new();
    for name in ["a", "b", "c", "d"] {
        brain.get_or_create_concept(name);
    }
    brain.add_or_update_relation("a", "b");
    brain.add_or_update_relation("b", "c");
    brain.add_or_update_relation("c", "a");
    brain.add_or_update_relation("c", "d");
    brain.set_relation_weight("a", "b", 800_000);
    brain.set_relation_weight("b", "c", 600_000);
    brain.set_relation_weight("c", "a", 1_000_000);
    brain.set_relation_weight("c", "d", 300_000);
    brain
}

#[test]
fn test_law_get_or_create_concept_idempotent() {
    let mut brain = Brain::new();
    let first = brain.get_or_create_concept_at("neuron", "100");
    let second = brain.get_or_create_concept_at("neuron", "200");
    assert_eq!(brain.total_concepts(), 1);
    assert_eq!(first.first_seen, "100");
    assert_eq!(second.first_seen, "100");
    assert_eq!(second.last_seen, "100");
    assert_eq!(second.energy, 100_000);
    assert_eq!(second.count, 1);
}

#[test]
fn test_law_relation_symmetric() {
    let mut brain = Brain::new();
    brain.add_or_update_relation_at("x", "y", 5);
    let forward = brain.get_relation("x", "y").unwrap().id.clone();
    let backward = brain.get_relation("y", "x").unwrap().id.clone();
    assert_eq!(forward, backward);
    assert_eq!(forward, "rel_x_y");
}

#[test]
fn test_law_add_relation_once() {
    let mut brain = Brain::new();
    let id1 = brain.add_or_update_relation_at("beta", "alpha", 1);
    let id2 = brain.add_or_update_relation_at("alpha", "beta", 2);
    assert_eq!(id1, "rel_alpha_beta");
    assert_eq!(id1, id2);
    assert_eq!(brain.total_relations(), 1);
    let rel = brain.get_relation("alpha", "beta").unwrap();
    assert_eq!(rel.source, "beta");
    assert_eq!(rel.target, "alpha");
    assert_eq!(rel.weight, 0);
    assert_eq!(rel.count, 0);
    assert_eq!(rel.last_updated, 1);
}

#[test]
fn test_law_learning_keeps_knowledge() {
    let mut learner = IncrementalLearner::new(Brain::new(), "law_brain.json".to_string(), get_tokenizer());
    learner.learn_from_text("neural networks learn patterns from examples", None);
    let before: Vec<(String, u64, u32)> = (0..learner.brain.concepts().len())
        .map(|i| {
            let c = learner.brain.concepts().value_at(i);
            (learner.brain.concepts().key_at(i).clone(), c.energy, c.count)
        })
        .collect();
    assert!(!before.is_empty());
    learner.learn_from_text("gardens grow tomatoes and peppers", None);
    for (name, energy, count) in before {
        let c = learner.get_concept(&name).expect("a known concept stays known");
        assert!(c.energy >= energy);
        assert!(c.count >= count);
    }
}

#[test]
fn test_law_learning_adds_focus_and_tokens() {
    let mut learner = IncrementalLearner::new(Brain::new(), "law_brain.json".to_string(), get_tokenizer());
    learner.learn_from_text("quantum entanglement puzzles physicists", Some("relativity"));
    assert!(learner.get_concept("relativity").is_some());
    for word in ["quantum", "entanglement", "puzzles", "physicists"] {
        assert!(learner.get_concept(word).is_some(), "{} should be learned", word);
    }
}

#[test]
fn test_law_single_token_learns_only_focus() {
    let mut learner = IncrementalLearner::new(Brain::new(), "law_brain.json".to_string(), get_tokenizer());
    let result = learner.learn_from_text("photosynthesis", Some("biology"));
    assert_eq!(result.tokens_processed, 1);
    assert_eq!(result.relations_added, 0);
    assert!(learner.get_concept("biology").is_some());
    assert!(learner.get_concept("photosynthesis").is_none());
}

#[test]
fn test_law_cleanup_prunes() {
    let mut brain = chain_brain();
    let (pruned_relations, pruned_concepts) = brain.cleanup_at(600_000, 0, false, "9", 9);
    assert_eq!(pruned_relations, 2);
    assert_eq!(pruned_concepts, 0);
    assert_eq!(brain.total_relations(), 2);
    for i in 0..brain.relations().len() {
        let r = brain.relations().value_at(i);
        assert!(r.weight >= 600_000);
        assert_eq!(r.last_updated, 9);
    }
    assert_eq!(brain.get_relation("a", "b").unwrap().weight, 760_000);
    assert_eq!(brain.get_relation("c", "a").unwrap().weight, 950_000);
    assert!(brain.get_relation("b", "c").is_none());
    assert!(brain.get_relation("c", "d").is_none());
}

#[test]
fn test_law_cleanup_aggressive_keeps_connected() {
    let mut brain = chain_brain();
    brain.get_or_create_concept("lonely");
    let (pruned_relations, pruned_concepts) = brain.cleanup_at(600_000, 0, true, "9", 9);
    assert_eq!(pruned_relations, 2);
    // "d" lost its only relation and "lonely" never had one.
    assert_eq!(pruned_concepts, 2);
    assert!(brain.get_concept("d").is_none());
    assert!(brain.get_concept("lonely").is_none());
    assert!(brain.get_concept("a").is_some());
}

#[test]
fn test_law_cleanup_energy_threshold() {
    let mut brain = Brain::new();
    brain.get_or_create_concept_at("weak", "1");
    brain.get_or_create_concept_at("strong", "1");
    brain.update_concept_at("strong", 100_000, 1, "2");
    let (_, pruned_concepts) = brain.cleanup_at(0, 100_000, false, "3", 3);
    // 0.1 decays to 0.095 and goes; 0.2 decays to 0.19 and stays.
    assert_eq!(pruned_concepts, 1);
    assert!(brain.get_concept("weak").is_none());
    let strong = brain.get_concept("strong").unwrap();
    assert_eq!(strong.energy, 190_000);
    assert_eq!(strong.last_seen, "3");
}

#[test]
fn test_law_tokens_distinct_and_good() {
    let tokens = tokenize("Rust rust COMPILER the a compiler");
    let mut seen = std::collections::HashSet::new();
    for t in &tokens {
        assert!(seen.insert(t.clone()), "{} repeated", t);
        assert!(t.len() >= 2);
        if t.chars().all(|c| c.is_ascii_alphabetic()) {
            assert_eq!(t, &t.to_lowercase());
        }
        assert_ne!(t, "the");
    }
    assert!(tokens.contains(&"rust".to_string()));
    assert!(tokens.contains(&"compiler".to_string()));
}

#[test]
fn test_law_decode_encode() {
    let tokenizer = get_tokenizer();
    let text = "héllo 世界\n!";
    assert_eq!(tokenizer.decode(&tokenizer.encode(text)), text);
}

#[test]
fn test_law_vocab_round_trip() {
    let mut vocab = Vocab::new();
    let text = "hello 世界\tok";
    vocab.add_text(text);
    let ids = vocab.tokenize(text);
    assert_eq!(vocab.decode(&ids), "hello世界ok");
}

#[test]
fn test_law_query_confidence_at_most_100() {
    let brain = chain_brain();
    for q in ["a", "b c", "d", "a b c d"] {
        let answer = query(q, &brain);
        assert!(answer.confidence <= 100, "{} gave {}", q, answer.confidence);
    }
}

#[test]
fn test_law_find_paths_simple() {
    let brain = chain_brain();
    let paths = find_paths("a", &brain, 3);
    assert!(!paths.is_empty());
    for p in &paths {
        assert_eq!(p[0], "a");
        assert!(p.len() >= 2 && p.len() <= 4);
        let mut seen = std::collections::HashSet::new();
        for n in p {
            assert!(seen.insert(n.clone()));
        }
        for w in p.windows(2) {
            assert!(brain.get_relation(&w[0], &w[1]).is_some());
        }
    }
    // Paths come shortest first.
    for w in paths.windows(2) {
        assert!(w[0].len() <= w[1].len());
    }
}

#[test]
fn test_law_added_book_is_found() {
    let mut brain = Brain::new();
    brain.get_or_create_concept("kept");
    let meta = seed_intelligence::brain::BookMetadata { title: "Atlas".to_string(), author: None, format: "txt".to_string() };
    let id = brain.add_book_at("hash-1", "/books/atlas.txt", &meta, 12, 1000);
    assert_eq!(id, 1);
    let by_hash = brain.has_book("hash-1").unwrap();
    assert_eq!(by_hash.id, 1);
    assert_eq!(by_hash.title, "Atlas");
    assert_eq!(brain.get_book("1").unwrap().file_hash, "hash-1");
    // The same file again is not added.
    let again = brain.add_book_at("hash-1", "/books/atlas.txt", &meta, 12, 2000);
    assert_eq!(again, 1);
    assert_eq!(brain.get_all_books().len(), 1);
}

#[test]
fn test_law_removed_book_is_gone() {
    let mut brain = Brain::new();
    brain.get_or_create_concept("kept");
    let meta = seed_intelligence::brain::BookMetadata { title: "Atlas".to_string(), author: None, format: "txt".to_string() };
    let id = brain.add_book_at("hash-1", "/books/atlas.txt", &meta, 12, 1000);
    assert!(brain.remove_book(id));
    assert!(brain.get_book("1").is_none());
    assert!(brain.has_book("hash-1").is_none());
    assert!(brain.get_concept("kept").is_some());
    assert!(!brain.remove_book(id));
}

#[test]
fn test_law_update_relation_caps_weight() {
    let mut brain = Brain::new();
    let id = brain.add_or_update_relation_at("p", "q", 1);
    brain.update_relation_at(&id, 700_000, 1, 2);
    assert_eq!(brain.get_relation("p", "q").unwrap().weight, 700_000);
    brain.update_relation_at(&id, 700_000, 1, 3);
    let rel = brain.get_relation("q", "p").unwrap();
    assert_eq!(rel.weight, 1_000_000);
    assert_eq!(rel.count, 2);
    assert_eq!(rel.last_updated, 3);
}

#[test]
fn test_law_related_concepts_distinct() {
    let learner = IncrementalLearner::new(chain_brain(), "law_brain.json".to_string(), get_tokenizer());
    let related = learner.get_related_concepts("a", 2);
    let names: Vec<&String> = related.iter().map(|(n, _)| n).collect();
    assert!(!names.iter().any(|n| n.as_str() == "a"));
    let mut seen = std::collections::HashSet::new();
    for n in &names {
        assert!(seen.insert(n.to_string()));
    }
    assert!(names.iter().any(|n| n.as_str() == "b"));
    assert!(names.iter().any(|n| n.as_str() == "d"));
    // Strongest relation first.
    for w in related.windows(2) {
        assert!(w[0].1 >= w[1].1);
    }
}

#[test]
fn test_law_find_paths_complete() {
    let brain = chain_brain();
    let paths = find_paths("a", &brain, 3);
    let expected: Vec<Vec<&str>> = vec![
        vec!["a", "b"],
        vec!["a", "c"],
        vec!["a", "b", "c"],
        vec!["a", "c", "b"],
        vec!["a", "c", "d"],
        vec!["a", "b", "c", "d"],
    ];
    for e in expected {
        let e: Vec<String> = e.iter().map(|s| s.to_string()).collect();
        assert!(paths.contains(&e), "missing {:?}", e);
    }
    assert_eq!(paths.len(), 6);
}

#[test]
fn test_law_matching_concepts() {
    let mut brain = Brain::new();
    for name in ["Rust", "rust compiler", "trust", "borrow"] {
        brain.get_or_create_concept(name);
    }
    let words: Vec<String> = ["rust", "compiler", "rust", "borrow"].iter().map(|s| s.to_string()).collect();
    let ms = find_matching_concepts(&words, &brain);
    assert!(!ms.is_empty());
    assert!(ms.len() <= words.len());
    for (i, m) in ms.iter().enumerate() {
        assert!(brain.get_concept(&m.concept_name).is_some());
        let name = m.concept_name.to_lowercase();
        let word = m.word.to_lowercase();
        if m.exact {
            assert_eq!(name, word);
        } else {
            assert!(name.contains(&word));
        }
        for other in &ms[i + 1..] {
            assert_ne!(m.concept_name, other.concept_name);
        }
    }
}

#[test]
fn test_law_query_without_matches() {
    let brain = chain_brain();
    let answer = query("quantum chromodynamics", &brain);
    assert_eq!(answer.confidence, 0);
    assert!(answer.paths.is_empty());
    assert!(answer.concepts.is_empty());
    let empty = query("", &brain);
    assert_eq!(empty.confidence, 0);
    assert!(empty.paths.is_empty());
    assert!(empty.concepts.is_empty());
}

#[test]
fn test_law_query_keywords_distinct() {
    let words = parse_query("rust rust compiler rust the compiler");
    for (i, w) in words.iter().enumerate() {
        assert!(w.len() >= 2);
        assert!(!words[i + 1..].contains(w));
    }
}

#[test]
fn test_law_filter_idempotent() {
    let tokens: Vec<String> = ["the", "rust", "a", "机器学习", "x", "rust"].iter().map(|s| s.to_string()).collect();
    let once = filter_stop_words(&tokens);
    let twice = filter_stop_words(&once);
    assert_eq!(once, twice);
    assert_eq!(once, vec!["rust".to_string(), "机器学习".to_string(), "rust".to_string()]);
}

#[test]
fn test_law_learning_keeps_weights_at_most_one() {
    let mut learner = IncrementalLearner::new(Brain::new(), "law_weights.json".to_string(), get_tokenizer());
    for _ in 0..3 {
        learner.learn_from_text("rust compiler checks borrow rules while rust compiler runs", Some("rust"));
    }
    let rels = learner.brain.relations();
    assert!(rels.len() > 0);
    for i in 0..rels.len() {
        assert!(rels.value_at(i).weight <= 1_000_000);
    }
}

#[test]
fn test_law_cleanup_keeps() {
    let mut brain = chain_brain();
    brain.cleanup_at(500_000, 0, false, "9", 9);
    // 0.95 of 0.8, 0.6 and 1.0 stay above 0.5; 0.95 of 0.3 does not.
    assert_eq!(brain.get_relation("a", "b").unwrap().weight, 760_000);
    assert_eq!(brain.get_relation("b", "c").unwrap().weight, 570_000);
    assert_eq!(brain.get_relation("c", "a").unwrap().weight, 950_000);
    assert!(brain.get_relation("c", "d").is_none());
    assert!(brain.get_concept("d").is_some());
}

fn percent_decode(t: &str) -> Vec<u8> {
    let b = t.as_bytes();
    let mut out = Vec::new();
    let mut i = 0;
    while i < b.len() {
        if b[i] == b'%' {
            let hex = std::str::from_utf8(&b[i + 1..i + 3]).unwrap();
            out.push(u8::from_str_radix(hex, 16).unwrap());
            i += 3;
        } else {
            out.push(b[i]);
            i += 1;
        }
    }
    out
}

#[test]
fn test_law_url_encoding_decodes() {
    for s in ["机器学习 AI", "a-b_c.d~e", "100% sure?", "naïve/😀"] {
        let e = url_encode(s);
        assert!(e.chars().all(|c| c == '%' || c.is_ascii_alphanumeric() || "-_.~".contains(c)));
        assert_eq!(percent_decode(&e), s.as_bytes().to_vec());
        let expected_len: usize = s
            .chars()
            .map(|c| if c.is_ascii_alphanumeric() || "-_.~".contains(c) { 1 } else { 3 * c.len_utf8() })
            .sum();
        assert_eq!(e.len(), expected_len);
        let b = e.as_bytes();
        for i in 0..b.len() {
            if b[i] == b'%' {
                for k in 1..3 {
                    assert!(b[i + k].is_ascii_digit() || (b'A'..=b'F').contains(&b[i + k]));
                }
            }
        }
    }
    assert_eq!(url_encode("机 a"), "%E6%9C%BA%20a");
}

#[test]
fn test_law_ebook_format_is_listed() {
    for path in ["book.epub", "book.MOBI", "x/y.azw3", "z.azw", "notes.txt", "noext", "a.pdf"] {
        let listed = ["epub", "mobi", "azw3", "azw"].contains(&get_file_format(path).as_str());
        assert_eq!(is_ebook_format(path), listed);
    }
}

#[test]
fn test_law_book_metadata_format() {
    let m = extract_book_metadata("shelf/notes.txt", None);
    assert_eq!(m.title, "notes");
    assert_eq!(m.author, None);
    assert_eq!(m.format, "txt");
    let given = BookMetadata { title: "T".to_string(), author: Some("A".to_string()), format: "mobi".to_string() };
    let m = extract_book_metadata("shelf/b.mobi", Some(given));
    assert_eq!(m.title, "b");
    assert_eq!(m.author, None);
    assert_eq!(m.format, "mobi");
}

#[test]
fn test_law_decode_special_ids() {
    let mut vocab = Vocab::new();
    vocab.add_token("x".to_string());
    assert_eq!(vocab.decode(&[1]), "[UNK]");
    assert_eq!(vocab.decode(&[0, 2, 3]), "");
    assert_eq!(vocab.decode(&[vocab.size() as u32]), "");
    assert_eq!(vocab.decode(&[4]), "x");
}

#[test]
fn test_law_top_concepts_by_energy() {
    let mut learner = IncrementalLearner::new(Brain::new(), "law_top.json".to_string(), get_tokenizer());
    learner.learn_from_text(
        "alpha beta gamma alpha beta alpha delta epsilon zeta theta iota kappa lambda omicron",
        None,
    );
    let stats = learner.get_stats();
    assert!(stats.total_concepts > 0);
    assert_eq!(stats.top_concepts.len(), std::cmp::min(10, stats.total_concepts as usize));
    for w in stats.top_concepts.windows(2) {
        assert!(w[0].energy >= w[1].energy);
    }
}

#[test]
fn test_law_find_paths_prefix() {
    let brain = chain_brain();
    for d in 0..4 {
        let shallow = find_paths("a", &brain, d);
        let deep = find_paths("a", &brain, d + 1);
        assert_eq!(&deep[..shallow.len()], &shallow[..]);
    }
    let mut lonely = chain_brain();
    lonely.get_or_create_concept("z");
    assert!(find_paths("z", &lonely, 3).is_empty());
}

#[test]
fn test_law_learning_from_text() {
    let mut learner = IncrementalLearner::new(chain_brain(), "law_whole.json".to_string(), get_tokenizer());
    let concepts_before = learner.brain.total_concepts();
    let relations_before = learner.brain.total_relations();
    learner.learn_from_text("neurons fire together and wire together", Some("synapse"));
    assert!(learner.brain.total_concepts() >= concepts_before);
    assert!(learner.brain.total_relations() >= relations_before);
    for name in ["a", "b", "c", "d", "synapse"] {
        assert!(learner.brain.get_concept(name).is_some());
    }
    assert!(learner.brain.get_relation("a", "b").is_some());
    assert!(learner.brain.get_relation("c", "d").is_some());
}

#[test]
fn test_law_vocab_round_trip_known() {
    let mut vocab = Vocab::new();
    vocab.add_text("hello world");
    let size = vocab.size();
    let ids = vocab.tokenize("low doll");
    assert_eq!(vocab.size(), size);
    assert_eq!(vocab.decode(&ids[1..]), "lowdoll");
    assert_eq!(vocab.add_token("h".to_string()), 4);
    assert_eq!(vocab.size(), size);
}
