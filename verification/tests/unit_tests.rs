use seed_intelligence::brain::{decayed, millis_from_reading, relation_id_of, Brain, LearningBatch};
use seed_intelligence::crawler::{
    ddg_results, duckduckgo_url, url_encode, wiki_result, wikipedia_summary_url, InstantAnswer,
    RelatedTopic, WikiSummary,
};
use seed_intelligence::file_reader::{
    book_title_fallback, compute_content_hash, conversion_kind, get_file_format,
    is_text_based, metadata_from_pdfinfo, parse_pdfinfo, progress_due, temp_text_file_name,
    Conversion, LineBatcher,
};
use seed_intelligence::inference::{answer_multi_concept, answer_single_concept, dijkstra, find_best_path};
use seed_intelligence::learner::{
    build_batch, calculate_focus_boost, is_valid_token, performance_label, preprocess_text, should_learn_file,
    IncrementalLearner,
};
use seed_intelligence::lm::{model_vocab_size, ModelConfig};
use seed_intelligence::nlp::{custom_dict_words, get_tokenizer, tokens_from_segments, StopWords, TokenizerWrapper};
use seed_intelligence::observer::{parse_observe_input, sandbox_entry, InteractionHistory, ObserveCommand};
use seed_intelligence::response_generator::choose_refined;
use seed_intelligence::sort::stable_desc_order;
use seed_intelligence::text::u64_to_decimal;

use seed_intelligence::brain::{Book, BookConcept, BrainMeta, Concept, Relation};
use seed_intelligence::crawler::{next_search_source, results_text, wikipedia_language, SearchResult, SearchSource};
use seed_intelligence::file_reader::compute_bytes_hash;
use seed_intelligence::observer::{command_output_text, is_new_clipboard_text, split_command};
use seed_intelligence::repl::books_matching_title;
use seed_intelligence::repl::{parse_repl_input, ReplCommand};
use seed_intelligence::text::parse_usize_str;

#[test]
fn test_sha256_of_abc() {
    assert_eq!(
        compute_content_hash("abc"),
        "ba7816bf8f01cfea414140de5dae2223b00361a396177a9cb410ff61f20015ad"
    );
    assert_eq!(
        compute_content_hash(""),
        "e3b0c44298fc1c149afbf4c8996fb92427ae41e4649b934ca495991b7852b855"
    );
}

#[test]
fn test_file_format_from_extension() {
    assert_eq!(get_file_format("book.PDF"), "pdf");
    assert_eq!(get_file_format("/a/b/novel.Epub"), "epub");
    assert_eq!(get_file_format("README"), "unknown");
    assert_eq!(conversion_kind("x.mobi"), Conversion::Ebook);
    assert_eq!(conversion_kind("x.pdf"), Conversion::Pdf);
    assert_eq!(conversion_kind("x.txt"), Conversion::Plain);
}

#[test]
fn test_file_stem_names() {
    assert_eq!(book_title_fallback("/shelf/My Book.epub"), "My Book");
    assert_eq!(book_title_fallback(""), "Unknown");
    assert_eq!(temp_text_file_name("/shelf/My Book.epub", "book", 42), "My Book_42.txt");
    assert_eq!(temp_text_file_name("", "book", 7), "book_7.txt");
}

#[test]
fn test_text_based_threshold() {
    let hundred: String = "x".repeat(100);
    assert!(!is_text_based(&hundred));
    let more = format!("{} y", hundred);
    assert!(is_text_based(&more));
}

#[test]
fn test_parse_pdfinfo_fields() {
    let (title, author) = parse_pdfinfo("Producer: x\nTitle:   Deep Thoughts  \nAuthor: Ada\n");
    assert_eq!(title, Some("Deep Thoughts".to_string()));
    assert_eq!(author, Some("Ada".to_string()));
    let meta = metadata_from_pdfinfo("/p/report.pdf", "Pages: 3\n");
    assert_eq!(meta.title, "report");
    assert_eq!(meta.author, None);
    assert_eq!(meta.format, "pdf");
}

#[test]
fn test_line_batcher_batches() {
    let mut b = LineBatcher::new(2);
    assert_eq!(b.push_line("  first line  "), None);
    assert_eq!(b.push_line("tiny"), None);
    assert_eq!(b.push_line("second line"), Some("first line second line".to_string()));
    assert_eq!(b.push_line("third line"), None);
    let (last, total, hash) = b.finish();
    assert_eq!(last, Some("third line".to_string()));
    assert_eq!(total, 3);
    assert_eq!(hash, compute_content_hash("first line\nsecond line\nthird line\n"));
    assert!(progress_due(1001, 50));
    assert!(!progress_due(1100, 50));
}

#[test]
fn test_to_lowercase_unicode() {
    assert_eq!(parse_repl_input("/ÀBC Straße"), ReplCommand::Unknown("/àbc".to_string()));
    assert_eq!(get_file_format("x.ÉPUB"), "épub");
}

#[test]
fn test_decode_skips_non_characters() {
    let tokenizer = get_tokenizer();
    assert_eq!(tokenizer.decode(&[104, 0xD800, 105, 0x110000]), "hi");
    assert_eq!(tokenizer.encode("hé"), vec![104, 233]);
}

#[test]
fn test_custom_dictionary() {
    let words = custom_dict_words("云计算平台 10 n\n  \n# note\n区块链钱包\r\n");
    assert_eq!(words, vec!["云计算平台".to_string(), "区块链钱包".to_string()]);
    let t = TokenizerWrapper::with_custom_dict("云计算平台 10 n\n");
    let tokens = t.tokenize("云计算平台很好");
    assert!(tokens.contains(&"云计算平台".to_string()));
}

#[test]
fn test_url_encoding() {
    assert_eq!(url_encode("a b中"), "a%20b%E4%B8%AD");
    assert_eq!(url_encode("A-z_0.~"), "A-z_0.~");
    assert_eq!(
        wikipedia_summary_url("Rust lang", "en"),
        "https://en.wikipedia.org/api/rest_v1/page/summary/Rust%20lang"
    );
    assert_eq!(
        duckduckgo_url("x&y"),
        "https://api.duckduckgo.com/?q=x%26y&format=json&no_html=1"
    );
}

#[test]
fn test_wiki_result_cases() {
    let none = wiki_result("q", "en", WikiSummary { page_type: None, extract: None, title: None, page_url: None });
    assert!(none.is_none());
    let disamb = wiki_result(
        "q",
        "en",
        WikiSummary {
            page_type: Some("disambiguation".to_string()),
            extract: Some("short".to_string()),
            title: None,
            page_url: None,
        },
    );
    assert!(disamb.is_none());
    let r = wiki_result(
        "Rust lang",
        "zh",
        WikiSummary { page_type: None, extract: Some("A language.".to_string()), title: None, page_url: None },
    )
    .unwrap();
    assert_eq!(r.title, "Rust lang");
    assert_eq!(r.snippet, "A language.");
    assert_eq!(r.url, "https://zh.wikipedia.org/wiki/Rust%20lang");
    assert_eq!(r.source, "wikipedia");
}

#[test]
fn test_ddg_results_cases() {
    let data = InstantAnswer {
        abstract_text: Some("About it".to_string()),
        abstract_url: None,
        heading: Some("Heading".to_string()),
        related_topics: vec![
            RelatedTopic { text: Some("Alpha - first".to_string()), first_url: Some("u1".to_string()) },
            RelatedTopic { text: Some("".to_string()), first_url: Some("u2".to_string()) },
            RelatedTopic { text: Some("Gamma".to_string()), first_url: None },
            RelatedTopic { text: Some("Delta".to_string()), first_url: Some("u4".to_string()) },
        ],
    };
    let rs = ddg_results("q", &data);
    assert_eq!(rs.len(), 2);
    assert_eq!(rs[0].title, "Heading");
    assert_eq!(rs[0].url, "");
    assert_eq!(rs[1].title, "Alpha");
    assert_eq!(rs[1].snippet, "Alpha - first");
    assert_eq!(rs[1].url, "u1");
    assert_eq!(rs[1].source, "duckduckgo");
}

#[test]
fn test_focus_boost_values() {
    assert_eq!(calculate_focus_boost("ai", "ml", None), 1_000_000);
    assert_eq!(calculate_focus_boost("AI research", "ml", Some("ai")), 1_414_214);
    assert_eq!(calculate_focus_boost("ai", "big AI", Some("Ai")), 2_000_000);
    assert_eq!(calculate_focus_boost("x", "y", Some("ai")), 1_000_000);
}

#[test]
fn test_valid_tokens() {
    assert!(is_valid_token("learning"));
    assert!(!is_valid_token("a"));
    assert!(!is_valid_token("hi!"));
    assert!(!is_valid_token("的"));
}

#[test]
fn test_preprocess_and_labels() {
    assert_eq!(preprocess_text("  a\tb\nc  "), "a b c");
    assert_eq!(performance_label(99), "excellent");
    assert_eq!(performance_label(100), "good");
    assert_eq!(performance_label(500), "slow");
}

#[test]
fn test_build_batch_weights() {
    let tokens = vec!["alpha".to_string(), "beta".to_string()];
    let batch: LearningBatch = build_batch(&tokens, None);
    assert_eq!(batch.concepts.len(), 2);
    assert_eq!(batch.relations.len(), 1);
    let (w, c, s, t) = batch.relations.value_at(0).clone();
    // 1 / (1 + 0.5) * 0.1, in millionths.
    assert_eq!(w, 66_666);
    assert_eq!(c, 1);
    assert_eq!(s, "alpha");
    assert_eq!(t, "beta");
}

#[test]
fn test_decay_and_relation_ids() {
    assert_eq!(decayed(100), 95);
    assert_eq!(decayed(1_000_000), 950_000);
    assert_eq!(relation_id_of("b", "a"), "rel_a_b");
    assert_eq!(relation_id_of("x|||y", "z"), "rel_x_y_z");
}

#[test]
fn test_stable_desc_order() {
    assert_eq!(stable_desc_order(&vec![3, 5, 3, 9]), vec![3, 1, 0, 2]);
    assert_eq!(stable_desc_order(&vec![]), Vec::<usize>::new());
}

#[test]
fn test_decimal_text() {
    assert_eq!(u64_to_decimal(0), "0");
    assert_eq!(u64_to_decimal(18446744073709551615), "18446744073709551615");
}

#[test]
fn test_observe_commands() {
    assert_eq!(parse_observe_input("   "), ObserveCommand::Empty);
    assert_eq!(parse_observe_input(" hello "), ObserveCommand::Text("hello".to_string()));
    assert_eq!(parse_observe_input("/quit"), ObserveCommand::Exit);
    assert_eq!(parse_observe_input("/run ls -l"), ObserveCommand::Run(Some("ls -l".to_string())));
    assert_eq!(parse_observe_input("/file"), ObserveCommand::File(None));
    assert_eq!(parse_observe_input("/nope x"), ObserveCommand::Unknown("/nope".to_string()));
}

#[test]
fn test_history_keeps_last_hundred() {
    let mut h = InteractionHistory::new();
    for i in 0..105 {
        h.add("file", &format!("entry {}", i));
    }
    let all = h.recent(1000);
    assert_eq!(all.len(), 100);
    assert_eq!(all[0].content, "entry 5");
    assert_eq!(h.recent(2)[1].content, "entry 104");
}

#[test]
fn test_model_vocab_size() {
    let config = ModelConfig::default();
    assert_eq!(model_vocab_size(&config, 10), 2000);
    assert_eq!(model_vocab_size(&config, 1950), 2050);
}

#[test]
fn test_refined_answer_choice() {
    assert_eq!(choose_refined("original", "  ".to_string()), "original");
    assert_eq!(choose_refined("original", " better ".to_string()), "original");
    assert_eq!(choose_refined("original", "a better answer".to_string()), "a better answer");
}

#[test]
fn test_dijkstra_follows_heaviest_links() {
    let mut brain = Brain::new();
    for n in ["s", "m", "t"] {
        brain.get_or_create_concept(n);
    }
    brain.add_or_update_relation("s", "t");
    brain.add_or_update_relation("s", "m");
    brain.add_or_update_relation("m", "t");
    brain.set_relation_weight("s", "t", 100_000);
    brain.set_relation_weight("s", "m", 900_000);
    brain.set_relation_weight("m", "t", 900_000);
    let path = dijkstra("s", "t", &brain).unwrap();
    assert_eq!(path, vec!["s".to_string(), "m".to_string(), "t".to_string()]);
    assert_eq!(dijkstra("s", "s", &brain), Some(vec!["s".to_string()]));
}

#[test]
fn test_dijkstra_highest_weight_path() {
    let mut brain = Brain::new();
    for n in ["A", "B", "C"] {
        brain.get_or_create_concept(n);
    }
    brain.add_or_update_relation("A", "B");
    brain.add_or_update_relation("A", "C");
    brain.add_or_update_relation("C", "B");
    brain.set_relation_weight("A", "B", 100_000);
    brain.set_relation_weight("A", "C", 900_000);
    brain.set_relation_weight("C", "B", 900_000);
    let path = dijkstra("A", "B", &brain);
    assert_eq!(path, Some(vec!["A".to_string(), "C".to_string(), "B".to_string()]));
    let best = find_best_path("A", "B", &brain).unwrap();
    assert_eq!(best.path, vec!["A".to_string(), "C".to_string(), "B".to_string()]);
}

#[test]
fn test_dijkstra_visits_heaviest_entry_first() {
    // A-B (0.5) is taken before A-C (0.4), so "B" is reached directly even
    // though A-C-B weighs more in total.
    let mut brain = Brain::new();
    for n in ["A", "B", "C"] {
        brain.get_or_create_concept(n);
    }
    brain.add_or_update_relation("A", "B");
    brain.add_or_update_relation("A", "C");
    brain.add_or_update_relation("C", "B");
    brain.set_relation_weight("A", "B", 500_000);
    brain.set_relation_weight("A", "C", 400_000);
    brain.set_relation_weight("C", "B", 900_000);
    let path = dijkstra("A", "B", &brain);
    assert_eq!(path, Some(vec!["A".to_string(), "B".to_string()]));
}

#[test]
fn test_single_and_multi_concept_answers() {
    let mut learner = IncrementalLearner::new(Brain::new(), "unit_brain.json".to_string(), get_tokenizer());
    learner.learn_from_text("rust compiler borrow checker", None);
    let single = answer_single_concept("rust", &learner.brain);
    assert!(single.confidence <= 100);
    assert_eq!(single.concepts, vec!["rust".to_string()]);
    let unknown = answer_single_concept("nothing-here", &learner.brain);
    assert_eq!(unknown.confidence, 0);
    let multi = answer_multi_concept(&["rust".to_string(), "checker".to_string()], &learner.brain);
    assert!(multi.paths.len() <= 3);
}

#[test]
fn test_repl_commands() {
    assert_eq!(parse_repl_input("  "), ReplCommand::Empty);
    assert_eq!(parse_repl_input(" quit "), ReplCommand::Exit);
    assert_eq!(parse_repl_input("/EXIT now"), ReplCommand::Exit);
    assert_eq!(parse_repl_input("什么是AI"), ReplCommand::Question("什么是AI".to_string()));
    assert_eq!(parse_repl_input("/H"), ReplCommand::Help);
    assert_eq!(parse_repl_input("/concept"), ReplCommand::Concept(None));
    assert_eq!(parse_repl_input("/c rust lang"), ReplCommand::Concept(Some("rust lang".to_string())));
    assert_eq!(parse_repl_input("/related ai 3"), ReplCommand::Related(Some(("ai".to_string(), 3))));
    assert_eq!(parse_repl_input("/r ai deep"), ReplCommand::Related(Some(("ai".to_string(), 2))));
    assert_eq!(parse_repl_input("/r ai"), ReplCommand::Related(Some(("ai".to_string(), 2))));
    assert_eq!(parse_repl_input("/books"), ReplCommand::Books(None));
    assert_eq!(parse_repl_input("/lt some text"), ReplCommand::LearnText(Some("some text".to_string())));
    assert_eq!(parse_repl_input("/Nope x"), ReplCommand::Unknown("/nope".to_string()));
}

#[test]
fn test_parse_usize() {
    assert_eq!(parse_usize_str("42"), Some(42));
    assert_eq!(parse_usize_str("+7"), Some(7));
    assert_eq!(parse_usize_str("-0"), None);
    assert_eq!(parse_usize_str(""), None);
    assert_eq!(parse_usize_str("+"), None);
    assert_eq!(parse_usize_str("1x"), None);
    assert_eq!(parse_usize_str("99999999999999999999999"), None);
    assert_eq!(parse_usize_str(&usize::MAX.to_string()), Some(usize::MAX));
}

#[test]
fn test_books_matching_title() {
    let mut brain = Brain::new();
    let meta = |t: &str| seed_intelligence::brain::BookMetadata { title: t.to_string(), author: None, format: "txt".to_string() };
    brain.add_book_at("h1", "/a", &meta("Rust in Action"), 10, 1);
    brain.add_book_at("h2", "/b", &meta("Deep Learning"), 20, 2);
    let all = brain.get_all_books();
    assert_eq!(books_matching_title(all.clone(), None).len(), 2);
    let found = books_matching_title(all, Some("RUST"));
    assert_eq!(found.len(), 1);
    assert_eq!(found[0].title, "Rust in Action");
}

#[test]
fn test_brain_records_round_trip() {
    let mut brain = Brain::new();
    brain.get_or_create_concept_at("a", "1");
    brain.get_or_create_concept_at("b", "1");
    brain.add_or_update_relation_at("a", "b", 3);
    let concepts: Vec<(String, Concept)> = (0..brain.concepts().len())
        .map(|i| (brain.concepts().key_at(i).clone(), brain.concepts().value_at(i).clone()))
        .collect();
    let relations: Vec<Relation> = (0..brain.relations().len()).map(|i| brain.relations().value_at(i).clone()).collect();
    let books: Vec<Book> = brain.books().clone();
    let bcs: Vec<BookConcept> = brain.book_concept_records().clone();
    let rebuilt = Brain::from_records(&concepts, &relations, &books, &bcs, 0, 0, "2.0", brain.meta()).unwrap();
    assert_eq!(rebuilt.total_concepts(), 2);
    assert_eq!(rebuilt.total_relations(), 1);
    assert!(rebuilt.get_relation("b", "a").is_some());
    let mut dup = concepts.clone();
    dup.push(concepts[0].clone());
    assert!(Brain::from_records(&dup, &relations, &books, &bcs, 0, 0, "2.0", brain.meta()).is_none());
    let bad_book = Book {
        id: 5,
        file_hash: "x".to_string(),
        file_path: None,
        title: "t".to_string(),
        author: None,
        format: "txt".to_string(),
        file_size: 1,
        processed_at: 1,
        total_concepts_learned: 0,
    };
    let meta = BrainMeta { total_concepts: 0, total_relations: 0, total_learn_count: 0 };
    assert!(Brain::from_records(&concepts, &relations, &vec![bad_book.clone()], &bcs, 0, 4, "2.0", meta).is_none());
    assert!(Brain::from_records(&concepts, &relations, &vec![bad_book], &bcs, 0, 5, "2.0", meta).is_some());
}

#[test]
fn test_search_helpers() {
    assert_eq!(next_search_source(None, false), Some(SearchSource::WikipediaEn));
    assert_eq!(next_search_source(Some(SearchSource::WikipediaEn), false), Some(SearchSource::WikipediaZh));
    assert_eq!(next_search_source(Some(SearchSource::WikipediaZh), false), Some(SearchSource::DuckDuckGo));
    assert_eq!(next_search_source(Some(SearchSource::DuckDuckGo), false), None);
    assert_eq!(next_search_source(Some(SearchSource::WikipediaEn), true), None);
    assert_eq!(wikipedia_language(SearchSource::WikipediaZh), Some("zh"));
    assert_eq!(wikipedia_language(SearchSource::DuckDuckGo), None);
    let r = |t: &str, s: &str| SearchResult { title: t.to_string(), snippet: s.to_string(), url: String::new(), source: String::new() };
    assert_eq!(results_text(&vec![r("A", "first"), r("B", "second")]), "A: first B: second");
    assert_eq!(results_text(&vec![]), "");
}

#[test]
fn test_observer_helpers() {
    assert!(is_new_clipboard_text("old", "new"));
    assert!(!is_new_clipboard_text("same", "same"));
    assert!(!is_new_clipboard_text("old", ""));
    assert_eq!(command_output_text(true, "out".to_string(), "err"), "out");
    assert_eq!(command_output_text(false, "out".to_string(), "boom"), "Error: boom");
    assert_eq!(split_command("/run a b"), ("/run".to_string(), Some("a b".to_string())));
    assert_eq!(split_command("/run"), ("/run".to_string(), None));
}

#[test]
fn test_bytes_hash_and_progress() {
    assert_eq!(compute_bytes_hash(b"abc"), compute_content_hash("abc"));
    let mut b = LineBatcher::new(1);
    assert_eq!(b.lines_handed_out(), 0);
    assert_eq!(b.push_line("hello world"), Some("hello world".to_string()));
    assert_eq!(b.lines_handed_out(), 1);
}

#[test]
fn test_millis_from_reading() {
    assert_eq!(millis_from_reading(None), 0);
    assert_eq!(millis_from_reading(Some(1_700_000_000_123)), 1_700_000_000_123);
    assert_eq!(millis_from_reading(Some((1u128 << 64) + 7)), 7);
}

#[test]
fn test_sandbox_entry() {
    assert_eq!(sandbox_entry(" notes.txt "), Some("notes.txt".to_string()));
    assert_eq!(sandbox_entry("books/a..b.txt"), Some("books/a..b.txt".to_string()));
    assert_eq!(sandbox_entry("..hidden"), Some("..hidden".to_string()));
    assert_eq!(sandbox_entry(""), None);
    assert_eq!(sandbox_entry("   "), None);
    assert_eq!(sandbox_entry("/etc/passwd"), None);
    assert_eq!(sandbox_entry("\\server\\share"), None);
    assert_eq!(sandbox_entry("../secret.txt"), None);
    assert_eq!(sandbox_entry("books/../../x"), None);
    assert_eq!(sandbox_entry("books\\..\\x"), None);
    assert_eq!(sandbox_entry("books/.."), None);
    assert_eq!(sandbox_entry(".."), None);
    assert_eq!(sandbox_entry("C:\\Windows\\win.ini"), None);
    assert_eq!(sandbox_entry("d:notes.txt"), None);
}

#[test]
fn test_single_ideograph_segments_are_kept() {
    let stop = StopWords::new();
    let segs = vec!["鲸".to_string(), "机器学习".to_string(), "x".to_string(), "7".to_string()];
    assert_eq!(
        tokens_from_segments(&segs, &stop, false),
        vec!["鲸".to_string(), "机器学习".to_string(), "7".to_string()]
    );
    assert_eq!(tokens_from_segments(&segs, &stop, true), vec!["鲸".to_string(), "机器学习".to_string()]);
}

#[test]
fn test_should_learn_file() {
    assert!(should_learn_file(false, false));
    assert!(should_learn_file(false, true));
    assert!(!should_learn_file(true, false));
    assert!(should_learn_file(true, true));
}
