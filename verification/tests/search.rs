use boucle::confidence::Confidence;
use boucle::entry::{Entry, EntryType};
use boucle::search::{
    fuzzy_similarity, levenshtein_distance, rank, score_entry, score_lowered, tokenize, POINT,
};
use boucle::store::{put_record, recall, remember, Store};
use boucle::wide::Wide;

fn setup_test_memory(store: &mut Store) {
    remember(
        store,
        "fact",
        "Rust is fast",
        "Rust is a systems programming language known for speed and safety.",
        &["rust".to_string(), "performance".to_string()],
    )
    .unwrap();

    remember(
        store,
        "fact",
        "Python is easy",
        "Python is a high-level language known for readability.",
        &["python".to_string()],
    )
    .unwrap();

    remember(
        store,
        "decision",
        "Use Rust for the rewrite",
        "We decided to rewrite the framework in Rust for reliability.",
        &["rust".to_string(), "architecture".to_string()],
    )
    .unwrap();
}

fn chars(s: &str) -> Vec<char> {
    s.chars().collect()
}

fn wides(numbers: &[u64]) -> Vec<Wide> {
    numbers.iter().map(|n| Wide::from_u64(*n)).collect()
}

fn entry(title: &str, body: &str, tags: &[&str], millis: i64, superseded_by: Option<&str>) -> Entry {
    Entry {
        filename: "e.md".to_string(),
        entry_type: EntryType::Fact,
        title: title.to_string(),
        confidence: Confidence::from_millis(millis),
        tags: tags.iter().map(|t| t.to_string()).collect(),
        content: body.to_string(),
        created: String::new(),
        superseded_by: superseded_by.map(|s| s.to_string()),
    }
}

#[test]
fn test_recall_basic() {
    let mut store = Store::new();
    setup_test_memory(&mut store);

    let results = recall(&store, "rust", 5);
    assert!(!results.is_empty());
    // "Use Rust for the rewrite" or "Rust is fast" should be top
    assert!(results[0].title.contains("Rust") || results[0].title.contains("rust"));
}

#[test]
fn test_recall_multiple_keywords() {
    let mut store = Store::new();
    setup_test_memory(&mut store);

    let results = recall(&store, "rust speed", 5);
    assert!(!results.is_empty());
    // "Rust is fast" should rank highest (matches both title and content)
    assert!(results[0].title.contains("fast") || results[0].content.contains("speed"));
}

#[test]
fn test_recall_no_match() {
    let mut store = Store::new();
    setup_test_memory(&mut store);

    let results = recall(&store, "javascript", 5);
    assert!(results.is_empty());
}

#[test]
fn test_recall_empty_query() {
    let mut store = Store::new();
    setup_test_memory(&mut store);

    let results = recall(&store, "", 5);
    assert!(results.is_empty());
}

#[test]
fn test_recall_short_words_filtered() {
    let mut store = Store::new();
    setup_test_memory(&mut store);

    // "is" and "a" are too short, should be filtered
    let results = recall(&store, "is a", 5);
    assert!(results.is_empty());
}

#[test]
fn test_recall_limit() {
    let mut store = Store::new();
    setup_test_memory(&mut store);

    let results = recall(&store, "language", 1);
    assert!(results.len() <= 1);
}

#[test]
fn test_recall_confidence_weighting() {
    let mut store = Store::new();

    // Create two entries with different confidence
    remember(&mut store, "fact", "Low confidence", "rust testing", &[]).unwrap();

    // Manually create a high-confidence entry
    let high_conf = "---\ntype: fact\ntitle: \"High confidence\"\nconfidence: 1.0\ncreated: 20260228\n---\n\nrust testing";
    put_record(
        &mut store.knowledge,
        "20260228-999999-high-confidence.md".to_string(),
        high_conf.to_string(),
    );

    let results = recall(&store, "rust testing", 5);
    assert!(results.len() >= 2);
    // Higher confidence should rank first when content matches equally
    assert!(results[0].confidence.as_millis() >= results[1].confidence.as_millis());
    assert_eq!(results[0].title, "High confidence");
    assert!(results[0].relevance_score > results[1].relevance_score);
}

#[test]
fn test_recall_superseded_penalty() {
    let mut store = Store::new();

    remember(&mut store, "fact", "Current fact", "rust memory", &[]).unwrap();

    // Create a superseded entry
    let superseded = "---\ntype: fact\ntitle: \"Old fact\"\nconfidence: 0.9\nsuperseded_by: current\ncreated: 20260228\n---\n\nrust memory old version";
    put_record(
        &mut store.knowledge,
        "20260228-000001-old-fact.md".to_string(),
        superseded.to_string(),
    );

    let results = recall(&store, "rust memory", 5);
    assert!(results.len() >= 2);
    // Non-superseded should rank higher
    assert!(results[0].superseded_by.is_none());
}

#[test]
fn test_levenshtein_distance() {
    assert_eq!(levenshtein_distance("", ""), 0);
    assert_eq!(levenshtein_distance("abc", ""), 3);
    assert_eq!(levenshtein_distance("", "abc"), 3);
    assert_eq!(levenshtein_distance("abc", "abc"), 0);
    assert_eq!(levenshtein_distance("abc", "ab"), 1);
    assert_eq!(levenshtein_distance("abc", "abcd"), 1);
    assert_eq!(levenshtein_distance("rust", "trust"), 1);
    assert_eq!(levenshtein_distance("kitten", "sitting"), 3);
}

#[test]
fn test_fuzzy_similarity() {
    let similarity = |a: &str, b: &str| fuzzy_similarity(a, b) as f64 / 1_000_000.0;
    assert_eq!(similarity("", ""), 1.0);
    assert_eq!(similarity("abc", "abc"), 1.0);
    assert!((similarity("rust", "trust") - 0.8).abs() < 0.01); // 4/5 = 0.8

    // "test" vs "testing": distance=3, max_len=7, similarity = 1 - 3/7 = 0.57
    assert!((similarity("test", "testing") - 0.57).abs() < 0.01);
}

#[test]
fn test_recall_fuzzy_matching() {
    let mut store = Store::new();
    setup_test_memory(&mut store);

    // Add specific content for fuzzy testing
    remember(
        &mut store,
        "fact",
        "Fuzzy test fact",
        "This contains words like trust and java concepts.",
        &["testing".to_string()],
    )
    .unwrap();

    // Should find "trust" with fuzzy match to "rust" (distance=1, similarity=0.8)
    let results = recall(&store, "rust", 5);
    assert!(
        !results.is_empty(),
        "Should find fuzzy matches for 'rust' -> 'trust'"
    );

    // Verify fuzzy similarity calculation for our test case
    let similarity = fuzzy_similarity("rust", "trust") as f64 / 1_000_000.0;
    assert!(
        similarity >= 0.8,
        "rust/trust similarity should be >= 0.8, got {}",
        similarity
    );
}

#[test]
fn test_recall_exact_vs_fuzzy_scores() {
    let mut store = Store::new();
    setup_test_memory(&mut store);

    // Exact matches should score higher than fuzzy matches
    let exact_results = recall(&store, "rust", 5);
    let fuzzy_results = recall(&store, "rast", 5);

    if !exact_results.is_empty() && !fuzzy_results.is_empty() {
        // Exact match should have higher score than fuzzy match
        assert!(exact_results[0].relevance_score > fuzzy_results[0].relevance_score);
    }
}

#[test]
fn similarity_exact_values_and_threshold() {
    assert_eq!(fuzzy_similarity("rust", "trust"), 800_000);
    assert_eq!(fuzzy_similarity("test", "testing"), 571_428);
    assert_eq!(fuzzy_similarity("abc", ""), 0);
    assert_eq!(fuzzy_similarity("", "abc"), 0);
    assert_eq!(fuzzy_similarity("kitten", "sitting"), 571_428);
    // lengths are taken in bytes, distances in characters
    assert_eq!(fuzzy_similarity("é", "e"), 500_000);
    assert_eq!(levenshtein_distance("héllo", "hello"), 1);
    assert_eq!(levenshtein_distance("flaw", "lawn"), 2);
}

#[test]
fn fuzzy_threshold_is_a_hard_cutoff() {
    // "trust" against "rust": similarity 0.8, counted: half of 0.8 of a point
    let tokens = vec![chars("rust")];
    let body_only = |body: &str| {
        score_lowered(&chars(body), &chars(""), &vec![], Confidence::from_millis(1000), false, &tokens)
            .capped()
    };
    assert_eq!(body_only("crusts"), POINT); // occurs inside a word: one point
    assert_eq!(body_only("bust"), 0); // similarity 0.75: nothing
    let five = vec![chars("trust")];
    let score = score_lowered(
        &chars("crust"),
        &chars(""),
        &vec![],
        Confidence::from_millis(1000),
        false,
        &five,
    );
    assert_eq!(score.capped(), POINT / 10 * 4); // 0.8 * 0.5
}

#[test]
fn score_adds_the_four_signals() {
    let tokens = vec![chars("rust")];
    let one = Confidence::from_millis(1000);
    // two occurrences in the body, the title holds it, one tag holds it
    let score = score_lowered(
        &chars("rust and more rust"),
        &chars("about rust"),
        &vec![chars("rust-lang"), chars("speed")],
        one,
        false,
        &tokens,
    );
    assert_eq!(score.capped(), 2 * POINT + 5 * POINT + 3 * POINT);
    assert_eq!(score, Wide::from_u64(10 * POINT));
    // likeness only: body word 0.8 * 0.5, title word 0.8 * 2.5, tag 0.8 * 1.5
    let five = vec![chars("trust")];
    let score = score_lowered(
        &chars("a crust"),
        &chars("the crust"),
        &vec![chars("crust")],
        one,
        false,
        &five,
    );
    assert_eq!(score.capped(), POINT / 10 * (4 + 20 + 12));
    // a field that holds the word earns nothing more by likeness
    let score = score_lowered(&chars("trust trust"), &chars(""), &vec![], one, false, &five);
    assert_eq!(score.capped(), 2 * POINT);
}

#[test]
fn score_weighs_confidence_and_supersession() {
    let tokens = vec![chars("rust")];
    let at = |millis: i64, superseded: bool| {
        score_lowered(
            &chars("rust"),
            &chars(""),
            &vec![],
            Confidence::from_millis(millis),
            superseded,
            &tokens,
        )
        .capped()
    };
    assert_eq!(at(1000, false), POINT);
    assert_eq!(at(500, false), POINT / 2);
    assert_eq!(at(800, true), POINT / 100 * 24);
    assert_eq!(at(0, false), 0);
    assert_eq!(at(-500, false), 0);
    assert!(at(1000, false) > at(500, false));
    assert!(at(800, false) > at(800, true));
}

#[test]
fn score_grows_with_an_occurrence_in_the_body() {
    let tokens = tokenize("rust memory");
    let without = entry("Notes", "memory of things", &[], 800, None);
    let with = entry("Notes", "memory of things rust", &[], 800, None);
    assert!(score_entry(&with, &tokens).capped() > score_entry(&without, &tokens).capped());
}

#[test]
fn score_entry_lowers_the_case() {
    let tokens = tokenize("RUST");
    assert_eq!(tokens, vec![chars("rust")]);
    let e = entry("RUST Guide", "Rust. RUST!", &["Rust"], 1000, None);
    assert_eq!(score_entry(&e, &tokens).capped(), (2 + 5 + 3) * POINT);
    let old = entry("RUST Guide", "Rust. RUST!", &["Rust"], 1000, Some("new.md"));
    assert_eq!(score_entry(&old, &tokens).capped(), 3 * POINT);
    let blank = entry("RUST Guide", "Rust. RUST!", &["Rust"], 1000, Some(""));
    assert_eq!(score_entry(&blank, &tokens).capped(), 10 * POINT);
}

#[test]
fn tokenize_drops_short_words() {
    assert!(tokenize("is a").is_empty());
    assert!(tokenize("").is_empty());
    assert!(tokenize("   \t\n ").is_empty());
    assert_eq!(tokenize("  The  QUICK is\tok "), vec![chars("the"), chars("quick")]);
    // two characters that take three bytes count
    assert_eq!(tokenize("éa xy"), vec![chars("éa")]);
}

#[test]
fn rank_orders_by_score_then_position() {
    assert_eq!(rank(&wides(&[5, 0, 9, 5, 0, 1]), 10), vec![2, 0, 3, 5]);
    assert_eq!(rank(&wides(&[5, 0, 9, 5, 0, 1]), 2), vec![2, 0]);
    assert_eq!(rank(&wides(&[5, 0, 9, 5, 0, 1]), 0), Vec::<usize>::new());
    assert_eq!(rank(&wides(&[0, 0]), 3), Vec::<usize>::new());
    assert_eq!(rank(&wides(&[]), 3), Vec::<usize>::new());
    assert_eq!(rank(&wides(&[1, 2, 3, 4]), 4), vec![3, 2, 1, 0]);
}

#[test]
fn recall_ranks_the_matching_entry_first() {
    let mut store = Store::new();
    remember(
        &mut store,
        "fact",
        "Rust is fast",
        "Rust is a systems programming language known for speed and safety.",
        &["rust".to_string(), "performance".to_string()],
    )
    .unwrap();
    remember(
        &mut store,
        "fact",
        "Python is easy",
        "Python is a high-level language known for readability.",
        &["python".to_string()],
    )
    .unwrap();
    let results = recall(&store, "rust", 5);
    assert_eq!(results.len(), 1);
    assert_eq!(results[0].title, "Rust is fast");
    // body 1 + title 5 + tag 3, at confidence 0.8
    assert_eq!(results[0].relevance_score, POINT / 10 * 72);
    let both = recall(&store, "language", 5);
    assert_eq!(both.len(), 2);
    assert!(both.iter().all(|r| r.relevance_score > 0));
}

#[test]
fn an_occurrence_can_cost_what_likeness_earned() {
    // three words like the query word earn more than one occurrence of it
    let tokens = tokenize("trust");
    let without = entry("t", "crust crust crust", &[], 1000, None);
    let with = entry("t", "crust crust crust trust", &[], 1000, None);
    assert_eq!(score_entry(&without, &tokens).capped(), POINT / 10 * 12);
    assert_eq!(score_entry(&with, &tokens).capped(), POINT);
}

#[test]
fn scores_are_exact_beyond_what_is_shown() {
    let tokens = vec![chars("aaa")];
    let body: Vec<char> = std::iter::repeat('a').take(300).collect();
    let most = Confidence::from_millis(i64::MAX);
    // a hundred occurrences at the greatest confidence there is
    let score = score_lowered(&body, &chars(""), &vec![], most, false, &tokens);
    assert_eq!(score, Wide { high: 0, low: 18_446_744_073_709_551_614_000_000_000 });
    assert_eq!(score.capped(), u64::MAX);
    let penalized = score_lowered(&body, &chars(""), &vec![], most, true, &tokens);
    assert_eq!(penalized, Wide { high: 0, low: 5_534_023_222_112_865_484_200_000_000 });
    assert_eq!(penalized.capped(), u64::MAX);
    assert!(score.at_least(&penalized) && !penalized.at_least(&score));
}

#[test]
fn ranking_goes_by_the_exact_score() {
    // both scores are beyond what 64 bits show
    let low = entry("Rust", "rust", &[], 10_000_000_000_000, None);
    let high = entry("Rust", "rust", &[], 20_000_000_000_000, None);
    let results = boucle::search::recall(&vec![low.clone(), high.clone()], "rust", 5);
    assert_eq!(results.len(), 2);
    assert_eq!(results[0].relevance_score, u64::MAX);
    assert_eq!(results[1].relevance_score, u64::MAX);
    assert_eq!(results[0].confidence, high.confidence);
    assert_eq!(results[1].confidence, low.confidence);
    assert_eq!(results[0].exact_score, Wide::product(6 * 2_000_000, 200_000_000_000_000));
    assert_eq!(results[1].exact_score, Wide::product(6 * 2_000_000, 100_000_000_000_000));
    // a superseded entry ranks below its like, though it stands first
    let old = entry("Rust", "rust", &[], 10_000_000_000_000, Some("new.md"));
    let results = boucle::search::recall(&vec![old, low.clone()], "rust", 5);
    assert_eq!(results.len(), 2);
    assert_eq!(results[0].superseded_by, None);
    assert_eq!(results[1].superseded_by, Some("new.md".to_string()));
    assert_eq!(results[0].relevance_score, results[1].relevance_score);
    assert!(!results[1].exact_score.at_least(&results[0].exact_score));
}

#[test]
fn wide_numbers_multiply_add_and_compare() {
    let most = u128::MAX;
    let square = Wide::product(most, most);
    // (2^128 - 1)^2 = 2^256 - 2^129 + 1
    assert_eq!(square, Wide { high: most - 1, low: 1 });
    assert_eq!(Wide::product(1 << 64, 1 << 64), Wide { high: 1, low: 0 });
    assert_eq!(Wide::product(0, most), Wide::zero());
    assert_eq!(Wide::product(7, 6), Wide::from_u64(42));
    let sum = Wide { high: 0, low: most }.plus(Wide::from_u64(1));
    assert_eq!(sum, Wide { high: 1, low: 0 });
    assert!(sum.at_least(&Wide { high: 0, low: most }));
    assert!(!Wide { high: 0, low: most }.at_least(&sum));
    assert!(sum.at_least(&sum));
    assert!(Wide::zero().is_zero() && !sum.is_zero());
    assert_eq!(sum.capped(), u64::MAX);
    assert_eq!(Wide::from_u64(u64::MAX).capped(), u64::MAX);
    assert_eq!(Wide { high: 0, low: 1 << 64 }.capped(), u64::MAX);
    assert_eq!(Wide::from_u64(12).capped(), 12);
}

#[test]
fn results_weigh_confidence_and_supersession() {
    let half = entry("Notes", "rust in the body", &[], 500, None);
    let whole = entry("Notes", "rust in the body", &[], 1000, None);
    let results = boucle::search::recall(&vec![half.clone(), whole.clone()], "rust", 2);
    assert_eq!(results.len(), 2);
    assert_eq!(results[0].confidence, whole.confidence);
    assert_eq!(results[1].confidence, half.confidence);
    assert_eq!(results[0].relevance_score, POINT);
    assert_eq!(results[1].relevance_score, POINT / 2);
    assert_eq!(results[0].relevance_score, 2 * results[1].relevance_score);
    assert_eq!(results[0].exact_score, Wide::from_u64(POINT));
    // the superseded twin comes second, at three tenths of the score
    let old = entry("Notes", "rust in the body", &[], 1000, Some("new.md"));
    let results = boucle::search::recall(&vec![old, whole], "rust", 2);
    assert_eq!(results.len(), 2);
    assert_eq!(results[0].superseded_by, None);
    assert_eq!(results[1].superseded_by, Some("new.md".to_string()));
    assert_eq!(10 * results[1].relevance_score, 3 * results[0].relevance_score);
    // an entry that scores nothing is left out, whatever the limit
    let other = entry("Python", "easy", &[], 1000, None);
    let results = boucle::search::recall(&vec![other, half], "rust", 5);
    assert_eq!(results.len(), 1);
    assert_eq!(results[0].title, "Notes");
}
