use std::collections::HashMap;

use yake::rank::RankedPhrase;
use yake::weighting::Step;
use yake::{PreparedDoc, Yake, YakeError};

/// Maps a finite score onto a `u64` key whose unsigned order matches the
/// score order.
fn score_key(f: f64) -> u64 {
    let b = f.to_bits();
    if b >> 63 == 1 {
        !b
    } else {
        b | (1u64 << 63)
    }
}

/// Evaluates the real-valued scoring formulas over the integer statistics
/// and returns (raw, keyword, score) triples, best first.
fn n_best(yake: &Yake, text: &str, n: usize) -> Vec<(String, String, f64)> {
    let doc: PreparedDoc = yake.extract_prepared(text);
    let sentence_count = doc.sentences.len() as f64;

    let max_tf = doc.stats.iter().map(|s| s.tf as f64).fold(0.0_f64, f64::max);
    let tf_nsw: Vec<f64> = doc
        .stats
        .iter()
        .filter(|s| !yake.config.stopwords.iter().any(|w| w == &s.word))
        .map(|s| s.tf as f64)
        .collect();
    let mean_tf = stats::mean(tf_nsw.iter().cloned());
    let std_tf = stats::stddev(tf_nsw.iter().cloned());

    let mut weights: HashMap<String, f64> = HashMap::new();
    for s in &doc.stats {
        let tf = s.tf as f64;
        let casing = (s.tf_a as f64).max(s.tf_u as f64) / (1.0 + tf.ln_1p());
        let median = stats::median(s.sentence_ids.iter().cloned()).unwrap_or(0.0);
        let position = (3.0 + median).ln().ln();
        let frequency = tf / (mean_tf + std_tf);
        let wl = if s.left_total > 0 {
            s.left_distinct as f64 / s.left_total as f64
        } else {
            0.0
        };
        let wr = if s.right_total > 0 {
            s.right_distinct as f64 / s.right_total as f64
        } else {
            0.0
        };
        let relatedness = 1.0 + (wr + wl) * (tf / max_tf);
        let different = s.sentence_ids.len() as f64 / sentence_count;
        let weight = (relatedness * position)
            / (casing + (frequency / relatedness) + (different / relatedness));
        weights.insert(s.word.clone(), weight);
    }

    // phrase scores, keyed by the lowercase phrase; first-insertion order,
    // the value of the last write wins
    let mut order: Vec<String> = Vec::new();
    let mut by_phrase: HashMap<String, (String, f64)> = HashMap::new();
    for group in &doc.phrase_groups {
        for entry in group {
            let mut prod = 1.0_f64;
            let mut sum = 0.0_f64;
            for step in &entry.steps {
                match step {
                    Step::Skipped => {}
                    Step::Term { word } => {
                        let w = weights.get(word).cloned().unwrap_or(0.0);
                        prod *= w;
                        sum += w;
                    }
                    Step::Stop { left, right } => {
                        let p1 = left
                            .map(|(c, tf)| c as f64 / tf as f64)
                            .unwrap_or(0.0);
                        let p2 = right
                            .map(|(c, tf)| c as f64 / tf as f64)
                            .unwrap_or(0.0);
                        let prob = p1 * p2;
                        prod *= 1.0 + (1.0 - prob);
                        sum -= 1.0 - prob;
                    }
                }
            }
            if sum == -1.0 {
                sum = 0.999999999;
            }
            let score = prod / entry.tf as f64 * (1.0 + sum);
            if !by_phrase.contains_key(&entry.phrase) {
                order.push(entry.phrase.clone());
            }
            by_phrase.insert(entry.phrase.clone(), (entry.lexical.clone(), score));
        }
    }

    let mut scored: Vec<RankedPhrase> = Vec::new();
    for phrase in &order {
        let (lexical, score) = &by_phrase[phrase];
        scored.push(RankedPhrase {
            raw: lexical.clone(),
            keyword: phrase.clone(),
            score_key: score_key(*score),
        });
    }
    let ranked = yake.rank_n_best(scored, Some(n));
    ranked
        .into_iter()
        .map(|r| {
            let score = by_phrase[&r.keyword].1;
            (r.raw, r.keyword, score)
        })
        .collect()
}

const ARTICLE: &str = "Google is acquiring data science community Kaggle. Sources tell us that Google is acquiring Kaggle, a platform that hosts data science and machine learning competitions. Details about the transaction remain somewhat vague, but given that Google is hosting its Cloud Next conference in San Francisco this week, the official announcement could come as early as tomorrow. Reached by phone, Kaggle co-founder CEO Anthony Goldbloom declined to deny that the acquisition is happening. Google itself declined 'to comment on rumors'. Kaggle, which has about half a million data scientists on its platform, was founded by Goldbloom and Ben Hamner in 2010. The service got an early start and even though it has a few competitors like DrivenData, TopCoder and HackerRank, it has managed to stay well ahead of them by focusing on its specific niche. The service is basically the de facto home for running data science and machine learning competitions.";

#[test]
fn empty_text_gives_empty_results() {
    let yake = Yake::new(None, None).unwrap();
    let doc = yake.extract_prepared("");
    assert_eq!(doc.sentences.len(), 0);
    assert_eq!(doc.candidates.len(), 0);
    assert_eq!(doc.stats.len(), 0);
    assert_eq!(doc.phrase_groups.len(), 0);
    let results = n_best(&yake, "", 10);
    assert!(results.is_empty());
}

#[test]
fn whitespace_text_gives_empty_results() {
    let yake = Yake::new(None, None).unwrap();
    let results = n_best(&yake, "   \n\t  ", 10);
    assert!(results.is_empty());
}

#[test]
fn zero_ngram_is_rejected() {
    match Yake::new(Some(0), None) {
        Err(e) => assert_eq!(e, YakeError::InvalidNgram),
        Ok(_) => panic!("ngram 0 must be rejected"),
    }
    assert!(Yake::new(Some(1), None).is_ok());
    assert!(Yake::new(None, Some(false)).is_ok());
}

#[test]
fn repeated_word_statistics() {
    let yake = Yake::new(None, None).unwrap();
    let doc = yake.extract_prepared("apple apple apple.");
    let apple = doc
        .stats
        .iter()
        .find(|s| s.word == "apple")
        .expect("apple must be in the vocabulary");
    assert_eq!(apple.tf, 3);
    assert_eq!(apple.sentence_ids, vec![0]);
    assert_eq!(doc.sentences.len(), 1);
    let results = n_best(&yake, "apple apple apple.", 10);
    // every surviving phrase is built from the one word, and the word
    // itself is the best-scored single term
    assert!(!results.is_empty());
    assert!(results.iter().all(|r| r.1.split(' ').all(|w| w == "apple")));
    let best_single = results
        .iter()
        .find(|r| !r.1.contains(' '))
        .expect("the single word must survive");
    assert_eq!(best_single.1, "apple");
}

#[test]
fn stopword_only_phrases_are_eliminated() {
    let yake = Yake::new(None, None).unwrap();
    let doc = yake.extract_prepared("The of and the. Of and the of.");
    assert!(doc.candidates.is_empty());
    let results = n_best(&yake, "The of and the. Of and the of.", 10);
    assert!(results.is_empty());
}

#[test]
fn similarity_ratio_kitten_sitting() {
    let d = yake::rank::edit_distance("kitten", "sitting").unwrap();
    assert_eq!(d, 3);
    let ratio = 1.0 - d as f64 / 7.0;
    assert!((ratio - 0.5714285714285714).abs() < 1e-12);
    // 0.571 does not exceed the 0.8 deduplication threshold
    assert!(!yake::rank::is_similar("kitten", "sitting"));
    // near-identical phrases do exceed it
    assert!(yake::rank::is_similar("data science", "data sciences"));
}

#[test]
fn ranking_is_sorted_and_bounded() {
    let yake = Yake::new(None, None).unwrap();
    let results = n_best(&yake, ARTICLE, 10);
    assert!(results.len() <= 10);
    for pair in results.windows(2) {
        assert!(pair[0].2 <= pair[1].2);
    }
    let three = n_best(&yake, ARTICLE, 3);
    assert_eq!(three.len(), 3);
}

#[test]
fn ranking_deduplicates_near_identical_phrases() {
    let yake = Yake::new(None, None).unwrap();
    let scored = vec![
        RankedPhrase { raw: "data science".to_string(), keyword: "data science".to_string(), score_key: 10 },
        RankedPhrase { raw: "data sciences".to_string(), keyword: "data sciences".to_string(), score_key: 20 },
        RankedPhrase { raw: "platform".to_string(), keyword: "platform".to_string(), score_key: 30 },
    ];
    let ranked = yake.rank_n_best(scored, Some(10));
    let keywords: Vec<&str> = ranked.iter().map(|r| r.keyword.as_str()).collect();
    assert_eq!(keywords, vec!["data science", "platform"]);
}

#[test]
fn extraction_is_deterministic() {
    let yake = Yake::new(None, None).unwrap();
    let a = n_best(&yake, ARTICLE, 10);
    let b = n_best(&yake, ARTICLE, 10);
    assert_eq!(a.len(), b.len());
    for (x, y) in a.iter().zip(b.iter()) {
        assert_eq!(x.0, y.0);
        assert_eq!(x.1, y.1);
        assert_eq!(x.2, y.2);
    }
}

#[test]
fn article_surfaces_company_and_target() {
    let yake = Yake::new(None, None).unwrap();
    let results = n_best(&yake, ARTICLE, 10);
    assert!(!results.is_empty());
    let keywords: Vec<&str> = results.iter().map(|r| r.1.as_str()).collect();
    assert!(keywords.contains(&"google"), "missing google in {keywords:?}");
    assert!(keywords.contains(&"kaggle"), "missing kaggle in {keywords:?}");
}

#[test]
fn preprocessor_splits_and_normalizes() {
    let pre = yake::segment::Preprocessor::new("Kaggle's platform, really".to_string(), None, None);
    let words = pre.split_into_words();
    assert_eq!(words, vec!["Kaggle", "platform", "", "really"]);
    let pre2 = yake::segment::Preprocessor::new(
        "First sentence. Second one here.".to_string(),
        None,
        None,
    );
    let sents = pre2.split_into_sentences();
    assert_eq!(sents.len(), 2);
}

#[test]
fn preprocessor_flags_are_observable() {
    let with_urls = yake::segment::Preprocessor::new(
        "see www.example.com now".to_string(),
        Some(false),
        None,
    );
    assert!(with_urls.split_into_words().iter().any(|w| w.starts_with("www.")));
    let without_urls = yake::segment::Preprocessor::new(
        "see www.example.com now".to_string(),
        Some(true),
        None,
    );
    assert!(!without_urls.split_into_words().iter().any(|w| w.starts_with("www.")));

    let expanded = yake::segment::Preprocessor::new(
        "don't stop".to_string(),
        None,
        Some(true),
    );
    assert_eq!(expanded.split_into_words(), vec!["do", "not", "stop"]);
    let plain = yake::segment::Preprocessor::new(
        "don't stop".to_string(),
        None,
        Some(false),
    );
    assert_eq!(plain.split_into_words(), vec!["don't", "stop"]);
}

#[test]
fn sentence_new_records_length() {
    let s = yake::sentence::Sentence::new(
        vec!["Alpha".to_string(), "beta".to_string()],
        Some(vec!["alpha".to_string(), "beta".to_string()]),
    );
    assert_eq!(s.length, 2);
    assert_eq!(s.words.len(), 2);
    assert_eq!(s.stems[0], "alpha");
}

#[test]
fn numeric_words_are_filtered() {
    let yake = Yake::new(None, None).unwrap();
    let doc = yake.extract_prepared("Version 12.5 shipped yesterday. Version 3e4 goes nowhere.");
    for c in &doc.candidates {
        assert!(!c.lexical_key.contains("12.5"));
        assert!(!c.lexical_key.contains("3e4"));
    }
}

#[test]
fn embedded_stopword_uses_no_left_neighbour_at_position_one() {
    // the left neighbour of an embedded stopword is consulted only from
    // the third token on, so at position one only the right side counts
    let yake = Yake::new(None, None).unwrap();
    let text = "Modern retail de facto standard works. Another retail de facto standard holds.";
    let doc = yake.extract_prepared(text);
    let entry = doc
        .phrase_groups
        .iter()
        .flatten()
        .find(|e| e.phrase == "retail de facto")
        .expect("the phrase must survive filtering");
    assert_eq!(entry.steps.len(), 3);
    match &entry.steps[1] {
        Step::Stop { left, right } => {
            assert!(left.is_none());
            assert!(right.is_some());
        }
        other => panic!("expected a stopword step, got {other:?}"),
    }
}

#[test]
fn custom_stopwords_are_honoured() {
    let yake = Yake::with_resources(
        vec!["apple".to_string()],
        vec![".".to_string()],
        3,
        true,
    )
    .unwrap();
    let doc = yake.extract_prepared("apple banana. banana apple.");
    // every candidate whose boundary word is the custom stopword is gone
    for c in &doc.candidates {
        assert!(!c.lexical_key.starts_with("apple"));
        assert!(!c.lexical_key.ends_with("apple"));
    }
    assert!(doc.candidates.iter().any(|c| c.lexical_key == "banana"));
}
