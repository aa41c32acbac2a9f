//! Tests for normalization, word splitting, pair splitting, and the
//! sentence sampler.

use markov_mimic::errors::{ChannelNotFoundError, MarkovFetchResultError, MemberNotFoundError};
use markov_mimic::interface::DbInterface;
use markov_mimic::markov::filter_string_pre_processing;
use markov_mimic::textprocessing::{to_pairs, vec_word_split};

#[test]
fn test_normalize_url_removal() {
    let out = filter_string_pre_processing("check this out https://example.com/x cool");
    assert!(!out.contains("https"));
    assert!(!out.contains("example.com"));
    assert_eq!(out, "check this out cool");
}

#[test]
fn test_normalize_casing_fold() {
    assert_eq!(filter_string_pre_processing("Hello World"), "hello world");
}

#[test]
fn test_normalize_idempotent_samples() {
    let samples = [
        "",
        "Hello World",
        "check this out https://example.com/x cool",
        "a  lot   of    spaces",
        "line\nfeeds\nhere",
        "<a:dance:123456> hi <@!9876> there <@&555> friend <:smile:42>",
        "Weird~punct;everywhere! (yes)",
        "ftp://files.example.org/data and bare.domains too",
        "ALLCAPS stays MixedCase folds",
    ];
    for s in samples {
        let once = filter_string_pre_processing(s);
        let twice = filter_string_pre_processing(&once);
        assert_eq!(twice, once);
    }
}

#[test]
fn test_normalize_mentions_and_ids() {
    assert_eq!(filter_string_pre_processing("<@&12345>"), "");
    assert_eq!(filter_string_pre_processing("<:smile:12345>"), "");
    assert_eq!(filter_string_pre_processing("<a:wave:777> hi"), "hi");
    // a whole-string eighteen-digit numeral is a residual raw user id
    assert_eq!(filter_string_pre_processing("123456789012345678"), "");
    // surrounded by spaces it survives one normalization; a second
    // normalization then collapses it, the one exception to idempotence
    let once = filter_string_pre_processing(" 123456789012345678 ");
    assert_eq!(once, "123456789012345678");
    assert_eq!(filter_string_pre_processing(&once), "");
}

#[test]
fn test_normalize_whitespace_rules() {
    assert_eq!(filter_string_pre_processing("a\nb"), "a b");
    assert_eq!(filter_string_pre_processing("a    b"), "a b");
    assert_eq!(filter_string_pre_processing("  padded  "), "padded");
}

#[test]
fn test_normalize_punctuation() {
    assert_eq!(filter_string_pre_processing("yes, really!"), "yes really");
    assert_eq!(filter_string_pre_processing("{[(#so*much@punct)]}"), "so much punct");
}

#[test]
fn test_to_pairs_scenario() {
    let pairs = to_pairs("I like pie");
    assert_eq!(
        pairs,
        vec![
            ("I".to_string(), "like".to_string()),
            ("like".to_string(), "pie".to_string()),
        ]
    );
    // the capitalized-word rule wants at least one word character after the
    // capital, so the lone "I" keeps its case through normalization
    let normalized = filter_string_pre_processing("I like pie");
    let pairs2 = to_pairs(&normalized);
    assert_eq!(
        pairs2,
        vec![
            ("I".to_string(), "like".to_string()),
            ("like".to_string(), "pie".to_string()),
        ]
    );
    assert_eq!(
        to_pairs(&filter_string_pre_processing("Im like pie")),
        vec![
            ("im".to_string(), "like".to_string()),
            ("like".to_string(), "pie".to_string()),
        ]
    );
}

#[test]
fn test_to_pairs_short_inputs() {
    assert_eq!(to_pairs(""), vec![]);
    assert_eq!(to_pairs("solo"), vec![]);
}

#[test]
fn test_vec_word_split() {
    assert_eq!(vec_word_split(vec![1, 2, 3]), vec![vec![1, 2], vec![2, 3]]);
    assert_eq!(vec_word_split(vec![7]), Vec::<Vec<i32>>::new());
    assert_eq!(vec_word_split(vec![]), Vec::<Vec<i32>>::new());
}

#[test]
fn test_generate_empty_graph() {
    let db_int = DbInterface::new();
    let result = db_int.fetch_random_member_words_into_sentence(42, 5);
    assert_eq!(result, Err(MarkovFetchResultError::NotEnoughWords(5, 0)));
}

#[test]
fn test_generate_dead_end_partial_failure() {
    let mut db_int = DbInterface::new();
    db_int
        .add_member_words(7, vec!["a".to_string(), "b".to_string()])
        .expect("ingest");
    // the only edge is a -> b; a walk of three tokens always collects two
    // and stops, whatever the random draws
    for _ in 0..32 {
        let result = db_int.fetch_random_member_words_into_sentence(7, 3);
        assert_eq!(result, Err(MarkovFetchResultError::NotEnoughWords(3, 2)));
    }
}

#[test]
fn test_generate_single_path_walk() {
    let mut db_int = DbInterface::new();
    db_int
        .add_member_words(
            7,
            vec![
                "a".to_string(),
                "b".to_string(),
                "c".to_string(),
                "d".to_string(),
            ],
        )
        .expect("ingest");
    // deterministically: seed the walk at the chain's head, with thresholds
    // that every frequency beats
    let choices = vec![(0, 0), (0, 0)];
    let result = db_int.fetch_sentence_with_choices(7, 4, 0, &choices);
    assert_eq!(result, Ok("a b c d".to_string()));
    // whatever the draws, the only sentence the chain can complete is the
    // chain itself
    for _ in 0..32 {
        match db_int.fetch_random_member_words_into_sentence(7, 4) {
            Ok(sentence) => assert_eq!(sentence, "a b c d"),
            Err(MarkovFetchResultError::NotEnoughWords(requested, obtained)) => {
                assert_eq!(requested, 4);
                assert!(2 <= obtained && obtained < 4);
            },
            Err(other) => panic!("unexpected error: {:?}", other),
        }
    }
}

#[test]
fn test_generate_with_choices_is_deterministic() {
    let mut db_int = DbInterface::new();
    db_int
        .add_member_words(3, vec!["x".to_string(), "y".to_string(), "x".to_string()])
        .expect("ingest");
    // edges: x -> y (freq 1), y -> x (freq 1); the walk alternates
    let choices = vec![(0, 0), (0, 0), (0, 0)];
    let result = db_int.fetch_sentence_with_choices(3, 5, 0, &choices);
    assert_eq!(result, Ok("x y x y x".to_string()));
    // a threshold no frequency beats stops the walk at once
    let blocked = vec![(9, 0), (0, 0), (0, 0)];
    let result2 = db_int.fetch_sentence_with_choices(3, 5, 0, &blocked);
    assert_eq!(result2, Err(MarkovFetchResultError::NotEnoughWords(5, 2)));
}

#[test]
fn test_weighted_successor_threshold() {
    let mut db_int = DbInterface::new();
    db_int
        .add_member_words(3, vec!["x".to_string(), "y".to_string()])
        .expect("ingest");
    assert_eq!(db_int.weighted_successor(3, 1, 0, 0), Some(2));
    assert_eq!(db_int.weighted_successor(3, 1, 1, 0), None);
    assert_eq!(db_int.weighted_successor(3, 2, 0, 0), None);
}

#[test]
fn test_random_edge_membership() {
    let mut db_int = DbInterface::new();
    assert_eq!(db_int.random_edge(3), None);
    db_int
        .add_member_words(3, vec!["x".to_string(), "y".to_string()])
        .expect("ingest");
    for _ in 0..8 {
        assert_eq!(db_int.random_edge(3), Some((1, 2)));
    }
}

#[test]
fn test_sum_frequency_totals() {
    let mut db_int = DbInterface::new();
    assert_eq!(db_int.sum_frequency(3), 0);
    let words = vec!["x".to_string(), "y".to_string(), "x".to_string()];
    db_int.add_member_words(3, words.clone()).expect("ingest");
    assert_eq!(db_int.sum_frequency(3), 2);
    db_int.add_member_words(3, words).expect("ingest");
    assert_eq!(db_int.sum_frequency(3), 4);
    assert_eq!(db_int.sum_frequency(4), 0);
}

#[test]
fn test_error_messages() {
    let e = MemberNotFoundError::MemberNotFound("no such member".to_string());
    assert_eq!(e.message().as_str(), "no such member");
    let c = ChannelNotFoundError::ChannelNotFound("no such channel".to_string());
    assert_eq!(c.message().as_str(), "no such channel");
}
