//! Tests for the transition store: tracking bookkeeping, the word
//! dictionary, and edge ingestion.

use markov_mimic::entities::{Member, MemberWord, Server, TrackedMember, Users};
use markov_mimic::errors::{AddMemberWordsError, InsertResult, RemoveResult, StorageError};
use markov_mimic::interface::DbInterface;

#[test]
fn test_fetch_tracked_user_members() {
    let mut db_int = DbInterface::new();
    db_int.add_tracked_member(123, 456).expect("Add member");
    db_int.add_tracked_member(123, 789).expect("Add member");
    db_int.add_tracked_member(456, 123).expect("Add member");
    let result1 = match db_int.fetch_tracked_user_members(123) {
        Some(list_of_members) => list_of_members,
        None => vec![],
    };
    assert_eq!(result1, vec![456, 789]);
    db_int.reinit_all_data();
}

#[test]
fn test_reinit_db() {
    let mut db_int = DbInterface::new();
    db_int.add_tracked_member(123, 456).expect("Add member");
    db_int.reinit_all_data();
    let remaining_rows = db_int.tracked_members.len();
    assert_eq!(0, remaining_rows);
}

/// Tests inserting a new tracked member if the member is not already a
/// tracked member and is not already a stored member or user.
#[test]
fn test_insert_tracked_member_no_user_no_member() {
    let mut db_int = DbInterface::new();
    let first_result = db_int
        .add_tracked_member(1056949566718607391, 611962779762688020)
        .expect("Should be able to insert a new tracked member if the store does not have any information about that user.");
    assert_eq!(InsertResult::Added, first_result);
    db_int.reinit_all_data();
}

#[test]
fn test_insert_tracked_member_with_user_already_present() {
    let mut db_int = DbInterface::new();
    // Add the user here
    db_int.users.push(Users { user_id: 611962779762688020 });
    let first_result = db_int
        .add_tracked_member(1056949566718607391, 611962779762688020)
        .expect("Should be able to insert a new tracked member if the user already exists.");
    assert_eq!(InsertResult::Added, first_result);
    db_int.reinit_all_data();
}

#[test]
fn test_insert_tracked_member_with_user_already_present_with_member_already_present() {
    let mut db_int = DbInterface::new();
    db_int.users.push(Users { user_id: 611962779762688020 });
    db_int.servers.push(Server { server_id: 1056949566718607391 });
    db_int.members.push(Member {
        member_id: 1,
        user_id: 611962779762688020,
        server_id: 1056949566718607391,
    });
    db_int.next_member_id = 2;
    let first_result = db_int
        .add_tracked_member(1056949566718607391, 611962779762688020)
        .expect("Should be able to add tracked member.");
    assert_eq!(InsertResult::Added, first_result);
    db_int.reinit_all_data();
}

#[test]
fn test_insert_tracked_member_with_user_already_present_with_member_already_present_with_tracked_member_already_present(
) {
    let mut db_int = DbInterface::new();
    db_int.users.push(Users { user_id: 611962779762688020 });
    db_int.servers.push(Server { server_id: 1056949566718607391 });
    db_int.members.push(Member {
        member_id: 1,
        user_id: 611962779762688020,
        server_id: 1056949566718607391,
    });
    db_int.next_member_id = 2;
    db_int.tracked_members.push(TrackedMember { member_id: 1 });
    let first_result = db_int
        .add_tracked_member(1056949566718607391, 611962779762688020)
        .expect("Should be able to add tracked member");
    assert_eq!(InsertResult::AlreadyPresent, first_result);
    db_int.reinit_all_data();
}

#[test]
fn test_add_tracked_channel_not_present() {
    let mut db_int = DbInterface::new();
    db_int.reinit_all_data();
    let result = db_int.add_tracked_channel(1056949566718607391, 1056949567561674808);
    assert_eq!(InsertResult::Added, result);
    db_int.reinit_all_data();
}

#[test]
fn test_add_tracked_channel_present() {
    let mut db_int = DbInterface::new();
    // Add channel beforehand
    let first_result = db_int.add_tracked_channel(1056949566718607391, 1056949567561674808);
    assert_eq!(InsertResult::Added, first_result);
    let second_result = db_int.add_tracked_channel(1056949566718607391, 1056949567561674808);
    assert_eq!(InsertResult::AlreadyPresent, second_result);
    db_int.reinit_all_data();
}

#[test]
fn test_remove_tracked_channel_not_present() {
    let mut db_int = DbInterface::new();
    let result = db_int.remove_tracked_channel(1056949566718607391, 1056949567561674808);
    assert_eq!(RemoveResult::NotPresent, result);
    db_int.reinit_all_data();
}

#[test]
fn test_remove_tracked_channel_present() {
    let mut db_int = DbInterface::new();
    // Add channel beforehand
    db_int.add_tracked_channel(1056949566718607391, 1056949567561674808);
    let result = db_int.remove_tracked_channel(1056949566718607391, 1056949567561674808);
    assert_eq!(RemoveResult::Removed, result);
    db_int.reinit_all_data();
}

#[test]
fn test_add_words_no_words_present() {
    let mut db_int = DbInterface::new();
    let sample_words = vec![
        "test1".to_string(),
        "test2".to_string(),
        "test3".to_string(),
    ];
    let ids = db_int.add_words(sample_words).expect("adding words.");
    assert_eq!(ids, vec![1, 2, 3]);
    db_int.reinit_all_data();
}

#[test]
fn test_add_words_some_words_present() {
    // Tests adding words when some words are present; non-overlapping words only.
    let mut db_int = DbInterface::new();
    let sample_words_1 = vec![
        "test1".to_string(),
        "test2".to_string(),
        "test3".to_string(),
    ];
    let sample_words_2 = vec![
        "test4".to_string(),
        "test5".to_string(),
        "test6".to_string(),
    ];
    let first = db_int.add_words(sample_words_1).expect("Added first words");
    let second = db_int.add_words(sample_words_2).expect("Added second words");
    assert_eq!(first, vec![1, 2, 3]);
    assert_eq!(second, vec![4, 5, 6]);
    db_int.reinit_all_data();
}

#[test]
fn test_add_words_some_words_present_overlap() {
    // Tests adding words that overlap words already present: existing words
    // keep their ids and come back in the caller's order.
    let mut db_int = DbInterface::new();
    let sample_words_1 = vec![
        "test1".to_string(),
        "test2".to_string(),
        "test4".to_string(),
    ];
    let sample_words_2 = vec![
        "test4".to_string(),
        "test5".to_string(),
        "test6".to_string(),
    ];
    let first = db_int.add_words(sample_words_1).expect("Added first words");
    let second = db_int.add_words(sample_words_2).expect("Added second words");
    assert_eq!(first, vec![1, 2, 3]);
    assert_eq!(second, vec![3, 4, 5]);
    assert_eq!(db_int.word_count(), 5);
    db_int.reinit_all_data();
}

#[test]
fn test_add_member_words_no_words_present() {
    // Tests adding member words with no member words present already.
    let mut db_int = DbInterface::new();
    let test_words = vec!["I".to_owned(), "like".to_owned(), "pie".to_owned()];
    db_int.add_tracked_member(123, 456).expect("Add member");
    let member_id = db_int
        .fetch_member(123, 456)
        .expect("Should have a member here");
    db_int
        .add_member_words(member_id, test_words)
        .expect("Should be able to add member words here");
    let expected_row1 = (1, member_id, 2, 1);
    let expected_row2 = (2, member_id, 3, 1);
    let found_freq1 = db_int
        .member_word_frequency(member_id, 1, 2)
        .expect("Shoudl be able to get row");
    let found_freq2 = db_int
        .member_word_frequency(member_id, 2, 3)
        .expect("Shoudl be able to get row");
    assert_eq!(expected_row1, (1, member_id, 2, found_freq1));
    assert_eq!(expected_row2, (2, member_id, 3, found_freq2));
    db_int.reinit_all_data();
}

#[test]
fn test_add_member_words_some_words_present() {
    // Tests adding member words when the same words are present already:
    // the edge frequencies grow by exactly one, and no new word rows appear.
    let mut db_int = DbInterface::new();
    let test_words = vec!["I".to_owned(), "like".to_owned(), "pie".to_owned()];
    db_int
        .add_tracked_member(123, 456)
        .expect("Should be able to add tracked member");
    let member_id = db_int
        .fetch_member(123, 456)
        .expect("Should have a member here");
    let test_words_clone = test_words.clone();
    db_int
        .add_member_words(member_id, test_words)
        .expect("Should be able to add member words here");
    let words_after_first = db_int.word_count();
    db_int
        .add_member_words(member_id, test_words_clone)
        .expect("Should be able to add member words here");
    let expected_row1 = (1, member_id, 2, 2);
    let expected_row2 = (2, member_id, 3, 2);
    let found_freq1 = db_int
        .member_word_frequency(member_id, 1, 2)
        .expect("Shoudl be able to get row");
    let found_freq2 = db_int
        .member_word_frequency(member_id, 2, 3)
        .expect("Shoudl be able to get row");
    assert_eq!(expected_row1, (1, member_id, 2, found_freq1));
    assert_eq!(expected_row2, (2, member_id, 3, found_freq2));
    // three distinct word rows, unchanged by the second ingestion
    assert_eq!(words_after_first, 3);
    assert_eq!(db_int.word_count(), 3);
}

#[test]
fn test_upsert_missing_word_is_rejected() {
    let mut db_int = DbInterface::new();
    let result = db_int.upsert_member_word(1, 99, 100);
    assert_eq!(result, Err(StorageError::MissingWord));
}

#[test]
fn test_member_id_space_exhaustion() {
    let mut db_int = DbInterface::new();
    db_int.next_member_id = u32::MAX;
    let result = db_int.add_tracked_member(123, 456);
    assert_eq!(result, Err(StorageError::MemberIdSpaceExhausted));
}

#[test]
fn test_word_id_space_exhaustion() {
    let mut db_int = DbInterface::new();
    db_int.next_word_id = 0x8000_0000;
    let result = db_int.add_words(vec!["fresh".to_string()]);
    assert_eq!(result, Err(StorageError::WordIdSpaceExhausted));
}

#[test]
fn test_frequency_overflow_is_rejected() {
    let mut db_int = DbInterface::new();
    db_int
        .add_words(vec!["a".to_string(), "b".to_string()])
        .expect("adding words");
    db_int.member_words.push(MemberWord {
        word_id: 1,
        member_id: 1,
        next_word_id: 2,
        frequency: u64::MAX,
    });
    let result = db_int.upsert_member_word(1, 1, 2);
    assert_eq!(result, Err(StorageError::FrequencyOverflow));
    let result2 = db_int.add_member_words(1, vec!["a".to_string(), "b".to_string()]);
    assert_eq!(
        result2,
        Err(AddMemberWordsError::Storage(StorageError::FrequencyOverflow))
    );
}

#[test]
fn test_fetch_word_id_and_resolution() {
    let mut db_int = DbInterface::new();
    db_int
        .add_words(vec!["pie".to_string(), "cake".to_string()])
        .expect("adding words");
    assert_eq!(db_int.fetch_word_id(&"pie".to_string()), Some(1));
    assert_eq!(db_int.fetch_word_id(&"cake".to_string()), Some(2));
    assert_eq!(db_int.fetch_word_id(&"missing".to_string()), None);
}

#[test]
fn test_is_tracked_channel_distinguishes_servers() {
    let mut db_int = DbInterface::new();
    db_int.add_tracked_channel(10, 77);
    assert!(db_int.is_tracked_channel(10, 77));
    assert!(!db_int.is_tracked_channel(11, 77));
    assert_eq!(db_int.fetch_tracked_channels(10), Some(vec![77]));
    assert_eq!(db_int.fetch_tracked_channels(11), None);
}

#[test]
fn test_remove_tracked_member_roundtrip() {
    let mut db_int = DbInterface::new();
    db_int.add_tracked_member(5, 6).expect("Add member");
    assert_eq!(db_int.remove_tracked_member(5, 6), RemoveResult::Removed);
    assert_eq!(db_int.remove_tracked_member(5, 6), RemoveResult::NotPresent);
    // the member row itself stays; only the tracking mark goes
    assert!(db_int.fetch_member(5, 6).is_some());
    assert!(db_int.fetch_tracked_member(5, 6).is_none());
}

#[test]
fn test_learn_counts_repeated_pairs() {
    let mut db_int = DbInterface::new();
    db_int
        .learn(9, "Hello World https://example.org/ Hello World")
        .expect("learning");
    // normalized to "hello world hello world": the pair (hello, world)
    // twice, (world, hello) once
    let hello = db_int.fetch_word_id(&"hello".to_string()).expect("hello interned");
    let world = db_int.fetch_word_id(&"world".to_string()).expect("world interned");
    assert_eq!(db_int.word_count(), 2);
    assert_eq!(db_int.member_word_frequency(9, hello, world), Some(2));
    assert_eq!(db_int.member_word_frequency(9, world, hello), Some(1));
}

#[test]
fn test_learn_single_word_teaches_nothing() {
    let mut db_int = DbInterface::new();
    db_int.learn(9, "hello").expect("learning");
    assert_eq!(db_int.word_count(), 0);
    assert_eq!(db_int.member_words.len(), 0);
    db_int.learn(9, "<@&12345>").expect("learning");
    assert_eq!(db_int.word_count(), 0);
}
