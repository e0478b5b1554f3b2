use bpe::error::TrainError;
use bpe::frequency::{count_token_pairs, most_frequent_token_pair, pair_key};
use bpe::token::Token;
use std::collections::HashMap;

#[test]
fn a_key_holds_the_left_id_above_the_right_id() {
    assert_eq!(pair_key(0, 0), 0);
    assert_eq!(pair_key(0, 5), 5);
    assert_eq!(pair_key(1, 2), 0x1_0000_0002);
    assert_eq!(pair_key(97, 98), 97 * 4294967296 + 98);
    assert_eq!(pair_key(u32::MAX, u32::MAX), u64::MAX);
    assert_ne!(pair_key(1, 2), pair_key(2, 1));
}

#[test]
fn overlapping_windows_each_count() {
    let mut frequencies: HashMap<u64, usize> = HashMap::new();
    count_token_pairs(&[5, 5, 5], &mut frequencies);
    assert_eq!(frequencies.len(), 1);
    assert_eq!(frequencies.get(&pair_key(5, 5)), Some(&2));
}

#[test]
fn the_table_holds_every_pair_with_its_count() {
    let mut frequencies: HashMap<u64, usize> = HashMap::new();
    count_token_pairs(&[97, 97, 97, 98], &mut frequencies);
    assert_eq!(frequencies.len(), 2);
    assert_eq!(frequencies.get(&pair_key(97, 97)), Some(&2));
    assert_eq!(frequencies.get(&pair_key(97, 98)), Some(&1));
    assert_eq!(frequencies.get(&pair_key(98, 97)), None);
}

#[test]
fn short_sequences_have_an_empty_table() {
    let mut frequencies: HashMap<u64, usize> = HashMap::new();
    frequencies.insert(17, 4);
    count_token_pairs(&[], &mut frequencies);
    assert!(frequencies.is_empty());
    frequencies.insert(17, 4);
    count_token_pairs(&[9], &mut frequencies);
    assert!(frequencies.is_empty());
}

#[test]
fn an_old_table_is_not_counted_in() {
    let mut frequencies: HashMap<u64, usize> = HashMap::new();
    frequencies.insert(pair_key(1, 2), 40);
    frequencies.insert(pair_key(8, 8), 3);
    count_token_pairs(&[1, 2, 1, 2], &mut frequencies);
    assert_eq!(frequencies.len(), 2);
    assert_eq!(frequencies.get(&pair_key(1, 2)), Some(&2));
    assert_eq!(frequencies.get(&pair_key(2, 1)), Some(&1));
}

#[test]
fn the_most_frequent_pair_is_selected() {
    let mut frequencies: HashMap<u64, usize> = HashMap::new();
    let selected = most_frequent_token_pair(&[97, 97, 97, 98], &mut frequencies);
    assert_eq!(selected, Ok(Token::Pair(97, 97)));
    assert_eq!(frequencies.get(&pair_key(97, 97)), Some(&2));
    assert_eq!(frequencies.get(&pair_key(97, 98)), Some(&1));
}

#[test]
fn a_later_pair_with_a_greater_count_wins() {
    let mut frequencies: HashMap<u64, usize> = HashMap::new();
    let selected = most_frequent_token_pair(&[1, 2, 3, 4, 9, 3, 4], &mut frequencies);
    assert_eq!(selected, Ok(Token::Pair(3, 4)));
}

#[test]
fn among_equal_counts_the_pair_met_first_wins() {
    let mut frequencies: HashMap<u64, usize> = HashMap::new();
    assert_eq!(
        most_frequent_token_pair(&[9, 8, 7, 6], &mut frequencies),
        Ok(Token::Pair(9, 8))
    );
    assert_eq!(
        most_frequent_token_pair(&[5, 6, 1, 2, 5, 6, 1, 2], &mut frequencies),
        Ok(Token::Pair(5, 6))
    );
    assert_eq!(
        most_frequent_token_pair(&[1, 2, 5, 6, 1, 2, 5, 6], &mut frequencies),
        Ok(Token::Pair(1, 2))
    );
}

#[test]
fn selection_is_the_same_on_every_run() {
    let tokens: Vec<u32> = vec![3, 1, 4, 1, 5, 9, 2, 6, 5, 3, 5, 8, 9, 7, 9, 3, 1, 4];
    let mut frequencies: HashMap<u64, usize> = HashMap::new();
    let first = most_frequent_token_pair(&tokens, &mut frequencies);
    for _ in 0..20 {
        let mut fresh: HashMap<u64, usize> = HashMap::new();
        assert_eq!(most_frequent_token_pair(&tokens, &mut fresh), first);
    }
    assert_eq!(first, Ok(Token::Pair(3, 1)));
}

#[test]
fn no_pair_is_available_in_a_short_sequence() {
    let mut frequencies: HashMap<u64, usize> = HashMap::new();
    assert_eq!(
        most_frequent_token_pair(&[], &mut frequencies),
        Err(TrainError::NoPairsAvailable)
    );
    assert_eq!(
        most_frequent_token_pair(&[42], &mut frequencies),
        Err(TrainError::NoPairsAvailable)
    );
    assert!(frequencies.is_empty());
}

#[test]
fn two_ids_are_one_pair() {
    let mut frequencies: HashMap<u64, usize> = HashMap::new();
    assert_eq!(
        most_frequent_token_pair(&[u32::MAX, 0], &mut frequencies),
        Ok(Token::Pair(u32::MAX, 0))
    );
    assert_eq!(frequencies.get(&pair_key(u32::MAX, 0)), Some(&1));
}
