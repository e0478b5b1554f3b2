use bpe::rewrite::replace_token_pair;
use bpe::token::Token;

#[test]
fn overlapping_occurrences_merge_from_the_left() {
    let mut tokens: Vec<u32> = vec![7, 7, 7];
    replace_token_pair(&mut tokens, Token::Pair(7, 7), 300);
    assert_eq!(tokens, vec![300, 7]);
}

#[test]
fn five_equal_ids_give_two_merges_and_a_rest() {
    let mut tokens: Vec<u32> = vec![7, 7, 7, 7, 7];
    replace_token_pair(&mut tokens, Token::Pair(7, 7), 300);
    assert_eq!(tokens, vec![300, 300, 7]);
}

#[test]
fn unmatched_ids_are_copied_in_order() {
    let mut tokens: Vec<u32> = vec![1, 2, 3, 1, 2, 2, 1];
    replace_token_pair(&mut tokens, Token::Pair(1, 2), 256);
    assert_eq!(tokens, vec![256, 3, 256, 2, 1]);
}

#[test]
fn the_middle_pair_of_an_overlap_is_left_alone() {
    let mut tokens: Vec<u32> = vec![5, 9, 9, 9];
    replace_token_pair(&mut tokens, Token::Pair(9, 9), 400);
    assert_eq!(tokens, vec![5, 400, 9]);
}

#[test]
fn a_pair_that_does_not_occur_changes_nothing() {
    let mut tokens: Vec<u32> = vec![1, 2, 3];
    replace_token_pair(&mut tokens, Token::Pair(2, 1), 256);
    assert_eq!(tokens, vec![1, 2, 3]);
}

#[test]
fn a_byte_names_no_pair() {
    let mut tokens: Vec<u32> = vec![1, 1, 1];
    replace_token_pair(&mut tokens, Token::Byte(1), 256);
    assert_eq!(tokens, vec![1, 1, 1]);
}

#[test]
fn empty_and_single_sequences_stay() {
    let mut empty: Vec<u32> = Vec::new();
    replace_token_pair(&mut empty, Token::Pair(1, 1), 256);
    assert!(empty.is_empty());
    let mut single: Vec<u32> = vec![1];
    replace_token_pair(&mut single, Token::Pair(1, 1), 256);
    assert_eq!(single, vec![1]);
}

#[test]
fn rewriting_shortens_exactly_where_the_pair_occurs() {
    let mut with_pair: Vec<u32> = vec![4, 5, 6];
    replace_token_pair(&mut with_pair, Token::Pair(5, 6), 256);
    assert_eq!(with_pair.len(), 2);
    let mut without_pair: Vec<u32> = vec![4, 5, 6];
    replace_token_pair(&mut without_pair, Token::Pair(6, 5), 256);
    assert_eq!(without_pair.len(), 3);
}

#[test]
fn a_fresh_id_leaves_no_occurrence_of_the_pair() {
    let mut tokens: Vec<u32> = vec![3, 3, 3, 3, 8, 3, 3, 3];
    replace_token_pair(&mut tokens, Token::Pair(3, 3), 256);
    assert_eq!(tokens, vec![256, 256, 8, 256, 3]);
    for i in 1..tokens.len() {
        assert!(!(tokens[i - 1] == 3 && tokens[i] == 3));
    }
}
