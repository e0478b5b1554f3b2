use bpe::render::{
    all_tokens_below, decode_tokens, is_layered_vocabulary, render_segmented, render_token,
};
use bpe::token::Token;
use bpe::vocabulary::Vocabulary;

fn byte_symbols() -> Vec<Token> {
    let mut symbols: Vec<Token> = Vec::new();
    for byte in 0..=255u8 {
        symbols.push(Token::Byte(byte));
    }
    symbols
}

#[test]
fn a_byte_renders_as_itself() {
    let symbols = byte_symbols();
    assert_eq!(render_token(&symbols, 0), vec![0u8]);
    assert_eq!(render_token(&symbols, 97), vec![97u8]);
    assert_eq!(render_token(&symbols, 255), vec![255u8]);
}

#[test]
fn a_pair_renders_left_then_right() {
    let mut symbols = byte_symbols();
    symbols.push(Token::Pair(104, 105));
    assert_eq!(render_token(&symbols, 256), b"hi".to_vec());
}

#[test]
fn nested_pairs_render_in_order() {
    let mut symbols = byte_symbols();
    symbols.push(Token::Pair(97, 98)); // 256: ab
    symbols.push(Token::Pair(256, 99)); // 257: abc
    symbols.push(Token::Pair(100, 257)); // 258: dabc
    symbols.push(Token::Pair(258, 258)); // 259: dabcdabc
    assert_eq!(render_token(&symbols, 257), b"abc".to_vec());
    assert_eq!(render_token(&symbols, 258), b"dabc".to_vec());
    assert_eq!(render_token(&symbols, 259), b"dabcdabc".to_vec());
}

#[test]
fn deep_nesting_needs_no_deep_call_stack() {
    let mut symbols = byte_symbols();
    symbols.push(Token::Pair(120, 120));
    for id in 256..100_256u32 {
        symbols.push(Token::Pair(id, 121));
    }
    let bytes = render_token(&symbols, 100_256);
    assert_eq!(bytes.len(), 100_002);
    assert_eq!(&bytes[..3], b"xxy");
    assert!(bytes[2..].iter().all(|byte| *byte == 121));
}

#[test]
fn a_small_vocabulary_of_its_own_renders() {
    let symbols = vec![Token::Byte(1), Token::Byte(2), Token::Pair(1, 0), Token::Pair(2, 2)];
    assert_eq!(render_token(&symbols, 2), vec![2u8, 1u8]);
    assert_eq!(render_token(&symbols, 3), vec![2u8, 1u8, 2u8, 1u8]);
}

#[test]
fn layering_is_told() {
    assert!(is_layered_vocabulary(&[]));
    assert!(is_layered_vocabulary(&byte_symbols()));
    assert!(is_layered_vocabulary(&[Token::Byte(0), Token::Pair(0, 0)]));
    assert!(!is_layered_vocabulary(&[Token::Pair(0, 0)]));
    assert!(!is_layered_vocabulary(&[Token::Byte(0), Token::Pair(0, 1)]));
    assert!(!is_layered_vocabulary(&[Token::Byte(0), Token::Pair(2, 0), Token::Byte(1)]));
}

#[test]
fn ids_are_held_to_a_bound() {
    assert!(all_tokens_below(&[], 0));
    assert!(all_tokens_below(&[0, 1, 2], 3));
    assert!(!all_tokens_below(&[0, 3, 2], 3));
    assert!(!all_tokens_below(&[0], 0));
}

#[test]
fn decoding_concatenates_the_renderings() {
    let mut symbols = byte_symbols();
    symbols.push(Token::Pair(97, 97));
    assert_eq!(decode_tokens(&symbols, &[256, 97, 98]), Some(b"aaab".to_vec()));
    assert_eq!(decode_tokens(&symbols, &[]), Some(Vec::new()));
}

#[test]
fn each_token_is_shown_in_brackets() {
    let mut symbols = byte_symbols();
    symbols.push(Token::Pair(97, 97));
    assert_eq!(render_segmented(&symbols, &[256, 97, 98]), Some(b"[aa][a][b]".to_vec()));
    assert_eq!(render_segmented(&symbols, &[]), Some(Vec::new()));
    assert_eq!(render_segmented(&symbols, &[91, 93]), Some(b"[[][]]".to_vec()));
}

#[test]
fn what_cannot_be_rendered_gives_nothing() {
    let symbols = byte_symbols();
    assert_eq!(decode_tokens(&symbols, &[97, 256]), None);
    assert_eq!(render_segmented(&symbols, &[256]), None);
    let looped = vec![Token::Byte(0), Token::Pair(1, 0)];
    assert_eq!(decode_tokens(&looped, &[0]), None);
    assert_eq!(render_segmented(&looped, &[0]), None);
}

#[test]
fn a_new_vocabulary_holds_the_bytes_in_order() {
    let vocabulary = Vocabulary::new();
    assert_eq!(vocabulary.len(), 256);
    assert_eq!(vocabulary.as_slice(), byte_symbols().as_slice());
    assert_eq!(vocabulary.get(0), Some(Token::Byte(0)));
    assert_eq!(vocabulary.get(255), Some(Token::Byte(255)));
    assert_eq!(vocabulary.get(256), None);
}

#[test]
fn appending_assigns_the_next_id() {
    let mut vocabulary = Vocabulary::new();
    assert_eq!(vocabulary.append(97, 98), Ok(256));
    assert_eq!(vocabulary.append(256, 256), Ok(257));
    assert_eq!(vocabulary.len(), 258);
    assert_eq!(vocabulary.get(256), Some(Token::Pair(97, 98)));
    assert_eq!(vocabulary.get(257), Some(Token::Pair(256, 256)));
    assert_eq!(vocabulary.get(97), Some(Token::Byte(97)));
    assert_eq!(render_token(vocabulary.as_slice(), 257), b"abab".to_vec());
}
