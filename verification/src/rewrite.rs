use crate::frequency::{lemma_pair_count_front, pair_count};
use crate::render::{
    decode, is_layered, lemma_decode_concat, lemma_decode_one, lemma_render_extend,
    tokens_in_range,
};
use crate::token::Token;
use vstd::prelude::*;

verus! {

/// The sequence `s` with every occurrence of the adjacent ids `left, right`
/// replaced by `id`, scanning from the left: a match consumes both of its
/// elements, so occurrences that overlap an earlier match are not replaced.
pub open spec fn replace_pair(s: Seq<u32>, left: u32, right: u32, id: u32) -> Seq<u32>
    decreases s.len(),
{
    if s.len() == 0 {
        s
    } else if s.len() >= 2 && s[0] == left && s[1] == right {
        seq![id] + replace_pair(s.skip(2), left, right, id)
    } else {
        seq![s[0]] + replace_pair(s.skip(1), left, right, id)
    }
}

/// What `replace_token_pair` leaves in the sequence: a `Byte` names no pair,
/// so nothing is replaced for it.
pub open spec fn replace_token(s: Seq<u32>, pair: Token, id: u32) -> Seq<u32> {
    match pair {
        Token::Pair(left, right) => replace_pair(s, left, right, id),
        Token::Byte(_) => s,
    }
}

/// Replaces, in place and in one pass from the left, each non-overlapping
/// occurrence of `pair` by `pair_id`.
pub fn replace_token_pair(tokens: &mut Vec<u32>, pair: Token, pair_id: u32)
    ensures
        final(tokens)@ == replace_token(old(tokens)@, pair, pair_id),
        final(tokens)@.len() <= old(tokens)@.len(),
        pair matches Token::Pair(left, right) && pair_count(old(tokens)@, left, right) > 0
            ==> final(tokens)@.len() < old(tokens)@.len(),
{
    let ghost before = tokens@;
    let (left, right) = match pair {
        Token::Pair(left, right) => (left, right),
        Token::Byte(_) => {
            return ;
        },
    };
    let len: usize = tokens.len();
    let mut read_index: usize = 0;
    let mut write_index: usize = 0;
    proof {
        assert(before.skip(0) == before);
    }
    while read_index < len
        invariant
            tokens.len() == len,
            before.len() == len,
            write_index <= read_index <= len,
            tokens@.skip(read_index as int) == before.skip(read_index as int),
            tokens@.take(write_index as int) + replace_pair(
                before.skip(read_index as int),
                left,
                right,
                pair_id,
            ) == replace_pair(before, left, right, pair_id),
        decreases len - read_index,
    {
        let ghost rest = before.skip(read_index as int);
        if read_index < len - 1 && tokens[read_index] == left && tokens[read_index + 1] == right {
            tokens.set(write_index, pair_id);
            proof {
                assert(rest.skip(2) == before.skip(read_index + 2));
            }
            write_index += 1;
            read_index += 2;
        } else {
            let current: u32 = tokens[read_index];
            tokens.set(write_index, current);
            proof {
                assert(rest.skip(1) == before.skip(read_index + 1));
            }
            write_index += 1;
            read_index += 1;
        }
    }
    tokens.truncate(write_index);
    proof {
        lemma_replace_length(before, left, right, pair_id);
    }
}

/// Rewriting never lengthens the sequence. It leaves the sequence as it is
/// where the pair does not occur, and shortens it where the pair occurs.
pub proof fn lemma_replace_length(s: Seq<u32>, left: u32, right: u32, id: u32)
    ensures
        replace_pair(s, left, right, id).len() <= s.len(),
        pair_count(s, left, right) == 0 ==> replace_pair(s, left, right, id) == s,
        pair_count(s, left, right) > 0 ==> replace_pair(s, left, right, id).len() < s.len(),
    decreases s.len(),
{
    if s.len() == 0 {
    } else if s.len() >= 2 && s[0] == left && s[1] == right {
        lemma_replace_length(s.skip(2), left, right, id);
        lemma_pair_count_front(s, left, right);
    } else {
        lemma_replace_length(s.skip(1), left, right, id);
        if s.len() >= 2 {
            lemma_pair_count_front(s, left, right);
        }
    }
}

/// Rewriting keeps every id below a bound that the new id is below too.
pub proof fn lemma_replace_in_range(s: Seq<u32>, left: u32, right: u32, id: u32, bound: int)
    requires
        tokens_in_range(s, bound),
        id < bound,
    ensures
        tokens_in_range(replace_pair(s, left, right, id), bound),
    decreases s.len(),
{
    if s.len() == 0 {
    } else if s.len() >= 2 && s[0] == left && s[1] == right {
        let rest = s.skip(2);
        assert(tokens_in_range(rest, bound));
        lemma_replace_in_range(rest, left, right, id, bound);
    } else {
        let rest = s.skip(1);
        assert(tokens_in_range(rest, bound));
        lemma_replace_in_range(rest, left, right, id, bound);
    }
}

/// Where the pair `left, right` is added to a vocabulary as its next symbol
/// and replaced by that symbol's id, the sequence still stands for the same
/// bytes.
pub proof fn lemma_replace_preserves_decode(
    vocabulary: Seq<Token>,
    s: Seq<u32>,
    left: u32,
    right: u32,
)
    requires
        is_layered(vocabulary),
        vocabulary.len() <= u32::MAX,
        left < vocabulary.len(),
        right < vocabulary.len(),
        tokens_in_range(s, vocabulary.len() as int),
    ensures
        decode(
            vocabulary.push(Token::Pair(left, right)),
            replace_pair(s, left, right, vocabulary.len() as u32),
        ) == decode(vocabulary, s),
    decreases s.len(),
{
    let id = vocabulary.len() as u32;
    let pair = Token::Pair(left, right);
    let longer = vocabulary.push(pair);
    if s.len() == 0 {
    } else if s.len() >= 2 && s[0] == left && s[1] == right {
        let rest = s.skip(2);
        assert(tokens_in_range(rest, vocabulary.len() as int));
        lemma_replace_preserves_decode(vocabulary, rest, left, right);
        let rewritten = replace_pair(rest, left, right, id);
        lemma_decode_concat(longer, seq![id], rewritten);
        lemma_decode_one(longer, id);
        lemma_render_extend(vocabulary, pair, left as int);
        lemma_render_extend(vocabulary, pair, right as int);
        assert(s == seq![left] + (seq![right] + rest));
        lemma_decode_concat(vocabulary, seq![left], seq![right] + rest);
        lemma_decode_concat(vocabulary, seq![right], rest);
        lemma_decode_one(vocabulary, left);
        lemma_decode_one(vocabulary, right);
    } else {
        let rest = s.skip(1);
        assert(tokens_in_range(rest, vocabulary.len() as int));
        lemma_replace_preserves_decode(vocabulary, rest, left, right);
        let rewritten = replace_pair(rest, left, right, id);
        lemma_decode_concat(longer, seq![s[0]], rewritten);
        lemma_decode_one(longer, s[0]);
        lemma_render_extend(vocabulary, pair, s[0] as int);
        assert(s == seq![s[0]] + rest);
        lemma_decode_concat(vocabulary, seq![s[0]], rest);
        lemma_decode_one(vocabulary, s[0]);
    }
}

/// The rewritten sequence starts with the new id or with the id that the
/// sequence started with.
proof fn lemma_replace_first(s: Seq<u32>, left: u32, right: u32, id: u32)
    requires
        s.len() > 0,
    ensures
        replace_pair(s, left, right, id).len() > 0,
        replace_pair(s, left, right, id)[0] == id || replace_pair(s, left, right, id)[0] == s[0],
        s.len() >= 2 && s[0] == left && s[1] == right ==> replace_pair(s, left, right, id)[0]
            == id,
        !(s.len() >= 2 && s[0] == left && s[1] == right) ==> replace_pair(s, left, right, id)[0]
            == s[0],
{
}

/// Where the new id is neither part of the pair, the rewritten sequence no
/// longer holds the pair anywhere.
pub proof fn lemma_replace_eliminates_pair(s: Seq<u32>, left: u32, right: u32, id: u32)
    requires
        id != left,
        id != right,
    ensures
        pair_count(replace_pair(s, left, right, id), left, right) == 0,
    decreases s.len(),
{
    let rewritten = replace_pair(s, left, right, id);
    if s.len() == 0 {
    } else if s.len() >= 2 && s[0] == left && s[1] == right {
        let rest = replace_pair(s.skip(2), left, right, id);
        lemma_replace_eliminates_pair(s.skip(2), left, right, id);
        if rewritten.len() >= 2 {
            lemma_pair_count_front(rewritten, left, right);
            assert(rewritten.skip(1) == rest);
        }
    } else {
        let rest = replace_pair(s.skip(1), left, right, id);
        lemma_replace_eliminates_pair(s.skip(1), left, right, id);
        if rewritten.len() >= 2 {
            lemma_pair_count_front(rewritten, left, right);
            assert(rewritten.skip(1) == rest);
            lemma_replace_first(s.skip(1), left, right, id);
        }
    }
}

} // verus!
