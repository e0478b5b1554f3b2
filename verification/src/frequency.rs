use crate::error::TrainError;
use crate::token::Token;
use std::collections::HashMap;
use vstd::prelude::*;

verus! {

/// How often the ids `left, right` stand next to each other in `s`.
/// Overlapping occurrences each count.
pub open spec fn pair_count(s: Seq<u32>, left: u32, right: u32) -> nat
    decreases s.len(),
{
    if s.len() < 2 {
        0
    } else {
        pair_count(s.drop_last(), left, right) + if s[s.len() - 2] == left && s[s.len() - 1]
            == right {
            1nat
        } else {
            0nat
        }
    }
}

/// The positions of `s` at which an occurrence of the pair `left, right`
/// ends.
pub open spec fn pair_positions(s: Seq<u32>, left: u32, right: u32) -> Set<int> {
    Set::new(|i: int| 1 <= i < s.len() && s[i - 1] == left && s[i] == right)
}

/// How often the pair that starts at position `i` of `s` occurs in `s`.
pub open spec fn count_at(s: Seq<u32>, i: int) -> nat {
    pair_count(s, s[i], s[i + 1])
}

/// The key under which the frequency table holds the pair `left, right`.
pub open spec fn key_of(left: u32, right: u32) -> u64 {
    (left * 0x1_0000_0000 + right) as u64
}

/// The left id of the pair that `key` stands for.
pub open spec fn key_left(key: u64) -> u32 {
    (key / 0x1_0000_0000) as u32
}

/// The right id of the pair that `key` stands for.
pub open spec fn key_right(key: u64) -> u32 {
    (key % 0x1_0000_0000) as u32
}

/// The frequency table of `s`: each pair that occurs in `s`, under its key,
/// with the number of its occurrences.
pub open spec fn frequency_table(s: Seq<u32>) -> Map<u64, usize> {
    Map::new(
        |key: u64| pair_count(s, key_left(key), key_right(key)) > 0,
        |key: u64| pair_count(s, key_left(key), key_right(key)) as usize,
    )
}

/// Position `i` starts the selected pair of `s`: no pair occurs more often,
/// and every pair that starts further left occurs less often. Among the pairs
/// of greatest count this selects the one met first.
pub open spec fn is_selected_at(s: Seq<u32>, i: int) -> bool {
    &&& 0 <= i < s.len() - 1
    &&& forall|j: int| 0 <= j < s.len() - 1 ==> #[trigger] count_at(s, j) <= count_at(s, i)
    &&& forall|j: int| 0 <= j < i ==> #[trigger] count_at(s, j) < count_at(s, i)
}

/// The pair that a merge round selects in `s`, if `s` holds a pair at all.
pub open spec fn most_frequent_pair(s: Seq<u32>) -> Option<(u32, u32)> {
    if s.len() < 2 {
        None
    } else {
        let i = choose|i: int| is_selected_at(s, i);
        Some((s[i], s[i + 1]))
    }
}

/// The count of a pair is the number of positions at which it occurs.
pub proof fn lemma_pair_count_is_number_of_positions(s: Seq<u32>, left: u32, right: u32)
    ensures
        pair_positions(s, left, right).finite(),
        pair_count(s, left, right) == pair_positions(s, left, right).len(),
    decreases s.len(),
{
    if s.len() < 2 {
        assert(pair_positions(s, left, right) =~= Set::<int>::empty());
    } else {
        let shorter = s.drop_last();
        let last = s.len() - 1;
        lemma_pair_count_is_number_of_positions(shorter, left, right);
        if s[last - 1] == left && s[last] == right {
            assert(pair_positions(s, left, right) =~= pair_positions(shorter, left, right).insert(
                last,
            ));
        } else {
            assert(pair_positions(s, left, right) =~= pair_positions(shorter, left, right));
        }
    }
}

/// A pair cannot occur more often than the sequence has adjacent positions.
pub proof fn lemma_pair_count_bound(s: Seq<u32>, left: u32, right: u32)
    ensures
        pair_count(s, left, right) <= s.len(),
        s.len() >= 1 ==> pair_count(s, left, right) <= s.len() - 1,
    decreases s.len(),
{
    if s.len() >= 2 {
        lemma_pair_count_bound(s.drop_last(), left, right);
    }
}

/// The count of a pair, taken from the front: whether the sequence starts
/// with the pair, plus the count in the rest.
pub proof fn lemma_pair_count_front(s: Seq<u32>, left: u32, right: u32)
    requires
        s.len() >= 2,
    ensures
        pair_count(s, left, right) == pair_count(s.skip(1), left, right) + if s[0] == left && s[1]
            == right {
            1nat
        } else {
            0nat
        },
    decreases s.len(),
{
    if s.len() == 2 {
        assert(pair_count(s.drop_last(), left, right) == 0);
    } else {
        lemma_pair_count_front(s.drop_last(), left, right);
        assert(s.drop_last().skip(1) == s.skip(1).drop_last());
    }
}

/// At most one position is selected.
pub proof fn lemma_selected_unique(s: Seq<u32>, i: int, j: int)
    requires
        is_selected_at(s, i),
        is_selected_at(s, j),
    ensures
        i == j,
{
    if i < j {
        assert(count_at(s, j) <= count_at(s, i));
    } else if j < i {
        assert(count_at(s, i) <= count_at(s, j));
    }
}

/// A pair that stands at some position of `s` occurs in `s`.
pub proof fn lemma_count_at_positive(s: Seq<u32>, i: int)
    requires
        0 <= i < s.len() - 1,
    ensures
        count_at(s, i) >= 1,
    decreases s.len(),
{
    if i < s.len() - 2 {
        lemma_count_at_positive(s.drop_last(), i);
    }
}

/// A pair that occurs in `s` stands at some position of `s`.
pub proof fn lemma_pair_occurs(s: Seq<u32>, left: u32, right: u32) -> (i: int)
    requires
        pair_count(s, left, right) > 0,
    ensures
        0 <= i < s.len() - 1,
        s[i] == left,
        s[i + 1] == right,
    decreases s.len(),
{
    if s[s.len() - 2] == left && s[s.len() - 1] == right {
        s.len() - 2
    } else {
        lemma_pair_occurs(s.drop_last(), left, right)
    }
}

/// Among the first `n` positions of `s` one is met first with the greatest
/// count.
proof fn lemma_selected_among(s: Seq<u32>, n: int) -> (best: int)
    requires
        1 <= n <= s.len() - 1,
    ensures
        0 <= best < n,
        forall|j: int| 0 <= j < n ==> #[trigger] count_at(s, j) <= count_at(s, best),
        forall|j: int| 0 <= j < best ==> #[trigger] count_at(s, j) < count_at(s, best),
    decreases n,
{
    if n == 1 {
        0
    } else {
        let earlier = lemma_selected_among(s, n - 1);
        if count_at(s, n - 1) > count_at(s, earlier) {
            n - 1
        } else {
            earlier
        }
    }
}

/// The selection rule: a sequence with at least two ids has a selected pair.
/// It stands at the one selected position, it occurs in the sequence, and no
/// pair occurs more often.
pub proof fn lemma_most_frequent_pair(s: Seq<u32>) -> (i: int)
    requires
        s.len() >= 2,
    ensures
        is_selected_at(s, i),
        most_frequent_pair(s) == Some((s[i], s[i + 1])),
        pair_count(s, s[i], s[i + 1]) >= 1,
        forall|left: u32, right: u32| #[trigger]
            pair_count(s, left, right) <= pair_count(s, s[i], s[i + 1]),
{
    let best = lemma_selected_among(s, s.len() - 1);
    let i = choose|i: int| is_selected_at(s, i);
    lemma_selected_unique(s, best, i);
    lemma_count_at_positive(s, i);
    assert forall|left: u32, right: u32| #[trigger]
        pair_count(s, left, right) <= pair_count(s, s[i], s[i + 1]) by {
        if pair_count(s, left, right) > 0 {
            let j = lemma_pair_occurs(s, left, right);
            assert(count_at(s, j) <= count_at(s, i));
        }
    }
    i
}

/// A key stands for exactly one pair.
pub proof fn lemma_key_round_trip(left: u32, right: u32, key: u64)
    ensures
        key_left(key_of(left, right)) == left,
        key_right(key_of(left, right)) == right,
        key_of(key_left(key), key_right(key)) == key,
{
}

/// The key of the pair `left, right`.
pub fn pair_key(left: u32, right: u32) -> (key: u64)
    ensures
        key == key_of(left, right),
{
    (left as u64) * 0x1_0000_0000 + (right as u64)
}

/// Fills `frequencies` with the frequency table of `tokens`, whatever it held
/// before.
pub fn count_token_pairs(tokens: &[u32], frequencies: &mut HashMap<u64, usize>)
    ensures
        final(frequencies)@ == frequency_table(tokens@),
{
    frequencies.clear();
    let len: usize = tokens.len();
    if len < 2 {
        return ;
    }
    let mut i: usize = 1;
    while i < len
        invariant
            1 <= i <= len,
            len == tokens.len(),
            frequencies@ == frequency_table(tokens@.take(i as int)),
        decreases len - i,
    {
        let left: u32 = tokens[i - 1];
        let right: u32 = tokens[i];
        let key: u64 = pair_key(left, right);
        let seen: usize = match frequencies.get(&key) {
            Some(count) => *count,
            None => 0,
        };
        proof {
            lemma_key_round_trip(left, right, key);
            lemma_pair_count_bound(tokens@.take(i as int), left, right);
        }
        frequencies.insert(key, seen + 1);
        proof {
            let shorter = tokens@.take(i as int);
            let longer = tokens@.take(i + 1);
            assert(longer.drop_last() == shorter);
            assert forall|k: u64|
                pair_count(longer, key_left(k), key_right(k)) == pair_count(
                    shorter,
                    key_left(k),
                    key_right(k),
                ) + if k == key {
                    1nat
                } else {
                    0nat
                } by {
                lemma_key_round_trip(left, right, k);
            }
            assert forall|k: u64| pair_count(longer, key_left(k), key_right(k)) <= usize::MAX by {
                lemma_pair_count_bound(longer, key_left(k), key_right(k));
            }
        }
        i += 1;
    }
    proof {
        assert(tokens@.take(len as int) == tokens@);
    }
}

/// Selects the pair to merge next: the most frequent adjacent pair of
/// `tokens`, and among pairs of equal count the one met first. Fails where
/// `tokens` holds no pair. `frequencies` is working space and holds the
/// frequency table of `tokens` afterwards.
pub fn most_frequent_token_pair(tokens: &[u32], frequencies: &mut HashMap<u64, usize>) -> (res:
    Result<Token, TrainError>)
    ensures
        final(frequencies)@ == frequency_table(tokens@),
        res == match most_frequent_pair(tokens@) {
            Some((left, right)) => Ok::<Token, TrainError>(Token::Pair(left, right)),
            None => Err(TrainError::NoPairsAvailable),
        },
        res is Err <==> tokens.len() < 2,
        res matches Ok(Token::Pair(left, right)) ==> exists|i: int|
            is_selected_at(tokens@, i) && tokens[i] == left && tokens[i + 1] == right,
{
    count_token_pairs(tokens, frequencies);
    let len: usize = tokens.len();
    if len < 2 {
        return Err(TrainError::NoPairsAvailable);
    }
    let mut best: usize = 0;
    let mut best_count: usize = 0;
    let mut j: usize = 0;
    while j < len - 1
        invariant
            2 <= len == tokens.len(),
            0 <= j <= len - 1,
            frequencies@ == frequency_table(tokens@),
            j == 0 ==> best == 0 && best_count == 0,
            j > 0 ==> best < j && best_count == count_at(tokens@, best as int),
            forall|k: int| 0 <= k < j ==> #[trigger] count_at(tokens@, k) <= best_count,
            forall|k: int| 0 <= k < best ==> #[trigger] count_at(tokens@, k) < best_count,
        decreases len - 1 - j,
    {
        let left: u32 = tokens[j];
        let right: u32 = tokens[j + 1];
        let key: u64 = pair_key(left, right);
        let count: usize = match frequencies.get(&key) {
            Some(count) => *count,
            None => 0,
        };
        proof {
            lemma_key_round_trip(left, right, key);
            lemma_pair_count_bound(tokens@, left, right);
        }
        if j == 0 || count > best_count {
            best = j;
            best_count = count;
        }
        j += 1;
    }
    proof {
        assert(is_selected_at(tokens@, best as int));
        let chosen = choose|i: int| is_selected_at(tokens@, i);
        lemma_selected_unique(tokens@, best as int, chosen);
    }
    Ok(Token::Pair(tokens[best], tokens[best + 1]))
}

} // verus!
