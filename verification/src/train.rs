use crate::error::TrainError;
use crate::frequency::{
    frequency_table, lemma_most_frequent_pair, most_frequent_pair, most_frequent_token_pair,
    pair_count,
};
use crate::render::{decode, tokens_in_range};
use crate::rewrite::{
    lemma_replace_eliminates_pair, lemma_replace_in_range, lemma_replace_length,
    lemma_replace_preserves_decode, replace_pair, replace_token_pair,
};
use crate::token::Token;
use crate::vocabulary::{
    initial_vocabulary, is_vocabulary, lemma_vocabulary_is_layered, Vocabulary,
};
use std::collections::HashMap;
use vstd::prelude::*;

verus! {

/// What training works on: the vocabulary learned so far and the text as a
/// sequence of its ids.
pub struct State {
    pub vocabulary: Seq<Token>,
    pub tokens: Seq<u32>,
}

/// What holds of every state that training reaches: the vocabulary is one,
/// and it holds every id of the token sequence.
pub open spec fn is_state(state: State) -> bool {
    &&& is_vocabulary(state.vocabulary)
    &&& tokens_in_range(state.tokens, state.vocabulary.len() as int)
}

/// The text as ids: each byte under the id that equals its value.
pub open spec fn initial_tokens(text: Seq<u8>) -> Seq<u32> {
    Seq::new(text.len(), |i: int| text[i] as u32)
}

/// The state before the first round.
pub open spec fn initial_state(text: Seq<u8>) -> State {
    State { vocabulary: initial_vocabulary(), tokens: initial_tokens(text) }
}

/// The state after one merge round on a state with at least two tokens: the
/// selected pair becomes the next symbol, and its occurrences are replaced by
/// that symbol's id.
pub open spec fn merged(state: State) -> State {
    match most_frequent_pair(state.tokens) {
        Some((left, right)) => State {
            vocabulary: state.vocabulary.push(Token::Pair(left, right)),
            tokens: replace_pair(state.tokens, left, right, state.vocabulary.len() as u32),
        },
        None => state,
    }
}

/// The state after `rounds` rounds were asked for: each round merges where
/// there is a pair, and leaves the state as it is where there is none.
pub open spec fn trained(text: Seq<u8>, rounds: nat) -> State
    decreases rounds,
{
    if rounds == 0 {
        initial_state(text)
    } else {
        merged(trained(text, (rounds - 1) as nat))
    }
}

/// How many of the `rounds` rounds asked for found a pair to merge.
pub open spec fn completed_rounds(text: Seq<u8>, rounds: nat) -> nat
    decreases rounds,
{
    if rounds == 0 {
        0
    } else {
        completed_rounds(text, (rounds - 1) as nat) + if trained(
            text,
            (rounds - 1) as nat,
        ).tokens.len() >= 2 {
            1nat
        } else {
            0nat
        }
    }
}

/// The initial state is a state, and its tokens stand for the text.
pub proof fn lemma_initial_state(text: Seq<u8>)
    ensures
        is_state(initial_state(text)),
        initial_state(text).vocabulary.len() == 256,
        initial_state(text).tokens.len() == text.len(),
        decode(initial_state(text).vocabulary, initial_state(text).tokens) == text,
    decreases text.len(),
{
    if text.len() > 0 {
        let shorter = text.drop_last();
        lemma_initial_state(shorter);
        assert(initial_tokens(text).drop_last() == initial_tokens(shorter));
    }
}

/// One merge round, on a state with a pair and room in the vocabulary,
/// gives a state again. The vocabulary grows by one symbol, the token
/// sequence gets shorter, and it stands for the same bytes as before.
pub proof fn lemma_merged(state: State)
    requires
        is_state(state),
        state.tokens.len() >= 2,
        state.vocabulary.len() < u32::MAX,
    ensures
        is_state(merged(state)),
        merged(state).vocabulary.len() == state.vocabulary.len() + 1,
        merged(state).tokens.len() < state.tokens.len(),
        decode(merged(state).vocabulary, merged(state).tokens) == decode(
            state.vocabulary,
            state.tokens,
        ),
{
    let i = lemma_most_frequent_pair(state.tokens);
    let left = state.tokens[i];
    let right = state.tokens[i + 1];
    let id = state.vocabulary.len() as u32;
    lemma_vocabulary_is_layered(state.vocabulary);
    lemma_replace_length(state.tokens, left, right, id);
    lemma_replace_preserves_decode(state.vocabulary, state.tokens, left, right);
    lemma_replace_in_range(state.tokens, left, right, id, (state.vocabulary.len() + 1) as int);
    assert(is_vocabulary(state.vocabulary.push(Token::Pair(left, right))));
}

/// After a merge round the pair that it selected stands nowhere in the
/// token sequence any more.
pub proof fn lemma_merged_eliminates_pair(state: State)
    requires
        is_state(state),
        state.tokens.len() >= 2,
        state.vocabulary.len() < u32::MAX,
    ensures
        most_frequent_pair(state.tokens) matches Some((left, right)) && pair_count(
            merged(state).tokens,
            left,
            right,
        ) == 0,
{
    let i = lemma_most_frequent_pair(state.tokens);
    lemma_replace_eliminates_pair(
        state.tokens,
        state.tokens[i],
        state.tokens[i + 1],
        state.vocabulary.len() as u32,
    );
}

/// What training keeps true from round to round.
proof fn lemma_trained_invariant(text: Seq<u8>, rounds: nat)
    requires
        rounds <= u32::MAX - 256,
    ensures
        is_state(trained(text, rounds)),
        completed_rounds(text, rounds) <= rounds,
        trained(text, rounds).vocabulary.len() == 256 + completed_rounds(text, rounds),
        trained(text, rounds).tokens.len() + completed_rounds(text, rounds) <= text.len(),
        decode(trained(text, rounds).vocabulary, trained(text, rounds).tokens) == text,
    decreases rounds,
{
    if rounds == 0 {
        lemma_initial_state(text);
    } else {
        let before = trained(text, (rounds - 1) as nat);
        lemma_trained_invariant(text, (rounds - 1) as nat);
        if before.tokens.len() >= 2 {
            lemma_merged(before);
        }
    }
}

/// Round trip: after any number of rounds the token sequence, rendered id
/// by id, gives the text again.
pub proof fn lemma_round_trip(text: Seq<u8>, rounds: nat)
    requires
        rounds <= u32::MAX - 256,
    ensures
        decode(trained(text, rounds).vocabulary, trained(text, rounds).tokens) == text,
{
    lemma_trained_invariant(text, rounds);
}

/// Vocabulary growth: the vocabulary holds the 256 byte symbols and one
/// symbol for each round that found a pair.
pub proof fn lemma_vocabulary_growth(text: Seq<u8>, rounds: nat)
    requires
        rounds <= u32::MAX - 256,
    ensures
        trained(text, rounds).vocabulary.len() == 256 + completed_rounds(text, rounds),
        completed_rounds(text, rounds) <= rounds,
{
    lemma_trained_invariant(text, rounds);
}

/// No round lengthens the token sequence, and a round that finds a pair
/// shortens it.
pub proof fn lemma_tokens_never_grow(text: Seq<u8>, rounds: nat)
    requires
        rounds < u32::MAX - 256,
    ensures
        trained(text, rounds + 1).tokens.len() <= trained(text, rounds).tokens.len(),
        trained(text, rounds).tokens.len() >= 2 ==> trained(text, rounds + 1).tokens.len()
            < trained(text, rounds).tokens.len(),
{
    lemma_trained_invariant(text, rounds);
    if trained(text, rounds).tokens.len() >= 2 {
        lemma_merged(trained(text, rounds));
    }
}

/// Id validity: after any number of rounds every id in the token sequence
/// is in the vocabulary, and every pair in the vocabulary is made of ids
/// that stand before it.
pub proof fn lemma_ids_valid(text: Seq<u8>, rounds: nat)
    requires
        rounds <= u32::MAX - 256,
    ensures
        is_state(trained(text, rounds)),
{
    lemma_trained_invariant(text, rounds);
}

/// Once a round finds no pair, no later round finds one: the state stays as
/// it is.
pub proof fn lemma_exhausted_stays(text: Seq<u8>, done: nat, rounds: nat)
    requires
        done <= rounds,
        trained(text, done).tokens.len() < 2,
    ensures
        trained(text, rounds) == trained(text, done),
        completed_rounds(text, rounds) == completed_rounds(text, done),
    decreases rounds,
{
    if done < rounds {
        lemma_exhausted_stays(text, done, (rounds - 1) as nat);
    }
}

/// A text of at most one byte has no pair: whatever number of rounds is
/// asked for, none finds one, and the tokens stay the bytes of the text.
pub proof fn lemma_short_text(text: Seq<u8>, rounds: nat)
    requires
        text.len() <= 1,
    ensures
        trained(text, rounds) == initial_state(text),
        completed_rounds(text, rounds) == 0,
{
    lemma_exhausted_stays(text, 0, rounds);
}

/// The ids of the bytes of `text`, in order.
pub fn byte_tokens(text: &[u8]) -> (tokens: Vec<u32>)
    ensures
        tokens@ == initial_tokens(text@),
{
    let len: usize = text.len();
    let mut tokens: Vec<u32> = Vec::with_capacity(len);
    let mut i: usize = 0;
    while i < len
        invariant
            i <= len == text.len(),
            tokens.len() == i,
            forall|k: int| 0 <= k < i ==> #[trigger] tokens[k] == text[k] as u32,
        decreases len - i,
    {
        tokens.push(text[i] as u32);
        i += 1;
    }
    tokens
}

/// One merge round: counts the pairs of `tokens`, selects the most frequent
/// one, adds it to `vocabulary` and replaces it in `tokens` by its new id,
/// which is returned. Where `tokens` holds no pair, or the vocabulary is
/// full, the round fails and changes neither.
pub fn merge_round(
    vocabulary: &mut Vocabulary,
    tokens: &mut Vec<u32>,
    frequencies: &mut HashMap<u64, usize>,
) -> (res: Result<u32, TrainError>)
    requires
        old(vocabulary).wf(),
        tokens_in_range(old(tokens)@, old(vocabulary)@.len() as int),
    ensures
        final(vocabulary).wf(),
        tokens_in_range(final(tokens)@, final(vocabulary)@.len() as int),
        final(frequencies)@ == frequency_table(old(tokens)@),
        old(tokens)@.len() < 2 ==> res == Err::<u32, TrainError>(TrainError::NoPairsAvailable),
        old(tokens)@.len() >= 2 && old(vocabulary)@.len() >= u32::MAX ==> res == Err::<
            u32,
            TrainError,
        >(TrainError::VocabularyOverflow),
        old(tokens)@.len() >= 2 && old(vocabulary)@.len() < u32::MAX ==> res == Ok::<
            u32,
            TrainError,
        >(old(vocabulary)@.len() as u32),
        res is Ok ==> (State { vocabulary: final(vocabulary)@, tokens: final(tokens)@ }) == merged(
            State { vocabulary: old(vocabulary)@, tokens: old(tokens)@ },
        ),
        res is Ok ==> final(vocabulary)@.len() == old(vocabulary)@.len() + 1,
        res is Ok ==> final(tokens)@.len() < old(tokens)@.len(),
        res is Err ==> final(vocabulary)@ == old(vocabulary)@ && final(tokens)@ == old(tokens)@,
        decode(final(vocabulary)@, final(tokens)@) == decode(old(vocabulary)@, old(tokens)@),
{
    let ghost before = State { vocabulary: vocabulary@, tokens: tokens@ };
    let pair = match most_frequent_token_pair(tokens.as_slice(), frequencies) {
        Ok(pair) => pair,
        Err(error) => {
            return Err(error);
        },
    };
    let (left, right) = match pair {
        Token::Pair(left, right) => (left, right),
        Token::Byte(_) => {
            return Err(TrainError::NoPairsAvailable);
        },
    };
    proof {
        lemma_most_frequent_pair(before.tokens);
        if before.vocabulary.len() < u32::MAX {
            lemma_merged(before);
        }
    }
    let id = match vocabulary.append(left, right) {
        Ok(id) => id,
        Err(error) => {
            return Err(error);
        },
    };
    replace_token_pair(tokens, pair, id);
    Ok(id)
}

/// What training gives back.
pub struct Training {
    /// The vocabulary: the byte symbols and one pair for each completed round.
    pub vocabulary: Vocabulary,
    /// The text as ids of the vocabulary.
    pub tokens: Vec<u32>,
    /// The number of rounds that were completed.
    pub rounds: u32,
    /// Why training stopped before the number of rounds asked for, if it
    /// did: a round found no pair to merge.
    pub stopped_by: Option<TrainError>,
}

impl View for Training {
    type V = State;

    open spec fn view(&self) -> State {
        State { vocabulary: self.vocabulary@, tokens: self.tokens@ }
    }
}

/// Trains a vocabulary on `text`: `vocabulary_size` merge rounds, one after
/// the other.
///
/// A round that finds no pair to merge ends training early. What was
/// learned up to there is the result, and `stopped_by` names the reason.
/// Where the vocabulary could not hold `vocabulary_size` symbols beside the
/// bytes, training fails before its first round.
pub fn train(text: &[u8], vocabulary_size: u32) -> (res: Result<Training, TrainError>)
    ensures
        vocabulary_size > u32::MAX - 256 ==> res matches Err(TrainError::VocabularyOverflow),
        vocabulary_size <= u32::MAX - 256 ==> res is Ok,
        res matches Ok(training) ==> {
            &&& training.vocabulary.wf()
            &&& training@ == trained(text@, vocabulary_size as nat)
            &&& training.rounds == completed_rounds(text@, vocabulary_size as nat)
            &&& training.stopped_by == if training.rounds < vocabulary_size {
                Some(TrainError::NoPairsAvailable)
            } else {
                None
            }
            &&& is_state(training@)
            &&& training.vocabulary@.len() == 256 + training.rounds
            &&& training.tokens@.len() + training.rounds <= text@.len()
            &&& decode(training.vocabulary@, training.tokens@) == text@
        },
{
    if vocabulary_size > u32::MAX - 256 {
        return Err(TrainError::VocabularyOverflow);
    }
    let mut vocabulary = Vocabulary::new();
    let mut tokens: Vec<u32> = byte_tokens(text);
    let mut frequencies: HashMap<u64, usize> = HashMap::new();
    let mut rounds: u32 = 0;
    let mut stopped_by: Option<TrainError> = None;
    proof {
        lemma_initial_state(text@);
    }
    while rounds < vocabulary_size && stopped_by.is_none()
        invariant
            rounds <= vocabulary_size <= u32::MAX - 256,
            vocabulary.wf(),
            (State { vocabulary: vocabulary@, tokens: tokens@ }) == trained(text@, rounds as nat),
            completed_rounds(text@, rounds as nat) == rounds,
            is_state(trained(text@, rounds as nat)),
            vocabulary@.len() == 256 + rounds,
            stopped_by is Some ==> rounds < vocabulary_size && tokens@.len() < 2 && stopped_by
                == Some(TrainError::NoPairsAvailable),
        decreases vocabulary_size - rounds + if stopped_by is Some { 0int } else { 1int },
    {
        match merge_round(&mut vocabulary, &mut tokens, &mut frequencies) {
            Ok(_) => {
                proof {
                    lemma_trained_invariant(text@, (rounds + 1) as nat);
                }
                rounds += 1;
            },
            Err(error) => {
                stopped_by = Some(error);
            },
        }
    }
    proof {
        lemma_trained_invariant(text@, rounds as nat);
        if stopped_by is Some {
            lemma_exhausted_stays(text@, rounds as nat, vocabulary_size as nat);
        }
    }
    Ok(Training { vocabulary, tokens, rounds, stopped_by })
}

} // verus!
