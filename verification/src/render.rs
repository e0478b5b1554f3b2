use crate::token::Token;
use vstd::prelude::*;

verus! {

/// Every pair in `vocabulary` is made of two ids that stand before it, so
/// that no symbol refers to itself or to a later one.
pub open spec fn is_layered(vocabulary: Seq<Token>) -> bool {
    forall|i: int|
        0 <= i < vocabulary.len() ==> (#[trigger] vocabulary[i] matches Token::Pair(left, right)
            ==> left < i && right < i)
}

/// The bytes that symbol `id` stands for: a byte stands for itself, a pair
/// for the bytes of its left part followed by those of its right part.
pub open spec fn render(vocabulary: Seq<Token>, id: int) -> Seq<u8>
    decreases id,
{
    if 0 <= id < vocabulary.len() {
        match vocabulary[id] {
            Token::Byte(byte) => seq![byte],
            Token::Pair(left, right) => {
                if left < id && right < id {
                    render(vocabulary, left as int) + render(vocabulary, right as int)
                } else {
                    Seq::empty()
                }
            },
        }
    } else {
        Seq::empty()
    }
}

/// Every id in `tokens` is below `bound`.
pub open spec fn tokens_in_range(tokens: Seq<u32>, bound: int) -> bool {
    forall|i: int| 0 <= i < tokens.len() ==> #[trigger] tokens[i] < bound
}

/// The bytes that the token sequence stands for: the renderings of its ids,
/// one after the other.
pub open spec fn decode(vocabulary: Seq<Token>, tokens: Seq<u32>) -> Seq<u8>
    decreases tokens.len(),
{
    if tokens.len() == 0 {
        Seq::empty()
    } else {
        decode(vocabulary, tokens.drop_last()) + render(vocabulary, tokens.last() as int)
    }
}

/// The token sequence as it is shown: the rendering of each id between `[`
/// and `]`, with nothing between the bracketed parts.
pub open spec fn segmented(vocabulary: Seq<Token>, tokens: Seq<u32>) -> Seq<u8>
    decreases tokens.len(),
{
    if tokens.len() == 0 {
        Seq::empty()
    } else {
        segmented(vocabulary, tokens.drop_last()) + seq![0x5bu8] + render(
            vocabulary,
            tokens.last() as int,
        ) + seq![0x5du8]
    }
}

/// The renderings of the ids in `pending`, last id first.
spec fn render_pending(vocabulary: Seq<Token>, pending: Seq<u32>) -> Seq<u8>
    decreases pending.len(),
{
    if pending.len() == 0 {
        Seq::empty()
    } else {
        render(vocabulary, pending.last() as int) + render_pending(vocabulary, pending.drop_last())
    }
}

/// The number of symbols met when `id` is expanded down to its bytes.
spec fn weight(vocabulary: Seq<Token>, id: int) -> nat
    decreases id,
{
    if 0 <= id < vocabulary.len() {
        match vocabulary[id] {
            Token::Byte(_) => 1,
            Token::Pair(left, right) => {
                if left < id && right < id {
                    1 + weight(vocabulary, left as int) + weight(vocabulary, right as int)
                } else {
                    1
                }
            },
        }
    } else {
        1
    }
}

spec fn pending_weight(vocabulary: Seq<Token>, pending: Seq<u32>) -> nat
    decreases pending.len(),
{
    if pending.len() == 0 {
        0
    } else {
        weight(vocabulary, pending.last() as int) + pending_weight(vocabulary, pending.drop_last())
    }
}

/// Pushing `id` on the work stack puts its rendering in front and adds its
/// weight.
proof fn lemma_pending_push(vocabulary: Seq<Token>, pending: Seq<u32>, id: u32)
    ensures
        render_pending(vocabulary, pending.push(id)) == render(vocabulary, id as int)
            + render_pending(vocabulary, pending),
        pending_weight(vocabulary, pending.push(id)) == weight(vocabulary, id as int)
            + pending_weight(vocabulary, pending),
{
    assert(pending.push(id).drop_last() == pending);
}

/// Expands symbol `token_id` into the bytes it stands for, with a work stack
/// in place of recursion.
pub fn render_token(vocabulary: &[Token], token_id: u32) -> (bytes: Vec<u8>)
    requires
        is_layered(vocabulary@),
        token_id < vocabulary.len(),
    ensures
        bytes@ == render(vocabulary@, token_id as int),
{
    let mut bytes: Vec<u8> = Vec::with_capacity(32);
    let mut pending: Vec<u32> = Vec::new();
    pending.push(token_id);
    proof {
        lemma_pending_push(vocabulary@, Seq::empty(), token_id);
    }
    while pending.len() > 0
        invariant
            is_layered(vocabulary@),
            forall|k: int| 0 <= k < pending.len() ==> pending[k] < vocabulary.len(),
            bytes@ + render_pending(vocabulary@, pending@) == render(
                vocabulary@,
                token_id as int,
            ),
        decreases pending_weight(vocabulary@, pending@),
    {
        let id: u32 = pending.pop().unwrap();
        let ghost rest = pending@;
        proof {
            lemma_pending_push(vocabulary@, rest, id);
        }
        match vocabulary[id as usize] {
            Token::Byte(byte) => {
                bytes.push(byte);
            },
            Token::Pair(left, right) => {
                pending.push(right);
                pending.push(left);
                proof {
                    lemma_pending_push(vocabulary@, rest, right);
                    lemma_pending_push(vocabulary@, rest.push(right), left);
                }
            },
        }
    }
    bytes
}

/// Decoding distributes over concatenation.
pub proof fn lemma_decode_concat(vocabulary: Seq<Token>, front: Seq<u32>, back: Seq<u32>)
    ensures
        decode(vocabulary, front + back) == decode(vocabulary, front) + decode(vocabulary, back),
    decreases back.len(),
{
    if back.len() > 0 {
        assert((front + back).drop_last() == front + back.drop_last());
        lemma_decode_concat(vocabulary, front, back.drop_last());
    }
}

/// A sequence of one id decodes to the rendering of that id.
pub proof fn lemma_decode_one(vocabulary: Seq<Token>, id: u32)
    ensures
        decode(vocabulary, seq![id]) == render(vocabulary, id as int),
{
    assert(decode(vocabulary, seq![id].drop_last()) == Seq::<u8>::empty());
}

/// A symbol added to a layered vocabulary changes the rendering of no
/// earlier id.
pub proof fn lemma_render_extend(vocabulary: Seq<Token>, symbol: Token, id: int)
    requires
        is_layered(vocabulary),
        0 <= id < vocabulary.len(),
    ensures
        render(vocabulary.push(symbol), id) == render(vocabulary, id),
    decreases id,
{
    match vocabulary[id] {
        Token::Byte(_) => {},
        Token::Pair(left, right) => {
            lemma_render_extend(vocabulary, symbol, left as int);
            lemma_render_extend(vocabulary, symbol, right as int);
        },
    }
}

/// Tells whether every pair in `vocabulary` is made of earlier ids.
pub fn is_layered_vocabulary(vocabulary: &[Token]) -> (layered: bool)
    ensures
        layered == is_layered(vocabulary@),
{
    let len: usize = vocabulary.len();
    let mut i: usize = 0;
    while i < len
        invariant
            i <= len == vocabulary.len(),
            forall|k: int|
                0 <= k < i ==> (#[trigger] vocabulary@[k] matches Token::Pair(left, right) ==> left
                    < k && right < k),
        decreases len - i,
    {
        match vocabulary[i] {
            Token::Byte(_) => {},
            Token::Pair(left, right) => {
                if left as usize >= i || right as usize >= i {
                    return false;
                }
            },
        }
        i += 1;
    }
    true
}

/// Tells whether every id in `tokens` is below `bound`.
pub fn all_tokens_below(tokens: &[u32], bound: usize) -> (below: bool)
    ensures
        below == tokens_in_range(tokens@, bound as int),
{
    let len: usize = tokens.len();
    let mut i: usize = 0;
    while i < len
        invariant
            i <= len == tokens.len(),
            forall|k: int| 0 <= k < i ==> #[trigger] tokens@[k] < bound,
        decreases len - i,
    {
        if tokens[i] as usize >= bound {
            return false;
        }
        i += 1;
    }
    true
}

/// Whether `tokens` can be rendered over `vocabulary`: the vocabulary is
/// layered and holds every id of `tokens`.
pub open spec fn is_renderable(vocabulary: Seq<Token>, tokens: Seq<u32>) -> bool {
    is_layered(vocabulary) && tokens_in_range(tokens, vocabulary.len() as int)
}

/// The bytes that `tokens` stands for, where it can be rendered.
pub fn decode_tokens(vocabulary: &[Token], tokens: &[u32]) -> (bytes: Option<Vec<u8>>)
    ensures
        is_renderable(vocabulary@, tokens@) ==> bytes.is_some() && bytes.unwrap()@ == decode(
            vocabulary@,
            tokens@,
        ),
        !is_renderable(vocabulary@, tokens@) ==> bytes.is_none(),
{
    if !is_layered_vocabulary(vocabulary) || !all_tokens_below(tokens, vocabulary.len()) {
        return None;
    }
    let mut bytes: Vec<u8> = Vec::new();
    let len: usize = tokens.len();
    let mut i: usize = 0;
    while i < len
        invariant
            i <= len == tokens.len(),
            is_renderable(vocabulary@, tokens@),
            bytes@ == decode(vocabulary@, tokens@.take(i as int)),
        decreases len - i,
    {
        let mut part: Vec<u8> = render_token(vocabulary, tokens[i]);
        bytes.append(&mut part);
        proof {
            assert(tokens@.take(i + 1).drop_last() == tokens@.take(i as int));
        }
        i += 1;
    }
    proof {
        assert(tokens@.take(len as int) == tokens@);
    }
    Some(bytes)
}

/// The text that is shown for `tokens`, where it can be rendered: each
/// id's bytes between `[` and `]`.
pub fn render_segmented(vocabulary: &[Token], tokens: &[u32]) -> (bytes: Option<Vec<u8>>)
    ensures
        is_renderable(vocabulary@, tokens@) ==> bytes.is_some() && bytes.unwrap()@ == segmented(
            vocabulary@,
            tokens@,
        ),
        !is_renderable(vocabulary@, tokens@) ==> bytes.is_none(),
{
    if !is_layered_vocabulary(vocabulary) || !all_tokens_below(tokens, vocabulary.len()) {
        return None;
    }
    let mut bytes: Vec<u8> = Vec::new();
    let len: usize = tokens.len();
    let mut i: usize = 0;
    while i < len
        invariant
            i <= len == tokens.len(),
            is_renderable(vocabulary@, tokens@),
            bytes@ == segmented(vocabulary@, tokens@.take(i as int)),
        decreases len - i,
    {
        let mut part: Vec<u8> = render_token(vocabulary, tokens[i]);
        bytes.push(0x5b);
        bytes.append(&mut part);
        bytes.push(0x5d);
        proof {
            assert(tokens@.take(i + 1).drop_last() == tokens@.take(i as int));
        }
        i += 1;
    }
    proof {
        assert(tokens@.take(len as int) == tokens@);
    }
    Some(bytes)
}

} // verus!
