use crate::error::TrainError;
use crate::render::is_layered;
use crate::token::Token;
use vstd::prelude::*;

verus! {

/// The vocabulary before any merge: one `Byte` per byte value, each under
/// the id that equals its value.
pub open spec fn initial_vocabulary() -> Seq<Token> {
    Seq::new(256, |i: int| Token::Byte(i as u8))
}

/// What holds of every vocabulary: it starts with the 256 byte symbols in
/// order, every later symbol is a pair of two ids that stand before it, and
/// its length fits the id type.
pub open spec fn is_vocabulary(symbols: Seq<Token>) -> bool {
    &&& 256 <= symbols.len() <= u32::MAX
    &&& forall|i: int| 0 <= i < 256 ==> #[trigger] symbols[i] == Token::Byte(i as u8)
    &&& forall|i: int|
        256 <= i < symbols.len() ==> (#[trigger] symbols[i] matches Token::Pair(left, right)
            && left < i && right < i)
}

/// A vocabulary refers to earlier symbols only.
pub proof fn lemma_vocabulary_is_layered(symbols: Seq<Token>)
    requires
        is_vocabulary(symbols),
    ensures
        is_layered(symbols),
{
}

/// The table of symbols, indexed by id. It only grows, by one pair at a time.
pub struct Vocabulary {
    symbols: Vec<Token>,
}

impl View for Vocabulary {
    type V = Seq<Token>;

    closed spec fn view(&self) -> Seq<Token> {
        self.symbols@
    }
}

impl Vocabulary {
    /// The table is a vocabulary in the sense of `is_vocabulary`. `new`
    /// establishes this and `append` keeps it.
    pub open spec fn wf(&self) -> bool {
        is_vocabulary(self@)
    }

    /// The vocabulary of the 256 byte symbols.
    pub fn new() -> (vocabulary: Vocabulary)
        ensures
            vocabulary@ == initial_vocabulary(),
            vocabulary.wf(),
    {
        let mut symbols: Vec<Token> = Vec::with_capacity(256);
        let mut byte: u8 = 0;
        while byte < 255
            invariant
                symbols.len() == byte,
                forall|i: int| 0 <= i < byte ==> #[trigger] symbols[i] == Token::Byte(i as u8),
            decreases 255 - byte,
        {
            symbols.push(Token::Byte(byte));
            byte += 1;
        }
        symbols.push(Token::Byte(byte));
        Vocabulary { symbols }
    }

    /// The number of symbols, which is also the id that the next pair gets.
    pub fn len(&self) -> (len: usize)
        ensures
            len == self@.len(),
    {
        self.symbols.len()
    }

    /// The symbol with the given id, if there is one.
    pub fn get(&self, id: u32) -> (symbol: Option<Token>)
        ensures
            symbol == if id < self@.len() {
                Some(self@[id as int])
            } else {
                None
            },
    {
        if (id as usize) < self.symbols.len() {
            Some(self.symbols[id as usize])
        } else {
            None
        }
    }

    /// The symbols in the order of their ids.
    pub fn as_slice(&self) -> (symbols: &[Token])
        ensures
            symbols@ == self@,
    {
        self.symbols.as_slice()
    }

    /// Adds the pair `left, right` as a new symbol and returns its id, the
    /// length before the call. Fails, and changes nothing, where the
    /// vocabulary is full.
    pub fn append(&mut self, left: u32, right: u32) -> (res: Result<u32, TrainError>)
        requires
            old(self).wf(),
            left < old(self)@.len(),
            right < old(self)@.len(),
        ensures
            final(self).wf(),
            old(self)@.len() < u32::MAX ==> res == Ok::<u32, TrainError>(old(self)@.len() as u32)
                && final(self)@ == old(self)@.push(Token::Pair(left, right)),
            old(self)@.len() >= u32::MAX ==> res == Err::<u32, TrainError>(
                TrainError::VocabularyOverflow,
            ) && final(self)@ == old(self)@,
    {
        let len: usize = self.symbols.len();
        if len >= u32::MAX as usize {
            return Err(TrainError::VocabularyOverflow);
        }
        self.symbols.push(Token::Pair(left, right));
        Ok(len as u32)
    }
}

} // verus!
