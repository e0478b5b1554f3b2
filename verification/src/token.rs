use vstd::prelude::*;

verus! {

/// One entry of a vocabulary: a raw byte, or the ordered pair of two
/// earlier symbol ids that were merged into this symbol.
#[derive(PartialEq, Eq, Structural, Hash, Clone, Copy, Debug)]
pub enum Token {
    Byte(u8),
    Pair(u32, u32),
}

} // verus!
