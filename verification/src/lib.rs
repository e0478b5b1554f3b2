//! Byte-pair-encoding training.
//!
//! A text is taken as a sequence of symbol ids, at first one id per byte.
//! Each merge round counts the adjacent pairs of ids, selects the most
//! frequent pair, adds it to the vocabulary as a new symbol and replaces its
//! occurrences by the new id. Every symbol can be expanded back into the
//! bytes it stands for, and the token sequence always stands for the text.
//!
//! Two choices are fixed here. Among pairs of equal greatest count, a round
//! selects the one that is met first in the token sequence. And a round that
//! finds no pair ends training early: what was learned so far is the result,
//! together with the reason.

pub mod error;
pub mod frequency;
pub mod render;
pub mod rewrite;
pub mod token;
pub mod train;
pub mod vocabulary;
