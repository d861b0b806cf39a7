//! Crossword grids and word lists.
//!
//! A [`puzzle::Puzzle`] is a rectangular grid of open and blocked squares
//! together with its slots, the maximal runs of open squares along its rows
//! and columns. A [`lexicon::Lexicon`] is a word list kept by word length; it
//! answers which of its words fit a slot whose squares hold letters or blanks.
//!
//! Every function of this crate is verified with Verus against the contract
//! it carries, except the few that hand work to `ndarray`, to
//! `unicode-segmentation` or to `String::push`: their contracts state what
//! the rest relies on.

pub mod format;
pub mod grid;
pub mod lexicon;
pub mod puzzle;
pub mod slots;
pub mod text;
