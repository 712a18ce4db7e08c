//! Words to telephone-keypad digits, and back again.
//!
//! [`pad`] encodes a word as the sequence of keypad buttons that spell it.
//! [`tree`] keeps a dictionary of words indexed by that encoding, so that the
//! words behind a digit sequence can be found again.
pub mod pad;
pub mod tree;
