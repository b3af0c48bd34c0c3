//! A bag of words: text is reduced to the multiset of its words, each word
//! normalised to lowercase when it holds an uppercase letter.
//!
//! Words are the whitespace-separated chunks of a text, stripped of leading
//! and trailing non-letters, that consist of letters alone.

pub mod bag;
pub mod laws;
pub mod order;
pub mod text;
pub use bag::Bbow;
