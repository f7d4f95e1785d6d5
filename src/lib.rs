//! Hint labels for jumping around a text buffer: a prefix code grown one
//! label at a time, and the narrowing of labelled selections key by key.

pub mod display;
pub mod hop;
pub mod selection;
pub mod text;
pub mod trie;
