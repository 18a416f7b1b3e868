//! Columnar transposition: the cipher, and an attack on it.
//!
//! The attack decodes a cipher under every key of every stage, in every
//! ordering of the stages, and ranks what comes out by the dictionary words it
//! holds.
//!
//! - `cipher`: one stage of the cipher, in both directions.
//! - `indexer`: factorials, and the bijection between indices and
//!   permutations.
//! - `enumerator`: the list of all candidates.
//! - `filter`: filters that drop implausible candidates.
//! - `dictionary`: pruning a word list against the cipher.
//! - `scorer`: scoring and ranking the candidates.
//! - `parse`: keys and stage sizes as they are written.
//! - `pattern`: regular expressions.
//! - `text`: strings, their pieces and their lines.

pub mod cipher;
pub mod dictionary;
pub mod enumerator;
pub mod filter;
pub mod indexer;
pub mod parse;
pub mod pattern;
pub mod scorer;
pub mod text;
