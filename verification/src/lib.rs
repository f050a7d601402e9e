//! A static, weighted string dictionary stored as a cascade of succinct tries.

pub mod bitseq;
pub mod bitvec;
pub mod builder;
pub mod cascade;
pub mod codec;
pub mod error;
pub mod key;
pub mod keyset;
pub mod level;
pub mod lex;
pub mod shape;
pub mod sort;
pub mod sums;
pub mod tree;
pub mod trie;
pub mod validate;
pub mod weight;

pub use crate::builder::{Config, DuplicatePolicy};
pub use crate::error::{Error, FormatError, InputError, StateError};
pub use crate::key::{to_raw, Key};
pub use crate::keyset::Keyset;
pub use crate::trie::{Match, Trie, TrieState};
