//! Crawdad: a character-wise double-array dictionary.
//!
//! Two trie forms are offered: [`Trie`], a standard double-array trie, and
//! [`MpTrie`], a minimal-prefix trie that moves the tails of single-key
//! branches into a packed byte pool.
//!
//! Keys are sequences of characters and values are below `2^31`. Both forms
//! are built from sorted records, answer exact-match and common-prefix
//! queries, and serialize to a flat little-endian byte buffer. The character
//! `U+0000` is reserved as the end marker and must not occur in keys.
use vstd::prelude::*;

pub mod builder;
pub mod bytes;
pub mod errors;
pub mod keys;
pub mod laws;
pub mod mapper;
pub mod mptrie;
pub mod node;
pub mod trie;
pub mod utils;

pub use mptrie::MpTrie;
pub use trie::Trie;

verus! {

/// Low 31 bits of a node field: the payload.
pub const OFFSET_MASK: u32 = 0x7fff_ffff;

/// Largest value that can be associated with a key.
pub const MAX_VALUE: u32 = 0x7fff_ffff;

/// Code of the end marker.
pub const END_CODE: u32 = 0;

/// Special terminator, which must not be contained in keys.
pub const END_MARKER: char = '\u{0}';

} // verus!
