//! An adaptive trie over keys of byte-sized edge symbols.
//!
//! A node holds the rest of a key, an optional value and an optional table of children. A
//! table has one of nine sizes, 1 to 256, and is sized when two keys first part, as small as
//! keeps their next symbols in different slots. Keys are byte sequences, read as whole bytes,
//! as nibbles or as bits.

pub mod child;
pub mod keys;
pub mod laws;
pub mod lemmas;
pub mod model;
pub mod nodes;
pub mod prelude;
pub mod render;
pub mod text;
pub mod tries;

pub use crate::keys::BytesKey;
pub use crate::nodes::AdaptiveNode;
pub use crate::tries::{BitTrie, ByteTrie, BytesTrie, NibbleTrie};
