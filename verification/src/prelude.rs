//! The items that most users of the crate need.

pub use crate::keys::{BitKey, ByteKey, BytesKey, NibbleKey};
pub use crate::nodes::AdaptiveNode;
pub use crate::tries::{BitTrie, ByteTrie, BytesTrie, NibbleTrie};
