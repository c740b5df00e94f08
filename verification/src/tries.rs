//! Tries over whole bytes, nibbles and bits.

use vstd::prelude::*;
use crate::keys::{
    lemma_bit_encode_injective, lemma_nibble_encode_injective, BitKey, ByteKey, BytesKey,
    NibbleKey,
};
use crate::laws::lemma_path_reconstruction;
use crate::model::{entries_map, Tree};
use crate::nodes::AdaptiveNode;

verus! {

/// The map from byte keys to values that a tree over encoded keys stands for.
pub open spec fn decoded<T>(contents: Map<Seq<u8>, T>, encode: spec_fn(Seq<u8>) -> Seq<u8>) -> Map<
    Seq<u8>,
    T,
> {
    Map::new(
        |key: Seq<u8>| contents.contains_key(encode(key)),
        |key: Seq<u8>| contents[encode(key)],
    )
}

/// Storing a value under the symbols of a key stores it under the key, where no two keys have
/// the same symbols.
pub proof fn lemma_decoded_insert<T>(
    contents: Map<Seq<u8>, T>,
    encode: spec_fn(Seq<u8>) -> Seq<u8>,
    key: Seq<u8>,
    value: T,
)
    requires
        forall|a: Seq<u8>, b: Seq<u8>| #[trigger] encode(a) == #[trigger] encode(b) ==> a == b,
    ensures
        decoded(contents.insert(encode(key), value), encode) == decoded(contents, encode).insert(
            key,
            value,
        ),
{
    assert(decoded(contents.insert(encode(key), value), encode) =~= decoded(
        contents,
        encode,
    ).insert(key, value));
}

/// The entries with each key replaced by its symbols.
pub open spec fn encoded<T>(entries: Seq<(Seq<u8>, T)>, encode: spec_fn(Seq<u8>) -> Seq<u8>) -> Seq<
    (Seq<u8>, T),
> {
    entries.map_values(|entry: (Seq<u8>, T)| (encode(entry.0), entry.1))
}

/// Whatever symbols the keys are read as, as long as no two keys have the same symbols: after
/// any sequence of insertions into an empty trie, the trie stores exactly the inserted keys,
/// each with the value it was last given.
pub proof fn lemma_stores_what_was_inserted<T>(
    entries: Seq<(Seq<u8>, T)>,
    encode: spec_fn(Seq<u8>) -> Seq<u8>,
)
    requires
        forall|a: Seq<u8>, b: Seq<u8>| #[trigger] encode(a) == #[trigger] encode(b) ==> a == b,
    ensures
        decoded(Tree::<T>::empty().insert_all(encoded(entries, encode)).contents(), encode)
            == entries_map(entries),
    decreases entries.len(),
{
    lemma_path_reconstruction(encoded(entries, encode));
    lemma_decoded_entries(entries, encode);
}

/// The map of the entries by symbols, read by keys, is the map of the entries by keys.
pub proof fn lemma_decoded_entries<T>(
    entries: Seq<(Seq<u8>, T)>,
    encode: spec_fn(Seq<u8>) -> Seq<u8>,
)
    requires
        forall|a: Seq<u8>, b: Seq<u8>| #[trigger] encode(a) == #[trigger] encode(b) ==> a == b,
    ensures
        decoded(entries_map(encoded(entries, encode)), encode) == entries_map(entries),
    decreases entries.len(),
{
    if entries.len() == 0 {
        assert(decoded(entries_map(encoded(entries, encode)), encode) =~= entries_map(entries));
    } else {
        lemma_decoded_entries(entries.drop_last(), encode);
        assert(encoded(entries, encode).drop_last() =~= encoded(entries.drop_last(), encode));
        lemma_decoded_insert(
            entries_map(encoded(entries.drop_last(), encode)),
            encode,
            entries.last().0,
            entries.last().1,
        );
    }
}

/// A trie whose keys are byte sequences and whose edge symbols fit a `u8`: bytes, nibbles or
/// bits.
pub trait BytesTrie<T>: View<V = Map<Seq<u8>, T>> + Sized {
    /// The edge symbols that a key is stored under.
    spec fn encode(key: Seq<u8>) -> Seq<u8>;

    /// The root node and all below it.
    spec fn tree(&self) -> Tree<T>;

    /// Well-formedness of the trie.
    spec fn wf(&self) -> bool;

    /// The tree of a well-formed trie is well-formed, and the view of the trie is what the
    /// tree stores: a key in bytes has the value that the tree stores for its symbols.
    proof fn lemma_view(&self)
        requires
            self.wf(),
        ensures
            self.tree().wf(),
            self@ == decoded(self.tree().contents(), |key: Seq<u8>| Self::encode(key)),
    ;

    /// Create an empty trie.
    fn new() -> (trie: Self)
        ensures
            trie.wf(),
            trie.tree() == Tree::<T>::empty(),
            trie@ == Map::<Seq<u8>, T>::empty(),
    ;

    /// Insert a key and a value into the trie. A value stored under the key before is replaced.
    fn insert(&mut self, key: &[u8], value: T)
        requires
            old(self).wf(),
        ensures
            final(self).wf(),
            final(self).tree() == old(self).tree().insert(Self::encode(key@), Some(value)),
            final(self)@ == old(self)@.insert(key@, value),
    ;
}

/// A trie whose edge symbols are whole bytes.
#[derive(Debug)]
pub struct ByteTrie<T> {
    pub(crate) root: AdaptiveNode<ByteKey, T>,
}

impl<T> View for ByteTrie<T> {
    type V = Map<Seq<u8>, T>;

    closed spec fn view(&self) -> Map<Seq<u8>, T> {
        decoded(self.root@.contents(), |key: Seq<u8>| ByteKey::encode(key))
    }
}

impl<T> ByteTrie<T> {
    /// The root node.
    pub fn root(&self) -> (root: &AdaptiveNode<ByteKey, T>)
        ensures
            root@ == self.tree(),
    {
        &self.root
    }
}

impl<T> BytesTrie<T> for ByteTrie<T> {
    open spec fn encode(key: Seq<u8>) -> Seq<u8> {
        ByteKey::encode(key)
    }

    closed spec fn tree(&self) -> Tree<T> {
        self.root@
    }

    closed spec fn wf(&self) -> bool {
        self.root@.wf()
    }

    proof fn lemma_view(&self) {
    }

    fn new() -> Self {
        let trie = Self { root: AdaptiveNode::default() };
        proof {
            lemma_path_reconstruction::<T>(Seq::empty());
            assert(trie@ =~= Map::<Seq<u8>, T>::empty());
        }
        trie
    }

    fn insert(&mut self, key: &[u8], value: T) {
        let key = ByteKey::from_bytes(key);
        proof {
            lemma_decoded_insert(
                self.root@.contents(),
                |key: Seq<u8>| ByteKey::encode(key),
                key@,
                value,
            );
        }
        self.root.insert(key, Some(value));
    }
}

impl<T> Default for ByteTrie<T> {
    fn default() -> (trie: Self)
        ensures
            trie.wf(),
            trie.tree() == Tree::<T>::empty(),
            trie@ == Map::<Seq<u8>, T>::empty(),
    {
        Self::new()
    }
}

/// A trie whose edge symbols are nibbles.
#[derive(Debug)]
pub struct NibbleTrie<T> {
    pub(crate) root: AdaptiveNode<NibbleKey, T>,
}

impl<T> View for NibbleTrie<T> {
    type V = Map<Seq<u8>, T>;

    closed spec fn view(&self) -> Map<Seq<u8>, T> {
        decoded(self.root@.contents(), |key: Seq<u8>| NibbleKey::encode(key))
    }
}

impl<T> NibbleTrie<T> {
    /// The root node.
    pub fn root(&self) -> (root: &AdaptiveNode<NibbleKey, T>)
        ensures
            root@ == self.tree(),
    {
        &self.root
    }
}

impl<T> BytesTrie<T> for NibbleTrie<T> {
    open spec fn encode(key: Seq<u8>) -> Seq<u8> {
        NibbleKey::encode(key)
    }

    closed spec fn tree(&self) -> Tree<T> {
        self.root@
    }

    closed spec fn wf(&self) -> bool {
        self.root@.wf()
    }

    proof fn lemma_view(&self) {
    }

    fn new() -> Self {
        let trie = Self { root: AdaptiveNode::default() };
        proof {
            lemma_path_reconstruction::<T>(Seq::empty());
            assert(trie@ =~= Map::<Seq<u8>, T>::empty());
        }
        trie
    }

    fn insert(&mut self, key: &[u8], value: T) {
        let ghost bytes = key;
        let key = NibbleKey::from_bytes(key);
        proof {
            assert forall|a: Seq<u8>, b: Seq<u8>|
                #[trigger] NibbleKey::encode(a) == #[trigger] NibbleKey::encode(b) implies a == b by {
                lemma_nibble_encode_injective(a, b);
            }
            lemma_decoded_insert(
                self.root@.contents(),
                |key: Seq<u8>| NibbleKey::encode(key),
                bytes@,
                value,
            );
        }
        self.root.insert(key, Some(value));
    }
}

/// A trie whose edge symbols are bits.
#[derive(Debug)]
pub struct BitTrie<T> {
    pub(crate) root: AdaptiveNode<BitKey, T>,
}

impl<T> View for BitTrie<T> {
    type V = Map<Seq<u8>, T>;

    closed spec fn view(&self) -> Map<Seq<u8>, T> {
        decoded(self.root@.contents(), |key: Seq<u8>| BitKey::encode(key))
    }
}

impl<T> BitTrie<T> {
    /// The root node.
    pub fn root(&self) -> (root: &AdaptiveNode<BitKey, T>)
        ensures
            root@ == self.tree(),
    {
        &self.root
    }
}

impl<T> BytesTrie<T> for BitTrie<T> {
    open spec fn encode(key: Seq<u8>) -> Seq<u8> {
        BitKey::encode(key)
    }

    closed spec fn tree(&self) -> Tree<T> {
        self.root@
    }

    closed spec fn wf(&self) -> bool {
        self.root@.wf()
    }

    proof fn lemma_view(&self) {
    }

    fn new() -> Self {
        let trie = Self { root: AdaptiveNode::default() };
        proof {
            lemma_path_reconstruction::<T>(Seq::empty());
            assert(trie@ =~= Map::<Seq<u8>, T>::empty());
        }
        trie
    }

    fn insert(&mut self, key: &[u8], value: T) {
        let ghost bytes = key;
        let key = BitKey::from_bytes(key);
        proof {
            assert forall|a: Seq<u8>, b: Seq<u8>|
                #[trigger] BitKey::encode(a) == #[trigger] BitKey::encode(b) implies a == b by {
                lemma_bit_encode_injective(a, b);
            }
            lemma_decoded_insert(
                self.root@.contents(),
                |key: Seq<u8>| BitKey::encode(key),
                bytes@,
                value,
            );
        }
        self.root.insert(key, Some(value));
    }
}

impl<T> Default for BitTrie<T> {
    fn default() -> (trie: Self)
        ensures
            trie.wf(),
            trie.tree() == Tree::<T>::empty(),
            trie@ == Map::<Seq<u8>, T>::empty(),
    {
        Self::new()
    }
}

} // verus!
