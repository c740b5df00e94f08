use std::collections::BTreeMap;

use byte_trie::keys::{BitKey, BytesKey, NibbleKey};
use byte_trie::nodes::AdaptiveNode;
use byte_trie::prelude::{BitTrie, ByteTrie, BytesTrie, NibbleTrie};

fn walk<K: BytesKey, V: Clone>(
    node: &AdaptiveNode<K, V>,
    path: &[u8],
    depth: usize,
    out: &mut Vec<(Vec<u8>, V, usize)>,
) {
    let mut here = path.to_vec();
    here.extend_from_slice(node.key().get());
    if let Some(value) = node.value() {
        out.push((here.clone(), value.clone(), depth));
    }
    if let Some(child) = node.child() {
        for below in child.get().iter().flatten() {
            walk(below, &here, depth + 1, out);
        }
    }
}

fn stored<K: BytesKey, V: Clone>(root: &AdaptiveNode<K, V>) -> Vec<(Vec<u8>, V, usize)> {
    let mut out = Vec::new();
    walk(root, &[], 0, &mut out);
    out.sort_by(|a, b| a.0.cmp(&b.0));
    out
}

fn bytes_of_nibbles(symbols: &[u8]) -> Vec<u8> {
    symbols.chunks(2).map(|pair| (pair[0] << 4) | pair[1]).collect()
}

fn bytes_of_bits(symbols: &[u8]) -> Vec<u8> {
    symbols.chunks(8).map(|bits| bits.iter().fold(0u8, |byte, bit| byte | bit)).collect()
}

#[test]
fn two_keys_part_after_one_byte() {
    let mut trie = ByteTrie::new();
    trie.insert(&[0x01, 0x02], "two");
    trie.insert(&[0x01, 0x03], "three");
    let root = trie.root();
    assert_eq!(root.key().get(), &[0x01]);
    assert!(root.value().is_none());
    let child = root.child().expect("the branch node has a table");
    // The smallest size at which 2 and 3 fall into different slots: 2 mod 2 = 0, 3 mod 2 = 1.
    assert_eq!(child.size(), 2);
    let slots = child.get();
    let two = slots[0].as_ref().expect("the leaf for 0x02");
    assert_eq!(two.key().get(), &[0x02]);
    assert_eq!(two.value(), &Some("two"));
    assert!(two.child().is_none());
    let three = slots[1].as_ref().expect("the leaf for 0x03");
    assert_eq!(three.key().get(), &[0x03]);
    assert_eq!(three.value(), &Some("three"));
    assert!(three.child().is_none());
}

#[test]
fn second_value_replaces_the_first() {
    let mut trie = ByteTrie::new();
    trie.insert(&[0xAA], "first");
    trie.insert(&[0xAA], "second");
    let root = trie.root();
    assert_eq!(root.key().get(), &[0xAA]);
    assert_eq!(root.value(), &Some("second"));
    assert!(root.child().is_none());
}

#[test]
fn empty_key_stays_at_the_root() {
    let mut trie = ByteTrie::new();
    trie.insert(&[], "root");
    trie.insert(&[0x10], "child");
    let root = trie.root();
    assert!(root.key().get().is_empty());
    assert_eq!(root.value(), &Some("root"));
    let child = root.child().expect("the root has a table");
    assert_eq!(child.size(), 1);
    let below = child.get()[0].as_ref().expect("the child");
    assert_eq!(below.key().get(), &[0x10]);
    assert_eq!(below.value(), &Some("child"));
    assert!(below.child().is_none());
}

#[test]
fn three_granularities_store_the_same_keys() {
    let keys: [&[u8]; 3] = [&[0x12, 0x34], &[0x12, 0x35], &[0x52, 0x34]];
    let mut bytes = ByteTrie::new();
    let mut nibbles = NibbleTrie::new();
    let mut bits = BitTrie::new();
    for (i, key) in keys.iter().enumerate() {
        bytes.insert(key, i);
        nibbles.insert(key, i);
        bits.insert(key, i);
    }
    let expected: Vec<(Vec<u8>, usize)> =
        vec![(vec![0x12, 0x34], 0), (vec![0x12, 0x35], 1), (vec![0x52, 0x34], 2)];

    let by_byte = stored(bytes.root());
    let by_nibble = stored(nibbles.root());
    let by_bit = stored(bits.root());

    let from_bytes: Vec<(Vec<u8>, usize)> =
        by_byte.iter().map(|e| (e.0.clone(), e.1)).collect();
    let from_nibbles: Vec<(Vec<u8>, usize)> =
        by_nibble.iter().map(|e| (bytes_of_nibbles(&e.0), e.1)).collect();
    let from_bits: Vec<(Vec<u8>, usize)> =
        by_bit.iter().map(|e| (bytes_of_bits(&e.0), e.1)).collect();
    assert_eq!(from_bytes, expected);
    assert_eq!(from_nibbles, expected);
    assert_eq!(from_bits, expected);

    // The paths are spelled in different symbols.
    assert_eq!(by_byte[1].0, vec![0x12, 0x35]);
    assert_eq!(by_nibble[1].0, vec![0x1, 0x2, 0x3, 0x5]);
    assert_eq!(
        by_bit[1].0,
        vec![0, 0, 0, 0x10, 0, 0, 0x02, 0, 0, 0, 0x20, 0x10, 0, 0x04, 0, 0x01]
    );

    // The roots differ: the finer the symbols, the sooner two keys part.
    assert_eq!(bytes.root().key().get(), &[] as &[u8]);
    assert_eq!(bytes.root().child_size(), 128);
    assert_eq!(nibbles.root().key().get(), &[] as &[u8]);
    assert_eq!(nibbles.root().child_size(), 8);
    assert_eq!(bits.root().key().get(), &[0]);
    assert_eq!(bits.root().child_size(), 128);
    assert_ne!(format!("{:?}", bytes.root()), format!("{:?}", nibbles.root()));
    assert_ne!(format!("{:?}", nibbles.root()), format!("{:?}", bits.root()));
}

#[test]
fn new_trie_is_empty() {
    let trie: ByteTrie<u32> = ByteTrie::new();
    assert!(stored(trie.root()).is_empty());
    let trie: NibbleTrie<u32> = NibbleTrie::new();
    assert!(stored(trie.root()).is_empty());
    let trie: BitTrie<u32> = BitTrie::new();
    assert!(stored(trie.root()).is_empty());
    let trie: ByteTrie<u32> = ByteTrie::default();
    assert!(trie.root().child().is_none());
    let trie: BitTrie<u32> = BitTrie::default();
    assert!(trie.root().value().is_none());
}

#[test]
fn nibble_trie_stores_under_nibbles() {
    let mut trie = NibbleTrie::new();
    trie.insert(&[0xAB], 1u32);
    trie.insert(&[0xAC], 2);
    let root = trie.root();
    assert_eq!(root.key().get(), &[0x0A]);
    assert!(root.value().is_none());
    assert_eq!(root.child_size(), 2);
    let slots = root.child().unwrap().get();
    assert_eq!(slots[1].as_ref().unwrap().key().get(), &[0x0B]);
    assert_eq!(slots[1].as_ref().unwrap().value(), &Some(1));
    assert_eq!(slots[0].as_ref().unwrap().key().get(), &[0x0C]);
    assert_eq!(slots[0].as_ref().unwrap().value(), &Some(2));
    assert_eq!(root.key().get(), NibbleKey::from_bytes(&[0xAB]).get().split_at(1).0);
}

#[test]
fn bit_trie_stores_under_masked_bits() {
    let mut trie = BitTrie::new();
    trie.insert(&[0x80], 1u32);
    trie.insert(&[0x00], 2);
    let root = trie.root();
    // The keys part at the first symbol: 0x80 against 0.
    assert!(root.key().get().is_empty());
    assert_eq!(root.child_size(), 256);
    let slots = root.child().unwrap().get();
    assert_eq!(slots[0x80].as_ref().unwrap().key().get(), BitKey::from_bytes(&[0x80]).get());
    assert_eq!(slots[0x80].as_ref().unwrap().value(), &Some(1));
    assert_eq!(slots[0].as_ref().unwrap().key().get(), BitKey::from_bytes(&[0x00]).get());
    assert_eq!(slots[0].as_ref().unwrap().value(), &Some(2));
}

#[test]
fn trie_overwrite_and_idempotence() {
    let keys: [&[u8]; 5] = [&[1, 2, 3], &[1, 2], &[9], &[], &[1, 7]];
    let mut once = NibbleTrie::new();
    let mut twice = NibbleTrie::new();
    for key in keys {
        once.insert(key, "v");
        twice.insert(key, "v");
        twice.insert(key, "v");
    }
    assert_eq!(format!("{:?}", once), format!("{:?}", twice));
    let keys_before: Vec<Vec<u8>> = stored(once.root()).into_iter().map(|e| e.0).collect();
    once.insert(&[1, 2], "w");
    let after = stored(once.root());
    let keys_after: Vec<Vec<u8>> = after.iter().map(|e| e.0.clone()).collect();
    assert_eq!(keys_before, keys_after);
    let changed: Vec<&str> = after
        .iter()
        .filter(|e| bytes_of_nibbles(&e.0) == vec![1, 2])
        .map(|e| e.1)
        .collect();
    assert_eq!(changed, vec!["w"]);
}

#[test]
fn many_keys_are_all_spelled_by_their_paths() {
    let mut keys: Vec<Vec<u8>> = Vec::new();
    let mut state: u32 = 12345;
    for _ in 0..300 {
        let mut key = Vec::new();
        state = state.wrapping_mul(1103515245).wrapping_add(12345);
        let len = (state >> 16) % 5;
        for _ in 0..len {
            state = state.wrapping_mul(1103515245).wrapping_add(12345);
            key.push((state >> 16) as u8 & 0x1F);
        }
        keys.push(key);
    }
    let mut bytes = ByteTrie::new();
    let mut nibbles = NibbleTrie::new();
    let mut bits = BitTrie::new();
    let mut expected: BTreeMap<Vec<u8>, usize> = BTreeMap::new();
    for (i, key) in keys.iter().enumerate() {
        bytes.insert(key, i);
        nibbles.insert(key, i);
        bits.insert(key, i);
        expected.insert(key.clone(), i);
    }
    let expected: Vec<(Vec<u8>, usize)> = expected.into_iter().collect();
    let from_bytes: Vec<(Vec<u8>, usize)> =
        stored(bytes.root()).into_iter().map(|e| (e.0, e.1)).collect();
    let mut from_nibbles: Vec<(Vec<u8>, usize)> =
        stored(nibbles.root()).into_iter().map(|e| (bytes_of_nibbles(&e.0), e.1)).collect();
    let mut from_bits: Vec<(Vec<u8>, usize)> =
        stored(bits.root()).into_iter().map(|e| (bytes_of_bits(&e.0), e.1)).collect();
    from_nibbles.sort();
    from_bits.sort();
    assert_eq!(from_bytes, expected);
    assert_eq!(from_nibbles, expected);
    assert_eq!(from_bits, expected);
}
