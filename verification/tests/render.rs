use byte_trie::keys::{ByteKey, BytesKey};
use byte_trie::nodes::AdaptiveNode;
use byte_trie::render::{flatten_node, node_or_children, render, render_children, Rendered};
use byte_trie::tries::{BitTrie, ByteTrie, BytesTrie, NibbleTrie};

fn show<V: std::fmt::Debug>(entries: &[(String, Rendered<V>)]) -> String {
    let parts: Vec<String> = entries
        .iter()
        .map(|(key, value)| match value {
            Rendered::Value(Some(v)) => format!("{}: {:?}", key, v),
            Rendered::Value(None) => format!("{}: null", key),
            Rendered::Mapping(below) => format!("{}: {}", key, show(below)),
        })
        .collect();
    format!("{{{}}}", parts.join(", "))
}

#[test]
fn render_of_an_empty_trie_is_empty() {
    let trie: ByteTrie<u32> = ByteTrie::new();
    assert!(render(trie.root()).is_empty());
    assert!(flatten_node(trie.root()).is_empty());
}

#[test]
fn render_of_a_single_key_is_one_leaf_entry() {
    let mut trie = ByteTrie::new();
    trie.insert(&[0xAA, 0x01], 5u32);
    assert_eq!(show(&render(trie.root())), "{aa01: 5}");
}

#[test]
fn render_nests_the_children_of_a_real_node() {
    let mut trie = ByteTrie::new();
    trie.insert(&[0x01, 0x02], 1u32);
    trie.insert(&[0x01, 0x03], 2);
    trie.insert(&[0x01, 0x03, 0x04], 3);
    assert_eq!(show(&render(trie.root())), "{01: {02: 1, 03: {04: 3}}}");
}

#[test]
fn render_leaves_out_nodes_without_key() {
    let mut trie = ByteTrie::new();
    trie.insert(&[0x00], 0u32);
    trie.insert(&[0x02], 2);
    trie.insert(&[0x04], 4);
    // Slot 0 of the root's table holds a branch node without key, above 00 and 04.
    assert_eq!(show(&render(trie.root())), "{00: 0, 04: 4, 02: 2}");
}

#[test]
fn render_leaves_out_the_value_of_a_root_without_key() {
    let mut trie = ByteTrie::new();
    trie.insert(&[], 1u32);
    trie.insert(&[0x10], 2);
    assert_eq!(show(&render(trie.root())), "{10: 2}");
}

#[test]
fn render_uses_the_text_of_each_kind_of_key() {
    let mut nibbles = NibbleTrie::new();
    nibbles.insert(&[0xAB], 1u32);
    nibbles.insert(&[0xAC], 2);
    assert_eq!(show(&render(nibbles.root())), "{a: {c: 2, b: 1}}");
    let mut bits = BitTrie::new();
    bits.insert(&[0x81], 1u32);
    assert_eq!(show(&render(bits.root())), "{100000000000001: 1}");
}

#[test]
fn flatten_node_of_a_real_node_is_the_node() {
    let mut root = AdaptiveNode::new(ByteKey::new(vec![1]), Some(1u32));
    root.insert(ByteKey::new(vec![1, 2]), Some(2));
    let nodes = flatten_node(&root);
    assert_eq!(nodes.len(), 1);
    assert_eq!(nodes[0].key().get(), &[1]);
    assert_eq!(nodes[0].value(), &Some(1));
}

#[test]
fn flatten_node_looks_through_nodes_without_key() {
    let mut trie = ByteTrie::new();
    for key in [0u8, 2, 4, 8, 6] {
        trie.insert(&[key], key as u32);
    }
    let nodes = flatten_node(trie.root());
    let keys: Vec<&[u8]> = nodes.iter().map(|node| node.key().get()).collect();
    assert_eq!(keys, vec![&[0u8][..], &[8], &[4], &[2], &[6]]);
}

#[test]
fn node_or_children_gives_the_value_of_a_node_without_children() {
    let node = AdaptiveNode::new(ByteKey::new(vec![0xAB, 0xCD]), Some(7u32));
    let (key, value) = node_or_children(&node);
    assert_eq!(key, "abcd");
    assert!(matches!(value, Rendered::Value(Some(7))));
    let node: AdaptiveNode<ByteKey, u32> = AdaptiveNode::new(ByteKey::new(vec![1]), None);
    let (key, value) = node_or_children(&node);
    assert_eq!(key, "01");
    assert!(matches!(value, Rendered::Value(None)));
}

#[test]
fn node_or_children_gives_the_children_of_a_node_that_has_some() {
    let mut node = AdaptiveNode::new(ByteKey::new(vec![1]), Some(1u32));
    node.insert(ByteKey::new(vec![1, 2]), Some(2));
    let (key, value) = node_or_children(&node);
    assert_eq!(key, "01");
    match value {
        Rendered::Mapping(below) => assert_eq!(show(&below), "{02: 2}"),
        Rendered::Value(_) => panic!("the node has a child"),
    }
}

#[test]
fn render_children_goes_through_the_slots_in_order() {
    let mut node = AdaptiveNode::new(ByteKey::new(vec![1, 7]), Some(7u32));
    node.insert(ByteKey::new(vec![1, 4]), Some(4));
    let child = node.child().expect("the split made a table");
    assert_eq!(show(&render_children(child)), "{04: 4, 07: 7}");
}
