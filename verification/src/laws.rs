//! What holds of insertion and of the search for a table size, whatever the tree and the
//! symbols are.

use vstd::prelude::*;
use crate::lemmas::{
    lemma_contents_lookup, lemma_entries_map_keys, lemma_insert_node_keeps,
    lemma_insert_node_lookup, lemma_insert_node_pristine, lemma_insert_node_self,
    lemma_insert_node_twice, lemma_leaf_lookup, lemma_stores_lookup,
};
use crate::model::{
    entries_map, in_progression, lemma_first_separating, next_size_spec, separates, slot_of,
    smallest_upgrade_spec, valid_size, Tree,
};

verus! {

/// Inserting a leaf into a well-formed node keeps it well-formed and changes its contents at
/// the leaf's key only: the key is then stored with the leaf's value, or not stored if the leaf
/// has none.
pub proof fn lemma_insert_node_contents<V>(node: Tree<V>, new: Tree<V>)
    requires
        node.wf(),
        new.child is None,
    ensures
        node.insert_node(new).wf(),
        node.insert_node(new).contents() == match new.value {
            Some(value) => node.contents().insert(new.key, value),
            None => node.contents().remove(new.key),
        },
{
    let after = node.insert_node(new);
    lemma_insert_node_keeps(node, new, 0, 0);
    lemma_contents_lookup(node);
    lemma_contents_lookup(after);
    let expected = match new.value {
        Some(value) => node.contents().insert(new.key, value),
        None => node.contents().remove(new.key),
    };
    assert forall|key: Seq<u8>| #[trigger]
        after.contents().contains_key(key) == expected.contains_key(key) && (
        after.contents().contains_key(key) ==> after.contents()[key] == expected[key]) by {
        lemma_insert_node_lookup(node, new, key);
    }
    assert(after.contents() =~= expected);
}

/// Inserting a key into a well-formed root keeps it well-formed and changes its contents at
/// that key only: the key is then stored with the value, or not stored if no value was given.
pub proof fn lemma_insert_contents<V>(root: Tree<V>, key: Seq<u8>, value: Option<V>)
    requires
        root.wf(),
    ensures
        root.insert(key, value).wf(),
        root.insert(key, value).contents() == match value {
            Some(v) => root.contents().insert(key, v),
            None => root.contents().remove(key),
        },
{
    if root.pristine() {
        let after = root.insert(key, value);
        lemma_contents_lookup(root);
        lemma_contents_lookup(after);
        let expected = match value {
            Some(v) => root.contents().insert(key, v),
            None => root.contents().remove(key),
        };
        assert forall|k: Seq<u8>| #[trigger]
            after.contents().contains_key(k) == expected.contains_key(k) && (
            after.contents().contains_key(k) ==> after.contents()[k] == expected[k]) by {
            lemma_leaf_lookup(after, k);
            lemma_leaf_lookup(root, k);
        }
        assert(after.contents() =~= expected);
    } else {
        lemma_insert_node_contents(root, Tree::leaf(key, value));
    }
}

/// After any sequence of insertions into an empty trie, the trie is well-formed and stores
/// exactly the inserted keys, each with the value it was last given. So for each inserted key
/// the residual keys along a path from the root to a node with that value spell the key, and
/// no path to a value spells anything else.
pub proof fn lemma_path_reconstruction<V>(entries: Seq<(Seq<u8>, V)>)
    ensures
        Tree::<V>::empty().insert_all(entries).wf(),
        Tree::<V>::empty().insert_all(entries).contents() == entries_map(entries),
        forall|i: int|
            0 <= i < entries.len() ==> Tree::<V>::empty().insert_all(entries).stores(
                (#[trigger] entries[i]).0,
                entries_map(entries)[entries[i].0],
            ),
    decreases entries.len(),
{
    let root = Tree::<V>::empty();
    let after = root.insert_all(entries);
    if entries.len() == 0 {
        lemma_contents_lookup(root);
        assert forall|key: Seq<u8>| !(#[trigger] root.contents().contains_key(key)) by {
            lemma_leaf_lookup(root, key);
        }
        assert(root.contents() =~= entries_map(entries));
    } else {
        lemma_path_reconstruction(entries.drop_last());
        lemma_insert_contents(
            root.insert_all(entries.drop_last()),
            entries.last().0,
            Some(entries.last().1),
        );
    }
    assert forall|i: int| 0 <= i < entries.len() implies after.stores(
        (#[trigger] entries[i]).0,
        entries_map(entries)[entries[i].0],
    ) by {
        lemma_entries_map_keys(entries, i);
        lemma_contents_lookup(after);
        lemma_stores_lookup(after, entries[i].0, entries_map(entries)[entries[i].0]);
    }
}

/// Inserting a stored key with another value replaces the value: the set of stored keys stays
/// as it was, and so does the value of every other key.
pub proof fn lemma_overwrite<V>(root: Tree<V>, key: Seq<u8>, value: V)
    requires
        root.wf(),
        root.contents().contains_key(key),
    ensures
        root.insert(key, Some(value)).contents().dom() == root.contents().dom(),
        root.insert(key, Some(value)).contents()[key] == value,
        forall|other: Seq<u8>|
            other != key && root.contents().contains_key(other) ==> #[trigger] root.insert(
                key,
                Some(value),
            ).contents()[other] == root.contents()[other],
{
    lemma_insert_contents(root, key, Some(value));
    assert(root.contents().insert(key, value).dom() =~= root.contents().dom());
}

/// Inserting the same key with the same value a second time leaves the tree as it is, node
/// for node.
pub proof fn lemma_insert_idempotent<V>(root: Tree<V>, key: Seq<u8>, value: Option<V>)
    requires
        root.wf(),
    ensures
        root.insert(key, value).insert(key, value) == root.insert(key, value),
{
    if root.pristine() {
        let after = root.insert(key, value);
        if !after.pristine() {
            assert(after == Tree::leaf(key, value));
            lemma_insert_node_self(after);
        }
    } else {
        let after = root.insert_node(Tree::leaf(key, value));
        lemma_insert_node_twice(root, Tree::leaf(key, value));
        if after.pristine() {
            lemma_insert_node_pristine(root, Tree::leaf(key, value));
            assert(after.key =~= key);
            assert(after.insert(key, value) == after);
        }
    }
}

/// A table keeps its size: adding a child below a node that has a table leaves the table with
/// as many slots as it had, and changes none but the slot of the child's first symbol.
pub proof fn lemma_add_child_keeps_table<V>(node: Tree<V>, child: Tree<V>)
    requires
        node.wf(),
        node.child is Some,
    ensures
        node.add_child(child).child_size() == node.child_size(),
        forall|i: int|
            0 <= i < node.child_size() && i != slot_of(child.key[0], node.child_size())
                ==> node.add_child(child).child.unwrap()[i] == #[trigger] node.child.unwrap()[i],
{
}

/// For two different symbols and a start among 0, 1, 2, 4, ..., 128, the size found is the
/// smallest that will do: a valid size after the start, 256 at most, at which the symbols
/// fall into different slots, while at every valid size between the start and it they fall
/// into the same slot.
pub proof fn lemma_smallest_upgrade_minimal(start: int, lhs: u8, rhs: u8)
    requires
        in_progression(start),
        start <= 128,
        lhs != rhs,
    ensures
        valid_size(smallest_upgrade_spec(start, lhs, rhs)),
        start < smallest_upgrade_spec(start, lhs, rhs) <= 256,
        separates(smallest_upgrade_spec(start, lhs, rhs), lhs, rhs),
        forall|size: int|
            valid_size(size) && start < size < smallest_upgrade_spec(start, lhs, rhs)
                ==> !separates(size, lhs, rhs),
{
    lemma_first_separating(next_size_spec(start), lhs, rhs);
}

} // verus!
