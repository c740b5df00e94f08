//! Proofs about insertion: that it keeps a tree well-formed, what it does to the walk along
//! a key, and that a second insertion of the same node changes nothing.

use vstd::prelude::*;
use crate::keys::{common_prefix_len, lemma_common_prefix, lemma_common_prefix_unique};
use crate::model::{
    entries_map, lemma_first_separating, lemma_slot_size, next_size_spec, slot_of,
    smallest_upgrade_spec, valid_size, Tree,
};

verus! {

/// The size that the search for a table size returns is a valid size.
pub proof fn lemma_smallest_upgrade_valid(start: int, lhs: u8, rhs: u8)
    ensures
        valid_size(smallest_upgrade_spec(start, lhs, rhs)),
{
    if valid_size(next_size_spec(start)) {
        lemma_first_separating(next_size_spec(start), lhs, rhs);
    }
}

/// Splitting a well-formed node against a well-formed node at an index that both keys have
/// gives a well-formed branch node, which stands in every slot that both nodes stood in.
pub proof fn lemma_branch_keeps<V>(node: Tree<V>, new: Tree<V>, idx: int, size: int, slot: int)
    requires
        node.wf(),
        new.wf(),
        0 <= idx < node.key.len(),
        idx < new.key.len(),
        node.key.take(idx) == new.key.take(idx),
    ensures
        node.branch(new, idx).wf(),
        node.in_slot(size, slot) && new.key.len() > 0 && slot_of(new.key[0], size) == slot
            ==> node.branch(new, idx).in_slot(size, slot),
{
    let table_size = smallest_upgrade_spec(node.child_size(), node.key[idx], new.key[idx]);
    lemma_smallest_upgrade_valid(node.child_size(), node.key[idx], new.key[idx]);
    let branch = node.branch(new, idx);
    let slots = branch.child.unwrap();
    assert forall|i: int| 0 <= i < slots.len() && slots[i] is Some implies {
        &&& (#[trigger] slots[i]).unwrap().wf()
        &&& slots[i].unwrap().in_slot(slots.len() as int, i)
    } by {
        let below = slots[i].unwrap();
        if i == slot_of(new.key[idx], table_size) {
            assert(below == new.suffix(idx));
        } else {
            assert(below == node.suffix(idx));
        }
        assert(below.key.len() > 0);
    }
    if node.in_slot(size, slot) && new.key.len() > 0 && slot_of(new.key[0], size) == slot {
        if idx > 0 {
            assert(branch.key[0] == node.key[0]);
        } else {
            assert forall|i: int| 0 <= i < slots.len() && slots[i] is Some implies (
            #[trigger] slots[i]).unwrap().in_slot(size, slot) by {
                let below = slots[i].unwrap();
                if i == slot_of(new.key[idx], table_size) {
                    assert(below == new.suffix(idx));
                } else {
                    assert(below == node.suffix(idx));
                }
                assert(below.key.len() > 0);
            }
        }
    }
}

/// Adding a well-formed child with a key below a well-formed node gives a well-formed node,
/// which stands in every slot that both the node and the child stood in.
pub proof fn lemma_add_child_keeps<V>(node: Tree<V>, child: Tree<V>, size: int, slot: int)
    requires
        node.wf(),
        child.wf(),
        child.key.len() > 0,
    ensures
        node.add_child(child).wf(),
        node.in_slot(size, slot) && slot_of(child.key[0], size) == slot ==> node.add_child(
            child,
        ).in_slot(size, slot),
    decreases node.add_child_measure(child), 0nat,
{
    let slots = node.slots_for_child();
    let at = slot_of(child.key[0], slots.len() as int);
    let after = node.add_child(child).child.unwrap();
    match slots[at] {
        None => {},
        Some(existing) => {
            lemma_insert_node_keeps(existing, child, slots.len() as int, at);
            lemma_insert_node_keeps(existing, child, size, slot);
        },
    }
    assert forall|i: int| 0 <= i < after.len() && after[i] is Some implies {
        &&& (#[trigger] after[i]).unwrap().wf()
        &&& after[i].unwrap().in_slot(after.len() as int, i)
    } by {
        if i != at {
            assert(after[i] == slots[i]);
        }
    }
    if node.in_slot(size, slot) && slot_of(child.key[0], size) == slot && node.key.len() == 0 {
        assert forall|i: int| 0 <= i < after.len() && after[i] is Some implies (
        #[trigger] after[i]).unwrap().in_slot(size, slot) by {
            if i != at {
                assert(after[i] == slots[i]);
            }
        }
    }
}

/// Inserting a well-formed node into a well-formed node gives a well-formed node, which stands
/// in every slot that both stood in.
pub proof fn lemma_insert_node_keeps<V>(node: Tree<V>, new: Tree<V>, size: int, slot: int)
    requires
        node.wf(),
        new.wf(),
    ensures
        node.insert_node(new).wf(),
        node.in_slot(size, slot) && new.key.len() > 0 && slot_of(new.key[0], size) == slot
            ==> node.insert_node(new).in_slot(size, slot),
    decreases 2 * (node.size() + new.size()), 1nat,
{
    lemma_common_prefix(node.key, new.key);
    let idx = common_prefix_len(node.key, new.key) as int;
    assert(node.key.take(node.key.len() as int) == node.key);
    assert(new.key.take(new.key.len() as int) == new.key);
    if idx == node.key.len() && idx == new.key.len() {
    } else if idx == node.key.len() {
        let slots = node.slots_for_child();
        let child = new.suffix(idx);
        let at = slot_of(child.key[0], slots.len() as int);
        if node.child is Some && slots[at] is Some {
            lemma_slot_size(slots, at);
        }
        lemma_add_child_keeps(node, child, size, slot);
    } else if idx == new.key.len() {
        let top = node.top(new, idx);
        let slots = top.slots_for_child();
        let child = node.suffix(idx);
        let at = slot_of(child.key[0], slots.len() as int);
        if new.child is Some && slots[at] is Some {
            lemma_slot_size(slots, at);
        }
        lemma_add_child_keeps(top, child, size, slot);
        if new.key.len() > 0 {
            assert(node.key.take(idx)[0] == new.key[0]);
        }
    } else {
        lemma_branch_keeps(node, new, idx, size, slot);
    }
}

/// In a node that may stand in a slot, every stored key starts with a symbol of that slot.
pub proof fn lemma_stored_in_slot<V>(node: Tree<V>, size: int, slot: int, key: Seq<u8>, value: V)
    requires
        node.in_slot(size, slot),
        node.stores(key, value),
    ensures
        key.len() > 0,
        slot_of(key[0], size) == slot,
    decreases node,
{
    if node.key.len() > 0 {
        assert(key[0] == node.key[0]);
    } else {
        assert(key.skip(0) == key);
        let slots = node.child.unwrap();
        let i = choose|i: int|
            0 <= i < slots.len() && (#[trigger] slots[i]) is Some && slots[i].unwrap().stores(
                key,
                value,
            );
        lemma_stored_in_slot(slots[i].unwrap(), size, slot, key, value);
    }
}

/// In a well-formed tree a key is stored with a value exactly if the walk along the key
/// meets that value.
pub proof fn lemma_stores_lookup<V>(node: Tree<V>, key: Seq<u8>, value: V)
    requires
        node.wf(),
    ensures
        node.stores(key, value) <==> node.lookup(key) == Some(value),
    decreases node,
{
    if node.key.is_prefix_of(key) {
        let rest = key.skip(node.key.len() as int);
        match node.child {
            None => {},
            Some(slots) => {
                let at = slot_of(rest[0], slots.len() as int);
                if node.stores(key, value) && !(rest.len() == 0 && node.value == Some(value)) {
                    let i = choose|i: int|
                        0 <= i < slots.len() && (#[trigger] slots[i]) is Some && slots[i].unwrap().stores(
                            rest,
                            value,
                        );
                    lemma_stored_in_slot(slots[i].unwrap(), slots.len() as int, i, rest, value);
                    lemma_stores_lookup(slots[i].unwrap(), rest, value);
                }
                if rest.len() > 0 && slots[at] is Some {
                    lemma_stores_lookup(slots[at].unwrap(), rest, value);
                }
            },
        }
    }
}

/// The contents of a well-formed tree map each key to what the walk along it meets.
pub proof fn lemma_contents_lookup<V>(node: Tree<V>)
    requires
        node.wf(),
    ensures
        forall|key: Seq<u8>| #[trigger]
            node.contents().contains_key(key) <==> node.lookup(key) is Some,
        forall|key: Seq<u8>|
            node.lookup(key) is Some ==> #[trigger] node.contents()[key] == node.lookup(
                key,
            ).unwrap(),
{
    assert forall|key: Seq<u8>| #[trigger]
        node.contents().contains_key(key) <==> node.lookup(key) is Some by {
        if node.contents().contains_key(key) {
            let value = choose|value: V| node.stores(key, value);
            lemma_stores_lookup(node, key, value);
        }
        if node.lookup(key) is Some {
            lemma_stores_lookup(node, key, node.lookup(key).unwrap());
        }
    }
    assert forall|key: Seq<u8>| node.lookup(key) is Some implies #[trigger] node.contents()[key]
        == node.lookup(key).unwrap() by {
        lemma_stores_lookup(node, key, node.lookup(key).unwrap());
        let value = choose|value: V| node.stores(key, value);
        lemma_stores_lookup(node, key, value);
    }
}

/// The walk along a key in a leaf meets the leaf's value for the leaf's own key, and nothing
/// for any other key.
pub proof fn lemma_leaf_lookup<V>(leaf: Tree<V>, key: Seq<u8>)
    requires
        leaf.child is None,
    ensures
        leaf.lookup(key) == if key == leaf.key {
            leaf.value
        } else {
            None
        },
{
    if leaf.key.is_prefix_of(key) {
        if key.skip(leaf.key.len() as int).len() == 0 {
            assert(key =~= leaf.key);
        }
    }
}

/// After a leaf was added below a node, the walk along a key meets the leaf's value if the
/// key is the node's key followed by the leaf's key, and else what it met before.
pub proof fn lemma_add_child_lookup<V>(node: Tree<V>, child: Tree<V>, key: Seq<u8>)
    requires
        node.wf(),
        child.child is None,
        child.key.len() > 0,
    ensures
        node.add_child(child).lookup(key) == if key == node.key + child.key {
            child.value
        } else {
            node.lookup(key)
        },
    decreases node.add_child_measure(child), 0nat,
{
    let slots = node.slots_for_child();
    let at = slot_of(child.key[0], slots.len() as int);
    let after = node.add_child(child);
    if node.key.is_prefix_of(key) {
        let rest = key.skip(node.key.len() as int);
        assert(key =~= node.key + rest);
        assert((node.key + child.key).skip(node.key.len() as int) =~= child.key);
        if rest.len() > 0 {
            let i = slot_of(rest[0], slots.len() as int);
            if i == at {
                match slots[at] {
                    None => {
                        lemma_leaf_lookup(child, rest);
                    },
                    Some(existing) => {
                        lemma_insert_node_lookup(existing, child, rest);
                    },
                }
            } else {
                assert(after.child.unwrap()[i] == slots[i]);
            }
        }
    } else {
        assert(node.key.is_prefix_of(node.key + child.key));
    }
}

/// Taking the first symbols off a node's key takes them off every key that the walk finds.
pub proof fn lemma_suffix_lookup<V>(node: Tree<V>, idx: int, rest: Seq<u8>)
    requires
        0 <= idx <= node.key.len(),
    ensures
        node.suffix(idx).lookup(rest) == node.lookup(node.key.take(idx) + rest),
{
    let front = node.key.take(idx);
    let back = node.suffix(idx);
    let key = front + rest;
    assert(node.key =~= front + back.key);
    if back.key.is_prefix_of(rest) {
        assert(node.key.is_prefix_of(key));
        assert(rest.skip(back.key.len() as int) =~= key.skip(node.key.len() as int));
    } else if node.key.is_prefix_of(key) {
        assert(back.key =~= rest.subrange(0, back.key.len() as int));
    }
}

/// A key that does not start with the first symbols of a node's key is not found by the walk.
pub proof fn lemma_lookup_needs_prefix<V>(node: Tree<V>, idx: int, key: Seq<u8>)
    requires
        0 <= idx <= node.key.len(),
        !node.key.take(idx).is_prefix_of(key),
    ensures
        node.lookup(key) is None,
{
    if node.key.is_prefix_of(key) {
        assert(node.key.take(idx) =~= key.subrange(0, idx));
    }
}

/// Where the key of a leaf is a strict prefix of a node's key and the leaf is put above the
/// node, the walk along a key meets the leaf's value if the key is the leaf's key, and else
/// what it met before.
pub proof fn lemma_parent_lookup<V>(node: Tree<V>, new: Tree<V>, key: Seq<u8>)
    requires
        new.child is None,
        new.key.len() < node.key.len(),
        node.key.take(new.key.len() as int) == new.key,
    ensures
        node.top(new, new.key.len() as int).add_child(node.suffix(new.key.len() as int)).lookup(key)
            == if key == new.key {
            new.value
        } else {
            node.lookup(key)
        },
{
    let idx = new.key.len() as int;
    let top = node.top(new, idx);
    let below = node.suffix(idx);
    let after = top.add_child(below);
    assert(top.slots_for_child().len() == 1);
    assert(after.child.unwrap() =~= seq![Some(below)]);
    if new.key.is_prefix_of(key) {
        let rest = key.skip(idx);
        assert(key =~= new.key + rest);
        if rest.len() == 0 {
        } else {
            assert(slot_of(rest[0], 1) == 0);
            lemma_suffix_lookup(node, idx, rest);
            assert(after.lookup(key) == below.lookup(rest));
        }
    } else {
        lemma_lookup_needs_prefix(node, idx, key);
    }
}

/// Where a node is split against a leaf at an index at which their keys differ, the walk along
/// a key meets the leaf's value if the key is the leaf's key, and else what it met before.
pub proof fn lemma_branch_lookup<V>(node: Tree<V>, new: Tree<V>, idx: int, key: Seq<u8>)
    requires
        new.child is None,
        0 <= idx < node.key.len(),
        idx < new.key.len(),
        node.key.take(idx) == new.key.take(idx),
        node.key[idx] != new.key[idx],
    ensures
        node.branch(new, idx).lookup(key) == if key == new.key {
            new.value
        } else {
            node.lookup(key)
        },
{
    let size = smallest_upgrade_spec(node.child_size(), node.key[idx], new.key[idx]);
    lemma_smallest_upgrade_valid(node.child_size(), node.key[idx], new.key[idx]);
    if node.child_size() < 256 {
        lemma_first_separating(next_size_spec(node.child_size()), node.key[idx], new.key[idx]);
    }
    let a = slot_of(node.key[idx], size);
    let b = slot_of(new.key[idx], size);
    assert(a != b);
    let after = node.branch(new, idx);
    let front = after.key;
    let old_rest = node.suffix(idx);
    let new_rest = new.suffix(idx);
    let slots = after.child.unwrap();
    assert(slots[a] == Some(old_rest));
    assert(slots[b] == Some(new_rest));
    assert(new.key =~= front + new_rest.key);
    if front.is_prefix_of(key) {
        let rest = key.skip(idx);
        assert(key =~= front + rest);
        lemma_suffix_lookup(node, idx, rest);
        lemma_leaf_lookup(new_rest, rest);
        if rest.len() == 0 {
            assert(old_rest.lookup(rest) is None);
        } else {
            let i = slot_of(rest[0], size);
            if i == a {
                assert(after.lookup(key) == old_rest.lookup(rest));
                assert(rest != new_rest.key);
            } else {
                if old_rest.key.is_prefix_of(rest) {
                    assert(rest[0] == old_rest.key[0]);
                }
                assert(old_rest.lookup(rest) is None);
                if i == b {
                    assert(after.lookup(key) == new_rest.lookup(rest));
                } else {
                    assert(slots[i] is None);
                    assert(rest != new_rest.key);
                }
            }
        }
    } else {
        lemma_lookup_needs_prefix(node, idx, key);
        lemma_lookup_needs_prefix(new, idx, key);
        assert(new.key.is_prefix_of(new.key));
    }
}

/// After a leaf was inserted into a node, the walk along a key meets the leaf's value if the
/// key is the leaf's key, and else what it met before.
pub proof fn lemma_insert_node_lookup<V>(node: Tree<V>, new: Tree<V>, key: Seq<u8>)
    requires
        node.wf(),
        new.child is None,
    ensures
        node.insert_node(new).lookup(key) == if key == new.key {
            new.value
        } else {
            node.lookup(key)
        },
    decreases 2 * (node.size() + new.size()), 1nat,
{
    lemma_common_prefix(node.key, new.key);
    let idx = common_prefix_len(node.key, new.key) as int;
    assert(node.key.take(node.key.len() as int) == node.key);
    assert(new.key.take(new.key.len() as int) == new.key);
    if idx == node.key.len() && idx == new.key.len() {
        if key.skip(node.key.len() as int).len() == 0 && node.key.is_prefix_of(key) {
            assert(key =~= node.key);
        }
    } else if idx == node.key.len() {
        let slots = node.slots_for_child();
        let child = new.suffix(idx);
        let at = slot_of(child.key[0], slots.len() as int);
        if node.child is Some && slots[at] is Some {
            lemma_slot_size(slots, at);
        }
        lemma_add_child_lookup(node, child, key);
        assert(node.key + child.key =~= new.key);
    } else if idx == new.key.len() {
        lemma_parent_lookup(node, new, key);
    } else {
        lemma_branch_lookup(node, new, idx, key);
    }
}

/// Inserting a node into itself changes nothing.
pub proof fn lemma_insert_node_self<V>(node: Tree<V>)
    ensures
        node.insert_node(node) == node,
{
    assert(node.key.take(node.key.len() as int) == node.key);
    lemma_common_prefix_unique(node.key, node.key, node.key.len());
}

/// Adding a child a second time changes nothing.
pub proof fn lemma_add_child_twice<V>(node: Tree<V>, child: Tree<V>)
    requires
        node.wf(),
        child.wf(),
        child.key.len() > 0,
    ensures
        node.add_child(child).add_child(child) == node.add_child(child),
    decreases node.add_child_measure(child), 0nat,
{
    let slots = node.slots_for_child();
    let at = slot_of(child.key[0], slots.len() as int);
    let after = node.add_child(child);
    let placed = after.child.unwrap()[at].unwrap();
    match slots[at] {
        None => {
            lemma_insert_node_self(child);
        },
        Some(existing) => {
            lemma_insert_node_twice(existing, child);
        },
    }
    assert(after.slots_for_child().update(at, Some(placed)) =~= after.slots_for_child());
}

/// Inserting a node a second time changes nothing.
pub proof fn lemma_insert_node_twice<V>(node: Tree<V>, new: Tree<V>)
    requires
        node.wf(),
        new.wf(),
    ensures
        node.insert_node(new).insert_node(new) == node.insert_node(new),
    decreases 2 * (node.size() + new.size()), 1nat,
{
    lemma_common_prefix(node.key, new.key);
    let idx = common_prefix_len(node.key, new.key) as int;
    let after = node.insert_node(new);
    assert(node.key.take(node.key.len() as int) == node.key);
    assert(new.key.take(new.key.len() as int) == new.key);
    if idx == node.key.len() && idx == new.key.len() {
    } else if idx == node.key.len() {
        let slots = node.slots_for_child();
        let child = new.suffix(idx);
        let at = slot_of(child.key[0], slots.len() as int);
        if node.child is Some && slots[at] is Some {
            lemma_slot_size(slots, at);
        }
        lemma_add_child_twice(node, child);
    } else if idx == new.key.len() {
        assert(after.key =~= new.key);
        lemma_common_prefix_unique(after.key, new.key, new.key.len());
    } else {
        let size = smallest_upgrade_spec(node.child_size(), node.key[idx], new.key[idx]);
        lemma_smallest_upgrade_valid(node.child_size(), node.key[idx], new.key[idx]);
        assert(after == node.branch(new, idx));
        assert(after.key.take(idx) =~= new.key.take(idx));
        lemma_common_prefix_unique(after.key, new.key, idx as nat);
        let new_rest = new.suffix(idx);
        let slots = after.child.unwrap();
        let b = slot_of(new.key[idx], size);
        assert(slots[b] == Some(new_rest));
        lemma_insert_node_self(new_rest);
        assert(slots.update(b, Some(new_rest)) =~= slots);
        assert(after.add_child(new_rest) == after);
    }
}

/// An insertion leaves a node pristine only if it inserted the empty key without a value.
pub proof fn lemma_insert_node_pristine<V>(node: Tree<V>, new: Tree<V>)
    requires
        node.insert_node(new).pristine(),
    ensures
        new.key == Seq::<u8>::empty(),
        new.value is None,
{
    lemma_common_prefix(node.key, new.key);
    assert(new.key.take(new.key.len() as int) == new.key);
    assert(node.key.take(node.key.len() as int) == node.key);
    assert(new.key =~= Seq::<u8>::empty());
}

/// Every key of `entries` is a key of the map of `entries`.
pub proof fn lemma_entries_map_keys<V>(entries: Seq<(Seq<u8>, V)>, i: int)
    requires
        0 <= i < entries.len(),
    ensures
        entries_map(entries).contains_key(entries[i].0),
    decreases entries.len(),
{
    if i < entries.len() - 1 {
        lemma_entries_map_keys(entries.drop_last(), i);
    }
}

} // verus!
