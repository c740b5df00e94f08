//! Nodes of the trie, and the search for the size of a slot table.

use vstd::prelude::*;
use crate::child::{Child, MAX_CHILD_SIZE};
use crate::keys::{lemma_common_prefix, BytesKey, KeyMatch};
use crate::laws::{
    lemma_insert_contents, lemma_insert_node_contents, lemma_smallest_upgrade_minimal,
};
use crate::lemmas::{lemma_add_child_keeps, lemma_insert_node_keeps, lemma_smallest_upgrade_valid};
use crate::model::{
    empty_slots, in_progression, lemma_first_separating, lemma_slot_size, next_size_spec,
    separates, slot_of, smallest_upgrade_spec, valid_size, Tree,
};

verus! {

/// The size of a slot table that does not exist.
pub const NO_CHILD: usize = 0;

/// A node of an adaptive compressed trie over keys of byte-sized symbols.
///
/// A node with a value stands for a key that ends at it. A node without a value is there to
/// part the keys below it.
#[derive(Debug)]
pub struct AdaptiveNode<K: BytesKey, V> {
    /// The residual key: what the path from the root has not spelled yet.
    pub(crate) key: K,
    /// The value stored under the key that ends here.
    pub(crate) value: Option<V>,
    /// The children.
    pub(crate) child: Option<Child<K, V>>,
}

/// Another name for `AdaptiveNode`.
pub type BytesNode<K, V> = AdaptiveNode<K, V>;

impl<K: BytesKey, V> View for AdaptiveNode<K, V> {
    type V = Tree<V>;

    open(crate) spec fn view(&self) -> Tree<V> {
        self.tree()
    }
}

impl<K: BytesKey, V> AdaptiveNode<K, V> {
    /// The node as a tree of residual keys, values and slot tables.
    pub open(crate) spec fn tree(&self) -> Tree<V>
        decreases self,
    {
        Tree {
            key: self.key@,
            value: self.value,
            child: match self.child {
                None => None,
                Some(child) => Some(child.table()),
            },
        }
    }
}

impl<K: BytesKey, V> Default for AdaptiveNode<K, V> {
    /// The root of an empty trie: no key, no value, no children.
    fn default() -> (node: Self)
        ensures
            node@ == Tree::<V>::empty(),
    {
        let node = Self::new(K::new(Vec::new()), None);
        proof {
            assert(node@.key =~= Seq::<u8>::empty());
        }
        node
    }
}

/// Give back the spare capacity of a buffer of symbols.
///
/// Calls `Vec::shrink_to_fit`, which changes the capacity only: the symbols stay as they are.
#[verifier::external_body]
fn shrink(symbols: &mut Vec<u8>)
    ensures
        final(symbols)@ == old(symbols)@,
{
    symbols.shrink_to_fit()
}

impl<K: BytesKey, V> AdaptiveNode<K, V> {
    /// Create a node without children from a key and a value.
    pub fn new(key: K, value: Option<V>) -> (node: Self)
        ensures
            node@ == Tree::leaf(key@, value),
            node@.wf(),
    {
        Self { key, value, child: None }
    }

    /// The residual key of the node.
    pub fn key(&self) -> (key: &K)
        ensures
            key@ == self@.key,
    {
        &self.key
    }

    /// The value stored at the node, if any.
    pub fn value(&self) -> (value: &Option<V>)
        ensures
            *value == self@.value,
    {
        &self.value
    }

    /// The slot table of the node, if it has one.
    pub fn child(&self) -> (child: Option<&Child<K, V>>)
        ensures
            match child {
                Some(table) => self@.child == Some(table@),
                None => self@.child is None,
            },
    {
        self.child.as_ref()
    }

    /// Number of slots of the node's table, `NO_CHILD` if it has none.
    pub fn child_size(&self) -> (size: usize)
        ensures
            size == self@.child_size(),
    {
        match &self.child {
            Some(child) => child.size(),
            None => NO_CHILD,
        }
    }

    /// Insert a key into the node.
    ///
    /// This may cause the node to shrink its key, split into an empty parent, get a slot table,
    /// or simply get a new child.
    pub fn insert(&mut self, key: K, value: Option<V>)
        requires
            old(self)@.wf(),
        ensures
            final(self)@ == old(self)@.insert(key@, value),
            final(self)@.wf(),
            final(self)@.contents() == match value {
                Some(v) => old(self)@.contents().insert(key@, v),
                None => old(self)@.contents().remove(key@),
            },
    {
        proof {
            lemma_insert_contents(self@, key@, value);
        }
        if self.child.is_none() && self.value.is_none() && self.key.get().is_empty() {
            self.key = key;
            self.value = value;
        } else {
            self.insert_node(Self::new(key, value));
        }
    }

    /// Insert a node into the node.
    ///
    /// This may cause the node to shrink its key, split into an empty parent, get a slot table,
    /// or simply get a new child.
    pub fn insert_node(&mut self, new: Self)
        requires
            old(self)@.wf(),
            new@.wf(),
        ensures
            final(self)@ == old(self)@.insert_node(new@),
            final(self)@.wf(),
            new@.child is None ==> final(self)@.contents() == match new@.value {
                Some(v) => old(self)@.contents().insert(new@.key, v),
                None => old(self)@.contents().remove(new@.key),
            },
        decreases 2 * (old(self)@.size() + new@.size()), 1nat,
    {
        let mut new = new;
        proof {
            lemma_common_prefix(self@.key, new@.key);
            lemma_insert_node_keeps(self@, new@, 0, 0);
            if new@.child is None {
                lemma_insert_node_contents(self@, new@);
            }
        }
        match self.key.compare(&new.key) {
            // The same full key: the same edge, whose value is replaced.
            KeyMatch::Exact => self.value = new.value,
            // The new node becomes a child of the current node.
            KeyMatch::FullSelf(idx) => {
                new.key = K::new(new.key.get_mut().split_off(idx));
                proof {
                    let slots = self@.slots_for_child();
                    let slot = slot_of(new@.key[0], slots.len() as int);
                    if self@.child is Some && slots[slot] is Some {
                        lemma_slot_size(slots, slot);
                    }
                }
                self.add_child_node(new)
            },
            // The new node becomes the parent of the current node.
            KeyMatch::FullOther(idx) => {
                let current_node = self.replace_to(idx, new.value, new.child);
                proof {
                    let slots = self@.slots_for_child();
                    let slot = slot_of(current_node@.key[0], slots.len() as int);
                    if self@.child is Some && slots[slot] is Some {
                        lemma_slot_size(slots, slot);
                    }
                }
                self.add_child_node(current_node);
            },
            // An ancestor is made to parent the current and the new node.
            KeyMatch::Partial(idx) => self.insert_ancestor(new, idx),
            KeyMatch::NoMatch => self.insert_ancestor(new, 0),
        }
    }

    // Both keys have a symbol at `idx` here, and the two symbols differ.
    fn insert_ancestor(&mut self, new: Self, idx: usize)
        requires
            old(self)@.wf(),
            new@.wf(),
            idx < old(self)@.key.len(),
            idx < new@.key.len(),
            old(self)@.key[idx as int] != new@.key[idx as int],
        ensures
            final(self)@ == old(self)@.branch(new@, idx as int),
        decreases 2 * (old(self)@.size() + new@.size()), 0nat,
    {
        let mut new = new;
        let size = self.smallest_ancestor_size(&new, idx);
        proof {
            let start = self@.child_size();
            if start < 256 {
                lemma_first_separating(
                    next_size_spec(start),
                    self@.key[idx as int],
                    new@.key[idx as int],
                );
            }
        }

        let current_node = self.replace_to(idx, None, Some(Child::new(size)));
        let new_node = new.replace_to(idx, None, Some(Child::new(size)));

        proof {
            lemma_smallest_upgrade_valid(
                old(self)@.child_size(),
                old(self)@.key[idx as int],
                new@.key[idx as int],
            );
            assert(self@.child.unwrap() =~= empty_slots::<V>(size as int));
        }
        self.add_child_node(current_node);
        proof {
            let emptied = Tree {
                key: old(self)@.key.take(idx as int),
                value: None,
                child: Some(empty_slots::<V>(size as int)),
            };
            lemma_add_child_keeps(emptied, current_node@, 0, 0);
        }
        self.add_child_node(new_node);
    }

    /// Find the smallest table size for an ancestor that keeps the two symbols at `hash_idx`
    /// apart.
    fn smallest_ancestor_size(&self, other: &Self, hash_idx: usize) -> (size: usize)
        requires
            hash_idx < self@.key.len(),
            hash_idx < other@.key.len(),
        ensures
            size == smallest_upgrade_spec(
                self@.child_size(),
                self@.key[hash_idx as int],
                other@.key[hash_idx as int],
            ),
    {
        let lhs = self.key.get()[hash_idx];
        let rhs = other.key.get()[hash_idx];
        smallest_upgrade(self.child_size(), lhs, rhs)
    }

    // The child's key has at least one symbol here.
    fn add_child_node(&mut self, child: Self)
        requires
            old(self)@.wf(),
            child@.wf(),
            child@.key.len() > 0,
        ensures
            final(self)@ == old(self)@.add_child(child@),
        decreases old(self)@.add_child_measure(child@), 0nat,
    {
        if self.child.is_none() {
            self.child = Some(Child::new(1));
        }
        let current_child = self.child.as_mut().unwrap();
        let slot = current_child.calculate_slot(child.key.get()[0]);

        match current_child.at(slot) {
            Some(existing) => existing.insert_node(child),
            None => current_child.put(slot, child),
        }
    }

    /// Shrink the node to the first `to` symbols of its key, give it `value` and `child`, and
    /// return the excess as a new node.
    fn replace_to(&mut self, to: usize, value: Option<V>, child: Option<Child<K, V>>) -> (excess:
        Self)
        requires
            to <= old(self)@.key.len(),
        ensures
            excess@ == old(self)@.suffix(to as int),
            final(self)@ == (Tree {
                key: old(self)@.key.take(to as int),
                value: value,
                child: match child {
                    None => None,
                    Some(c) => Some(c@),
                },
            }),
    {
        let excess = Self {
            key: K::new(self.key.get_mut().split_off(to)),
            value: self.value.take(),
            child: self.child.take(),
        };

        shrink(self.key.get_mut());
        self.value = value;
        self.child = child;
        excess
    }
}

/// Find the smallest size after `size` at which `lhs` and `rhs` fall into different slots.
///
/// The sizes are tried in the order of the progression, starting after `size`, where 0 stands
/// for "no table yet". If none below 256 keeps the symbols apart, or `size` is not in the
/// progression, the result is 256.
pub fn smallest_upgrade(size: usize, lhs: u8, rhs: u8) -> (upgrade: usize)
    ensures
        upgrade == smallest_upgrade_spec(size as int, lhs, rhs),
        valid_size(upgrade as int),
        in_progression(size as int) && size <= 128 && lhs != rhs ==> {
            &&& size < upgrade
            &&& separates(upgrade as int, lhs, rhs)
            &&& forall|between: int|
                valid_size(between) && size < between < upgrade ==> !separates(between, lhs, rhs)
        },
{
    let mut current: usize = size;
    loop
        invariant
            smallest_upgrade_spec(current as int, lhs, rhs) == smallest_upgrade_spec(
                size as int,
                lhs,
                rhs,
            ),
        decreases 512 - next_size_spec(current as int),
    {
        let next: usize = next_size(current);
        if next == MAX_CHILD_SIZE || (lhs as usize % next) != (rhs as usize % next) {
            proof {
                lemma_smallest_upgrade_valid(size as int, lhs, rhs);
                if in_progression(size as int) && size <= 128 && lhs != rhs {
                    lemma_smallest_upgrade_minimal(size as int, lhs, rhs);
                }
            }
            return next;
        }
        current = next;
    }
}

/// Find the next valid child size based on the current size.
pub fn next_size(size: usize) -> (next: usize)
    ensures
        next == next_size_spec(size as int),
{
    match size {
        0 => 1,
        1 => 2,
        2 => 4,
        4 => 8,
        8 => 16,
        16 => 32,
        32 => 64,
        64 => 128,
        _ => MAX_CHILD_SIZE,
    }
}

} // verus!
