//! The slot table of a node: a fixed number of slots, each empty or holding a child node.
//!
//! A table has one of nine sizes, chosen when it is made and never changed, so that a node
//! pays only for the fan-out it needs.

use vstd::prelude::*;
use crate::keys::BytesKey;
use crate::model::{empty_slots, slot_of, table_size, valid_size, Tree};
use crate::nodes::AdaptiveNode;

verus! {

/// Maximum size of a slot table.
pub const MAX_CHILD_SIZE: usize = 256;

/// The children of a node, in a table of 1, 2, 4, ..., or 256 slots.
#[derive(Debug)]
pub struct Child<K: BytesKey, V> {
    pub(crate) slots: Vec<Option<AdaptiveNode<K, V>>>,
}

/// The model of what a slot holds.
pub open spec fn slot_model<K: BytesKey, V>(slot: Option<AdaptiveNode<K, V>>) -> Option<Tree<V>> {
    match slot {
        None => None,
        Some(node) => Some(node@),
    }
}

impl<K: BytesKey, V> View for Child<K, V> {
    type V = Seq<Option<Tree<V>>>;

    open(crate) spec fn view(&self) -> Seq<Option<Tree<V>>> {
        self.table()
    }
}

impl<K: BytesKey, V> Child<K, V> {
    /// The table as a sequence of slots, each empty or holding the model of a node.
    pub open(crate) spec fn table(&self) -> Seq<Option<Tree<V>>>
        decreases self,
    {
        Seq::new(
            self.slots@.len(),
            |i: int|
                if 0 <= i < self.slots@.len() {
                    match self.slots@[i] {
                        None => None,
                        Some(node) => Some(node.tree()),
                    }
                } else {
                    None
                },
        )
    }

    /// Well-formedness: the table has one of the nine valid sizes.
    pub open spec fn wf(&self) -> bool {
        valid_size(self@.len() as int)
    }

    /// Make a table of `size` empty slots, or of one slot if `size` is not a valid size.
    pub fn new(size: usize) -> (child: Self)
        ensures
            child@ == empty_slots::<V>(table_size(size as int)),
            child.wf(),
    {
        let count: usize = match size {
            1 => 1,
            2 => 2,
            4 => 4,
            8 => 8,
            16 => 16,
            32 => 32,
            64 => 64,
            128 => 128,
            256 => MAX_CHILD_SIZE,
            _ => 1,
        };
        let mut slots: Vec<Option<AdaptiveNode<K, V>>> = Vec::new();
        let mut i: usize = 0;
        while i < count
            invariant
                i <= count,
                slots@.len() == i,
                forall|j: int| 0 <= j < i ==> slots@[j] is None,
            decreases count - i,
        {
            slots.push(None);
            i += 1;
        }
        let child = Child { slots };
        proof {
            assert(child@ =~= empty_slots::<V>(table_size(size as int)));
        }
        child
    }

    /// The slot that `byte` falls into.
    pub(crate) fn calculate_slot(&self, byte: u8) -> (slot: usize)
        requires
            self@.len() > 0,
        ensures
            slot == slot_of(byte, self@.len() as int),
            slot < self@.len(),
    {
        byte as usize % self.size()
    }

    /// The node in `slot`, open to change, if the slot holds one.
    pub(crate) fn at(&mut self, slot: usize) -> (node: Option<&mut AdaptiveNode<K, V>>)
        requires
            slot < old(self)@.len(),
        ensures
            match node {
                Some(n) => old(self)@[slot as int] == Some(n@) && final(self)@ == old(self)@.update(
                    slot as int,
                    Some(final(n)@),
                ),
                None => old(self)@[slot as int] is None && final(self)@ == old(self)@,
            },
    {
        self.get_mut()[slot].as_mut()
    }

    /// Store `node` in `slot`, in place of what the slot held.
    pub(crate) fn put(&mut self, slot: usize, node: AdaptiveNode<K, V>)
        requires
            slot < old(self)@.len(),
        ensures
            final(self)@ == old(self)@.update(slot as int, Some(node@)),
    {
        self.get_mut()[slot] = Some(node);
    }

    /// The slots, open to change.
    pub(crate) fn get_mut(&mut self) -> (slots: &mut [Option<AdaptiveNode<K, V>>])
        ensures
            slots@ == old(self).slots@,
            final(self).slots@ == final(slots)@,
    {
        self.slots.as_mut_slice()
    }

    /// The slots, first to last.
    pub fn get(&self) -> (slots: &[Option<AdaptiveNode<K, V>>])
        ensures
            slots@.len() == self@.len(),
            forall|i: int| 0 <= i < slots@.len() ==> slot_model(#[trigger] slots@[i]) == self@[i],
    {
        self.slots.as_slice()
    }

    /// Whether no slot holds a node.
    pub fn is_empty(&self) -> (empty: bool)
        ensures
            empty == forall|i: int| 0 <= i < self@.len() ==> (#[trigger] self@[i]) is None,
    {
        let slots = self.get();
        let mut i: usize = 0;
        while i < slots.len()
            invariant
                i <= slots.len(),
                slots@.len() == self@.len(),
                forall|j: int| 0 <= j < slots@.len() ==> slot_model(#[trigger] slots@[j]) == self@[j],
                forall|j: int| 0 <= j < i ==> (#[trigger] self@[j]) is None,
            decreases slots.len() - i,
        {
            if slots[i].is_some() {
                proof {
                    assert(self@[i as int] is Some);
                }
                return false;
            }
            i += 1;
        }
        true
    }

    /// Number of slots of the table.
    pub fn size(&self) -> (size: usize)
        ensures
            size == self@.len(),
    {
        proof {
            assert(self@.len() == self.slots@.len());
        }
        self.slots.len()
    }
}

} // verus!
