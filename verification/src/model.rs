//! The mathematical model of a node: a tree of residual keys, values and slot tables.

use vstd::prelude::*;
use crate::keys::common_prefix_len;

verus! {

/// Whether `size` is one of the nine sizes a slot table may have.
pub open spec fn valid_size(size: int) -> bool {
    size == 1 || size == 2 || size == 4 || size == 8 || size == 16 || size == 32 || size == 64
        || size == 128 || size == 256
}

/// Whether `size` is a table size, or 0 for "no table".
pub open spec fn in_progression(size: int) -> bool {
    size == 0 || valid_size(size)
}

/// The size that follows `size` in the progression 0, 1, 2, 4, ..., 256; anything that is not in
/// the progression is followed by 256.
pub open spec fn next_size_spec(size: int) -> int {
    if size == 0 {
        1
    } else if valid_size(size) && size < 256 {
        2 * size
    } else {
        256
    }
}

/// The size a table gets when `size` is asked for: `size` itself if it is valid, else 1.
pub open spec fn table_size(size: int) -> int {
    if valid_size(size) {
        size
    } else {
        1
    }
}

/// Whether two symbols fall into different slots of a table of `size` slots.
pub open spec fn separates(size: int, lhs: u8, rhs: u8) -> bool {
    size > 0 && lhs as int % size != rhs as int % size
}

/// The first size at or after `from`, doubling, at which the symbols are separated; 256 at the
/// latest.
pub open spec fn first_separating(from: int, lhs: u8, rhs: u8) -> int
    decreases 512 - from,
{
    if from < 1 || from >= 256 {
        256
    } else if separates(from, lhs, rhs) {
        from
    } else {
        first_separating(2 * from, lhs, rhs)
    }
}

/// The smallest size after `start` in the progression at which two symbols are separated, and
/// 256 if the progression is exhausted first.
pub open spec fn smallest_upgrade_spec(start: int, lhs: u8, rhs: u8) -> int {
    if in_progression(start) && start < 256 {
        first_separating(next_size_spec(start), lhs, rhs)
    } else {
        256
    }
}

/// The search from a valid size ends at a valid size that is no smaller, that separates two
/// symbols if they differ, and before which no size of the search separates them.
pub proof fn lemma_first_separating(from: int, lhs: u8, rhs: u8)
    requires
        valid_size(from),
    ensures
        valid_size(first_separating(from, lhs, rhs)),
        from <= first_separating(from, lhs, rhs),
        lhs != rhs ==> separates(first_separating(from, lhs, rhs), lhs, rhs),
        forall|size: int|
            valid_size(size) && from <= size < first_separating(from, lhs, rhs) ==> !separates(
                size,
                lhs,
                rhs,
            ),
    decreases 512 - from,
{
    if from < 256 && !separates(from, lhs, rhs) {
        lemma_first_separating(2 * from, lhs, rhs);
    }
}

/// A node as a mathematical value.
pub struct Tree<V> {
    /// The residual key: the edge label relative to the parent.
    pub key: Seq<u8>,
    /// The value stored under the key that ends here, if any.
    pub value: Option<V>,
    /// The slot table, if the node has one.
    pub child: Option<Seq<Option<Tree<V>>>>,
}

/// A table of `size` empty slots.
pub open spec fn empty_slots<V>(size: int) -> Seq<Option<Tree<V>>> {
    Seq::new(size as nat, |i: int| None)
}

/// The slot of a table of `size` slots that `symbol` falls into.
pub open spec fn slot_of(symbol: u8, size: int) -> int {
    symbol as int % size
}

/// Number of nodes held in a slot table, at any depth.
pub open spec fn slots_size<V>(slots: Seq<Option<Tree<V>>>) -> nat
    decreases slots,
{
    if slots.len() == 0 {
        0
    } else {
        slots_size(slots.drop_last()) + match slots.last() {
            None => 0nat,
            Some(t) => t.size(),
        }
    }
}

/// A node in a slot is no larger than the table that holds it.
pub proof fn lemma_slot_size<V>(slots: Seq<Option<Tree<V>>>, i: int)
    requires
        0 <= i < slots.len(),
        slots[i] is Some,
    ensures
        slots[i].unwrap().size() <= slots_size(slots),
    decreases slots.len(),
{
    if i < slots.len() - 1 {
        lemma_slot_size(slots.drop_last(), i);
    }
}

impl<V> Tree<V> {
    /// The root of an empty trie.
    pub open spec fn empty() -> Self {
        Tree { key: Seq::empty(), value: None, child: None }
    }

    /// A node without a slot table.
    pub open spec fn leaf(key: Seq<u8>, value: Option<V>) -> Self {
        Tree { key, value, child: None }
    }

    /// The state of a root before the first insertion.
    pub open spec fn pristine(self) -> bool {
        self.key.len() == 0 && self.value is None && self.child is None
    }

    /// Number of slots of the node's table, 0 if it has none.
    pub open spec fn child_size(self) -> int {
        match self.child {
            None => 0,
            Some(slots) => slots.len() as int,
        }
    }

    /// The slots that a child is added to: the node's table, or a new table of one slot.
    pub open spec fn slots_for_child(self) -> Seq<Option<Tree<V>>> {
        match self.child {
            None => empty_slots(1),
            Some(slots) => slots,
        }
    }

    /// Whether the node may stand in slot `slot` of a table of `size` slots: its key starts
    /// with a symbol of that slot, or it is a branch node without key and value under which
    /// every node may stand in that slot.
    pub open spec fn in_slot(self, size: int, slot: int) -> bool
        decreases self,
    {
        if self.key.len() > 0 {
            slot_of(self.key[0], size) == slot
        } else {
            &&& self.value is None
            &&& match self.child {
                None => true,
                Some(slots) => forall|i: int|
                    0 <= i < slots.len() && slots[i] is Some ==> (#[trigger] slots[i]).unwrap().in_slot(
                        size,
                        slot,
                    ),
            }
        }
    }

    /// Well-formedness: every slot table has a valid size, and every node in a table stands
    /// in the slot of its first symbol.
    pub open spec fn wf(self) -> bool
        decreases self,
    {
        match self.child {
            None => true,
            Some(slots) => {
                &&& valid_size(slots.len() as int)
                &&& forall|i: int|
                    0 <= i < slots.len() && slots[i] is Some ==> {
                        &&& (#[trigger] slots[i]).unwrap().wf()
                        &&& slots[i].unwrap().in_slot(slots.len() as int, i)
                    }
            },
        }
    }

    /// Whether `key` is stored with `value`: whether the residual keys along some path from the
    /// node down to a node that holds `value` spell `key`.
    pub open spec fn stores(self, key: Seq<u8>, value: V) -> bool
        decreases self,
    {
        &&& self.key.is_prefix_of(key)
        &&& {
            let rest = key.skip(self.key.len() as int);
            ||| rest.len() == 0 && self.value == Some(value)
            ||| match self.child {
                None => false,
                Some(slots) => exists|i: int|
                    0 <= i < slots.len() && (#[trigger] slots[i]) is Some && slots[i].unwrap().stores(
                        rest,
                        value,
                    ),
            }
        }
    }

    /// The keys stored in the tree, each with its value.
    pub open spec fn contents(self) -> Map<Seq<u8>, V> {
        Map::new(
            |key: Seq<u8>| exists|value: V| self.stores(key, value),
            |key: Seq<u8>| choose|value: V| self.stores(key, value),
        )
    }

    /// The value met by walking down from the node along `key`, at each table taking the slot
    /// of the next symbol, if the walk ends exactly at the end of a residual key.
    pub open spec fn lookup(self, key: Seq<u8>) -> Option<V>
        decreases self,
    {
        if !self.key.is_prefix_of(key) {
            None
        } else {
            let rest = key.skip(self.key.len() as int);
            if rest.len() == 0 {
                self.value
            } else {
                match self.child {
                    None => None,
                    Some(slots) => if slots.len() == 0 {
                        None
                    } else {
                        match slots[slot_of(rest[0], slots.len() as int)] {
                            None => None,
                            Some(below) => below.lookup(rest),
                        }
                    },
                }
            }
        }
    }

    /// Number of nodes in the tree.
    pub open spec fn size(self) -> nat
        decreases self,
    {
        1 + match self.child {
            None => 0nat,
            Some(slots) => slots_size(slots),
        }
    }

    /// The node with its first `idx` symbols taken off the key.
    pub open spec fn suffix(self, idx: int) -> Self {
        Tree { key: self.key.skip(idx), ..self }
    }

    /// What bounds the work of adding `child` below the node.
    pub open spec fn add_child_measure(self, child: Self) -> nat {
        let slots = self.slots_for_child();
        if slots.len() == 0 {
            0
        } else {
            match slots[slot_of(child.key[0], slots.len() as int)] {
                None => 0,
                Some(existing) => 2 * (existing.size() + child.size()) + 1,
            }
        }
    }

    /// The node after `child`, whose key is not empty, was added below it: `child` goes to the
    /// slot of its first symbol, and is inserted into the node that holds the slot, if any.
    pub open spec fn add_child(self, child: Self) -> Self
        decreases self.add_child_measure(child),
    {
        let slots = self.slots_for_child();
        if slots.len() == 0 {
            self
        } else {
            let slot = slot_of(child.key[0], slots.len() as int);
            let placed = match slots[slot] {
                None => child,
                Some(existing) => existing.insert_node(child),
            };
            Tree { child: Some(slots.update(slot, Some(placed))), ..self }
        }
    }

    /// The node split at `idx` into a branch node that holds the node's rest and the new
    /// node's rest in a fresh table, sized to keep the two apart.
    pub open spec fn branch(self, new: Self, idx: int) -> Self {
        let size = smallest_upgrade_spec(self.child_size(), self.key[idx], new.key[idx]);
        let slots = empty_slots(size).update(
            slot_of(self.key[idx], size),
            Some(self.suffix(idx)),
        ).update(slot_of(new.key[idx], size), Some(new.suffix(idx)));
        Tree { key: self.key.take(idx), value: None, child: Some(slots) }
    }

    /// The node that takes the place of `self` where the key of `new` is the first `idx`
    /// symbols of the node's key: it has those symbols as its key, and the value and the
    /// children of `new`.
    pub open spec fn top(self, new: Self, idx: int) -> Self {
        Tree { key: self.key.take(idx), value: new.value, child: new.child }
    }

    /// The node after the node `new` was inserted into it.
    ///
    /// With equal keys the node takes the value of `new`. Where the node's key is a strict
    /// prefix of the new key, the rest of `new` is added below the node; where the new key is
    /// a strict prefix of the node's key, the node takes the place of `new` and its own rest
    /// is added below. Otherwise the node is split where the keys part.
    pub open spec fn insert_node(self, new: Self) -> Self
        decreases 2 * (self.size() + new.size()),
    {
        let idx = common_prefix_len(self.key, new.key) as int;
        if idx == self.key.len() && idx == new.key.len() {
            Tree { value: new.value, ..self }
        } else if idx == self.key.len() {
            proof {
                let slots = self.slots_for_child();
                let slot = slot_of(new.suffix(idx).key[0], slots.len() as int);
                if self.child is Some && slots.len() > 0 && slots[slot] is Some {
                    lemma_slot_size(slots, slot);
                }
            }
            self.add_child(new.suffix(idx))
        } else if idx == new.key.len() {
            proof {
                let slots = self.top(new, idx).slots_for_child();
                let slot = slot_of(self.suffix(idx).key[0], slots.len() as int);
                if new.child is Some && slots.len() > 0 && slots[slot] is Some {
                    lemma_slot_size(slots, slot);
                }
            }
            self.top(new, idx).add_child(self.suffix(idx))
        } else {
            self.branch(new, idx)
        }
    }

    /// The root after the keys of `entries` were inserted with their values, first to last.
    pub open spec fn insert_all(self, entries: Seq<(Seq<u8>, V)>) -> Self
        decreases entries.len(),
    {
        if entries.len() == 0 {
            self
        } else {
            self.insert_all(entries.drop_last()).insert(entries.last().0, Some(entries.last().1))
        }
    }

    /// The node after `key` was inserted with `value`: a pristine node takes both over, any
    /// other node has a leaf inserted.
    pub open spec fn insert(self, key: Seq<u8>, value: Option<V>) -> Self {
        if self.pristine() {
            Tree { key, value, child: None }
        } else {
            self.insert_node(Tree::leaf(key, value))
        }
    }
}

/// The map that holds each key of `entries` with the value it was last given.
pub open spec fn entries_map<V>(entries: Seq<(Seq<u8>, V)>) -> Map<Seq<u8>, V>
    decreases entries.len(),
{
    if entries.len() == 0 {
        Map::empty()
    } else {
        entries_map(entries.drop_last()).insert(entries.last().0, entries.last().1)
    }
}

} // verus!
