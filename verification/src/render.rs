//! Flattening a tree into a nested ordered mapping from key texts to values.
//!
//! A node is real if its residual key is not empty. Each real node gives one entry, keyed by
//! the text of its residual key; the entry holds the node's value if the node has no children,
//! and else the mapping of its children. A node with an empty residual key gives no entry of
//! its own: the entries of its children stand in its place.

use vstd::prelude::*;
use crate::child::{slot_model, Child};
use crate::keys::BytesKey;
use crate::model::{lemma_slot_size, slots_size, Tree};
use crate::nodes::AdaptiveNode;

verus! {

/// What an entry of the mapping holds, as a mathematical value.
pub enum Nested<V> {
    /// The value of a node without children.
    Value(Option<V>),
    /// The entries of the children of a node, in the order of the slots.
    Mapping(Seq<(Seq<char>, Nested<V>)>),
}

/// What an entry of the mapping holds.
#[derive(Debug)]
pub enum Rendered<'a, V> {
    /// The value of a node without children.
    Value(&'a Option<V>),
    /// The entries of the children of a node, in the order of the slots.
    Mapping(Vec<(String, Rendered<'a, V>)>),
}

impl<'a, V> View for Rendered<'a, V> {
    type V = Nested<V>;

    open spec fn view(&self) -> Nested<V> {
        self.nested()
    }
}

impl<'a, V> Rendered<'a, V> {
    /// The rendered value as a mathematical value.
    pub open spec fn nested(&self) -> Nested<V>
        decreases self,
    {
        match self {
            Rendered::Value(value) => Nested::Value(**value),
            Rendered::Mapping(entries) => Nested::Mapping(
                Seq::new(
                    entries@.len(),
                    |i: int|
                        if 0 <= i < entries@.len() {
                            (entries@[i].0@, entries@[i].1.nested())
                        } else {
                            (Seq::empty(), Nested::Value(None))
                        },
                ),
            ),
        }
    }
}

/// The entries of a list of rendered entries, as mathematical values.
pub open spec fn entries_model<'a, V>(entries: Seq<(String, Rendered<'a, V>)>) -> Seq<
    (Seq<char>, Nested<V>),
> {
    Seq::new(entries.len(), |i: int| (entries[i].0@, entries[i].1@))
}

/// Whether a node has no children: no table, or a table of empty slots.
pub open spec fn childless<V>(node: Tree<V>) -> bool {
    match node.child {
        None => true,
        Some(slots) => forall|i: int| 0 <= i < slots.len() ==> (#[trigger] slots[i]) is None,
    }
}

/// The real nodes that stand for a node: the node itself if its key is not empty, else those
/// that stand for its children, in the order of the slots.
pub open spec fn flatten<V>(node: Tree<V>) -> Seq<Tree<V>>
    decreases node,
{
    if node.key.len() > 0 {
        seq![node]
    } else {
        match node.child {
            None => Seq::empty(),
            Some(slots) => flatten_slots(slots),
        }
    }
}

/// The real nodes that stand for the nodes of a slot table, in the order of the slots.
pub open spec fn flatten_slots<V>(slots: Seq<Option<Tree<V>>>) -> Seq<Tree<V>>
    decreases slots,
{
    if slots.len() == 0 {
        Seq::empty()
    } else {
        flatten_slots(slots.drop_last()) + match slots.last() {
            None => Seq::empty(),
            Some(node) => flatten(node),
        }
    }
}

/// The entry of a node: the text of its key, with its value if it has no children and the
/// entries of its children if it has some.
pub open spec fn entry_of<V>(node: Tree<V>, text: spec_fn(Seq<u8>) -> Seq<char>) -> (
    Seq<char>,
    Nested<V>,
)
    decreases node, 0nat,
{
    (
        text(node.key),
        match node.child {
            None => Nested::Value(node.value),
            Some(slots) => if childless(node) {
                Nested::Value(node.value)
            } else {
                Nested::Mapping(entries_of_slots(slots, text))
            },
        },
    )
}

/// The entries that stand for a node: its own entry if its key is not empty, else the entries
/// that stand for its children.
pub open spec fn entries_of<V>(node: Tree<V>, text: spec_fn(Seq<u8>) -> Seq<char>) -> Seq<
    (Seq<char>, Nested<V>),
>
    decreases node, 1nat,
{
    if node.key.len() > 0 {
        seq![entry_of(node, text)]
    } else {
        match node.child {
            None => Seq::empty(),
            Some(slots) => entries_of_slots(slots, text),
        }
    }
}

/// The entries that stand for the nodes of a slot table, in the order of the slots.
pub open spec fn entries_of_slots<V>(
    slots: Seq<Option<Tree<V>>>,
    text: spec_fn(Seq<u8>) -> Seq<char>,
) -> Seq<(Seq<char>, Nested<V>)>
    decreases slots, 0nat,
{
    if slots.len() == 0 {
        Seq::empty()
    } else {
        entries_of_slots(slots.drop_last(), text) + match slots.last() {
            None => Seq::empty(),
            Some(node) => entries_of(node, text),
        }
    }
}

/// The entries that stand for a node are the entries of the real nodes that stand for it.
pub proof fn lemma_entries_of_flatten<V>(node: Tree<V>, text: spec_fn(Seq<u8>) -> Seq<char>)
    ensures
        entries_of(node, text) == flatten(node).map_values(|found: Tree<V>| entry_of(found, text)),
    decreases node,
{
    let entry = |found: Tree<V>| entry_of(found, text);
    if node.key.len() > 0 {
        assert(entries_of(node, text) =~= flatten(node).map_values(entry));
    } else {
        match node.child {
            None => {
                assert(entries_of(node, text) =~= flatten(node).map_values(entry));
            },
            Some(slots) => {
                lemma_entries_of_flatten_slots(slots, text);
            },
        }
    }
}

/// The entries that stand for the nodes of a slot table are the entries of the real nodes that
/// stand for them.
pub proof fn lemma_entries_of_flatten_slots<V>(
    slots: Seq<Option<Tree<V>>>,
    text: spec_fn(Seq<u8>) -> Seq<char>,
)
    ensures
        entries_of_slots(slots, text) == flatten_slots(slots).map_values(
            |found: Tree<V>| entry_of(found, text),
        ),
    decreases slots,
{
    let entry = |found: Tree<V>| entry_of(found, text);
    if slots.len() == 0 {
        assert(entries_of_slots(slots, text) =~= flatten_slots(slots).map_values(entry));
    } else {
        lemma_entries_of_flatten_slots(slots.drop_last(), text);
        let front = flatten_slots(slots.drop_last());
        match slots.last() {
            None => {
                assert(front + Seq::<Tree<V>>::empty() =~= front);
                assert(entries_of_slots(slots, text) =~= flatten_slots(slots).map_values(entry));
            },
            Some(node) => {
                lemma_entries_of_flatten(node, text);
                assert((front + flatten(node)).map_values(entry) =~= front.map_values(entry)
                    + flatten(node).map_values(entry));
            },
        }
    }
}

/// The models of a list of nodes.
pub open spec fn nodes_model<'a, K: BytesKey, V>(nodes: Seq<&'a AdaptiveNode<K, V>>) -> Seq<
    Tree<V>,
> {
    Seq::new(nodes.len(), |i: int| nodes[i]@)
}

/// The real nodes that stand for `node`: the node itself if its key is not empty, else those
/// that stand for its children, in the order of the slots.
pub fn flatten_node<'a, K: BytesKey, V>(node: &'a AdaptiveNode<K, V>) -> (nodes: Vec<
    &'a AdaptiveNode<K, V>,
>)
    ensures
        nodes_model(nodes@) == flatten(node@),
    decreases node@.size(),
{
    if !node.key().get().is_empty() {
        let nodes = vec![node];
        proof {
            assert(nodes_model(nodes@) =~= flatten(node@));
        }
        return nodes;
    }
    match node.child() {
        Some(child) => {
            let slots = child.get();
            let mut acc: Vec<&'a AdaptiveNode<K, V>> = Vec::new();
            let mut i: usize = 0;
            proof {
                assert(nodes_model(acc@) =~= flatten_slots(child@.take(0)));
            }
            while i < slots.len()
                invariant
                    i <= slots.len(),
                    slots@.len() == child@.len(),
                    forall|j: int|
                        0 <= j < slots@.len() ==> slot_model(#[trigger] slots@[j]) == child@[j],
                    node@.child == Some(child@),
                    nodes_model(acc@) == flatten_slots(child@.take(i as int)),
                decreases slots.len() - i,
            {
                let ghost before = acc@;
                proof {
                    let next = child@.take(i + 1);
                    assert(next.drop_last() == child@.take(i as int));
                    assert(next.last() == slot_model(slots@[i as int]));
                }
                match &slots[i] {
                    Some(below) => {
                        proof {
                            lemma_slot_size(child@, i as int);
                        }
                        let mut part = flatten_node(below);
                        let ghost added = part@;
                        acc.append(&mut part);
                        proof {
                            assert(nodes_model(acc@) =~= nodes_model(before) + nodes_model(added));
                        }
                    },
                    None => {
                        proof {
                            assert(nodes_model(acc@) =~= nodes_model(before) + Seq::empty());
                        }
                    },
                }
                i += 1;
            }
            proof {
                assert(child@.take(child@.len() as int) == child@);
            }
            acc
        },
        None => {
            let nodes: Vec<&'a AdaptiveNode<K, V>> = Vec::new();
            proof {
                assert(nodes_model(nodes@) =~= flatten(node@));
            }
            nodes
        },
    }
}

/// The entry of `node`: the text of its key, with its value if it has no children and the
/// entries of its children if it has some.
pub fn node_or_children<'a, K: BytesKey, V>(node: &'a AdaptiveNode<K, V>) -> (entry: (
    String,
    Rendered<'a, V>,
))
    ensures
        (entry.0@, entry.1@) == entry_of(node@, |symbols: Seq<u8>| K::text(symbols)),
    decreases node@.size(), 0nat,
{
    let text = node.key().to_string();
    match node.child() {
        Some(child) => {
            if child.is_empty() {
                (text, Rendered::Value(node.value()))
            } else {
                let entries = render_children(child);
                let rendered = Rendered::Mapping(entries);
                proof {
                    assert(rendered@ == Nested::Mapping(entries_model(entries@))) by {
                        assert(rendered@->Mapping_0 =~= entries_model(entries@));
                    }
                }
                (text, rendered)
            }
        },
        None => (text, Rendered::Value(node.value())),
    }
}

/// The entries that stand for `node`: its own entry if its key is not empty, else the entries
/// that stand for its children.
pub fn render<'a, K: BytesKey, V>(node: &'a AdaptiveNode<K, V>) -> (entries: Vec<
    (String, Rendered<'a, V>),
>)
    ensures
        entries_model(entries@) == entries_of(node@, |symbols: Seq<u8>| K::text(symbols)),
    decreases node@.size(), 1nat,
{
    if !node.key().get().is_empty() {
        let entry = node_or_children(node);
        let entries = vec![entry];
        proof {
            assert(entries_model(entries@) =~= entries_of(
                node@,
                |symbols: Seq<u8>| K::text(symbols),
            ));
        }
        return entries;
    }
    match node.child() {
        Some(child) => render_children(child),
        None => {
            let entries: Vec<(String, Rendered<'a, V>)> = Vec::new();
            proof {
                assert(entries_model(entries@) =~= entries_of(
                    node@,
                    |symbols: Seq<u8>| K::text(symbols),
                ));
            }
            entries
        },
    }
}

/// The entries that stand for the nodes of `child`, in the order of the slots.
pub fn render_children<'a, K: BytesKey, V>(child: &'a Child<K, V>) -> (entries: Vec<
    (String, Rendered<'a, V>),
>)
    ensures
        entries_model(entries@) == entries_of_slots(child@, |symbols: Seq<u8>| K::text(symbols)),
    decreases slots_size(child@), 2nat,
{
    let ghost text = |symbols: Seq<u8>| K::text(symbols);
    let slots = child.get();
    let mut acc: Vec<(String, Rendered<'a, V>)> = Vec::new();
    let mut i: usize = 0;
    proof {
        assert(entries_model(acc@) =~= entries_of_slots(child@.take(0), text));
    }
    while i < slots.len()
        invariant
            i <= slots.len(),
            slots@.len() == child@.len(),
            forall|j: int| 0 <= j < slots@.len() ==> slot_model(#[trigger] slots@[j]) == child@[j],
            text == |symbols: Seq<u8>| K::text(symbols),
            entries_model(acc@) == entries_of_slots(child@.take(i as int), text),
        decreases slots.len() - i,
    {
        let ghost before = acc@;
        proof {
            let next = child@.take(i + 1);
            assert(next.drop_last() == child@.take(i as int));
            assert(next.last() == slot_model(slots@[i as int]));
        }
        match &slots[i] {
            Some(below) => {
                proof {
                    lemma_slot_size(child@, i as int);
                }
                let mut part = render(below);
                let ghost added = part@;
                acc.append(&mut part);
                proof {
                    assert(entries_model(acc@) =~= entries_model(before) + entries_model(added));
                }
            },
            None => {
                proof {
                    assert(entries_model(acc@) =~= entries_model(before) + Seq::empty());
                }
            },
        }
        i += 1;
    }
    proof {
        assert(child@.take(child@.len() as int) == child@);
    }
    acc
}

} // verus!
