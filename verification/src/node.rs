//! Arena cells: a node and the marked link that chains it to its successor.

use vstd::prelude::*;

verus! {

/// Slot of the head sentinel of every list.
pub const HEAD: usize = 0;

/// Slot of the tail sentinel of every list.
pub const TAIL: usize = 1;

/// A reference to a slot together with a deletion mark.
///
/// A set mark on a node's outgoing link means that the node itself is
/// logically deleted.
#[derive(Clone, Copy, Debug, PartialEq, Eq, Structural)]
pub struct Link {
    pub slot: usize,
    pub marked: bool,
}

/// One key/value cell of a bucket list.
#[derive(Clone, Copy, Debug)]
pub struct Node {
    pub key: usize,
    pub value: usize,
    pub next: Link,
}

impl Node {
    /// A live node that is not linked to anything yet: its link names the
    /// tail sentinel and carries no mark.
    pub fn new(key: usize, value: usize) -> (node: Node)
        ensures
            node.key == key,
            node.value == value,
            node.next == (Link { slot: TAIL, marked: false }),
    {
        Node { key, value, next: Link { slot: TAIL, marked: false } }
    }
}

/// What a compare-and-swap on the link of `slot` leaves in the arena when it
/// succeeds: the same cells, with that one link replaced.
pub open spec fn with_next(nodes: Seq<Node>, slot: int, new: Link) -> Seq<Node> {
    nodes.update(slot, Node { key: nodes[slot].key, value: nodes[slot].value, next: new })
}

/// Replaces the link of `slot` by `new` if and only if it still equals
/// `expected`, and reports whether it did.
pub fn compare_and_swap_next(nodes: &mut Vec<Node>, slot: usize, expected: Link, new: Link) -> (swapped: bool)
    requires
        slot < old(nodes)@.len(),
    ensures
        swapped == (old(nodes)@[slot as int].next == expected),
        swapped ==> final(nodes)@ == with_next(old(nodes)@, slot as int, new),
        !swapped ==> final(nodes)@ == old(nodes)@,
{
    let cell = nodes[slot];
    if cell.next == expected {
        nodes.set(slot, Node { key: cell.key, value: cell.value, next: new });
        true
    } else {
        false
    }
}

/// Replaces the value of `slot` and returns the one it held.
pub fn exchange_value(nodes: &mut Vec<Node>, slot: usize, value: usize) -> (previous: usize)
    requires
        slot < old(nodes)@.len(),
    ensures
        previous == old(nodes)@[slot as int].value,
        final(nodes)@ == old(nodes)@.update(
            slot as int,
            Node { key: old(nodes)@[slot as int].key, value: value, next: old(nodes)@[slot as int].next },
        ),
{
    let cell = nodes[slot];
    nodes.set(slot, Node { key: cell.key, value, next: cell.next });
    cell.value
}

} // verus!
