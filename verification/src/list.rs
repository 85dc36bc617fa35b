//! The bucket list: a key-ordered chain of arena nodes between two
//! sentinels, with deletion in two phases (mark, then unlink).

use vstd::prelude::*;
use crate::node::{compare_and_swap_next, exchange_value, with_next, Link, Node, HEAD, TAIL};

verus! {

/// What a map holds for a key, as an optional value.
pub open spec fn lookup(m: Map<usize, usize>, key: usize) -> Option<usize> {
    if m.contains_key(key) {
        Some(m[key])
    } else {
        None
    }
}

/// No live key lies between `key` and `k`: a node with key `k` stands
/// between the two live neighbours of the place of `key`.
pub open spec fn in_gap(live: Map<usize, usize>, key: usize, k: usize) -> bool {
    forall|x: usize| live.contains_key(x) ==> !(k < x < key) && !(key <= x < k)
}

/// The keys of the marked nodes that stay chained when a walk to the place
/// of `key` unlinks the marked nodes around that place.
pub open spec fn swept(stale: Set<usize>, live: Map<usize, usize>, key: usize) -> Set<usize> {
    Set::new(|k: usize| stale.contains(k) && !in_gap(live, key, k))
}

/// A sorted chain of nodes held in an arena.
///
/// `chain` is the sequence of slots met when walking from the head sentinel
/// to the tail sentinel. Slots that were unlinked wait in `retired`. A
/// reclamation first condemns the retired slots and later, when no client
/// can reach them any more, releases the condemned ones; released slots
/// wait in `free` for the next node.
pub struct LinkedList {
    nodes: Vec<Node>,
    retired: Vec<usize>,
    condemned: Vec<usize>,
    free: Vec<usize>,
    chain: Ghost<Seq<usize>>,
}

/// Position `j` moved by `d`, unless it lies at or before `p`.
spec fn past(j: int, p: int, d: int) -> int {
    if j <= p {
        j
    } else {
        j + d
    }
}

/// No slot of `a` is a slot of `b`.
spec fn disjoint(a: Seq<usize>, b: Seq<usize>) -> bool {
    forall|i: int, j: int| 0 <= i < a.len() && 0 <= j < b.len() ==> (#[trigger] a[i]) != (#[trigger] b[j])
}

/// No slot occurs twice.
spec fn distinct(a: Seq<usize>) -> bool {
    forall|i: int, j: int| 0 <= i < j < a.len() ==> (#[trigger] a[i]) != (#[trigger] a[j])
}

/// Every slot lies in an arena of `n` cells and is no sentinel.
spec fn within(a: Seq<usize>, n: nat) -> bool {
    forall|i: int| 0 <= i < a.len() ==> 2 <= (#[trigger] a[i]) < n
}

/// Two pools of slots that share none can be joined into one.
proof fn lemma_joined(a: Seq<usize>, b: Seq<usize>, n: nat)
    requires
        distinct(a),
        distinct(b),
        disjoint(a, b) || disjoint(b, a),
        within(a, n),
        within(b, n),
    ensures
        distinct(a + b),
        within(a + b, n),
{
    let ab = a + b;
    assert forall|i: int| 0 <= i < ab.len() implies 2 <= (#[trigger] ab[i]) < n by {
        if i < a.len() {
            assert(2 <= a[i] < n);
        } else {
            assert(2 <= b[i - a.len()] < n);
        }
    }
    assert forall|i: int, j: int| 0 <= i < j < ab.len() implies (#[trigger] ab[i]) != (#[trigger] ab[j]) by {
        if j < a.len() {
            assert(a[i] != a[j]);
        } else if i >= a.len() {
            assert(b[i - a.len()] != b[j - a.len()]);
        } else {
            assert(a[i] != b[j - a.len()]);
        }
    }
}

/// A joined pool shares no slot with a sequence that neither part shares
/// one with.
proof fn lemma_joined_apart(a: Seq<usize>, b: Seq<usize>, c: Seq<usize>)
    requires
        disjoint(a, c) || disjoint(c, a),
        disjoint(b, c) || disjoint(c, b),
    ensures
        disjoint(a + b, c),
        disjoint(c, a + b),
{
    let ab = a + b;
    assert forall|i: int, j: int| 0 <= i < ab.len() && 0 <= j < c.len()
        implies (#[trigger] ab[i]) != (#[trigger] c[j]) by {
        if i < a.len() {
            assert(a[i] != c[j]);
        } else {
            assert(b[i - a.len()] != c[j]);
        }
    }
}

impl View for LinkedList {
    type V = Map<usize, usize>;

    /// The live entries: the key and value of every chained node that
    /// carries no mark.
    closed spec fn view(&self) -> Map<usize, usize> {
        Map::new(
            |k: usize| exists|i: int| self.live_key(i, k),
            |k: usize| self.node_at(choose|i: int| self.live_key(i, k)).value,
        )
    }
}

impl LinkedList {
    spec fn node_at(&self, i: int) -> Node {
        self.nodes@[self.chain@[i] as int]
    }

    spec fn interior(&self, i: int) -> bool {
        0 < i < self.chain@.len() - 1
    }

    spec fn live_at(&self, i: int) -> bool {
        self.interior(i) && !self.node_at(i).next.marked
    }

    spec fn live_key(&self, i: int, k: usize) -> bool {
        self.live_at(i) && self.node_at(i).key == k
    }

    spec fn stale_key(&self, i: int, k: usize) -> bool {
        self.interior(i) && self.node_at(i).next.marked && self.node_at(i).key == k
    }

    /// The keys of the nodes that are marked as deleted and still chained.
    pub closed spec fn stale(&self) -> Set<usize> {
        Set::new(|k: usize| exists|i: int| self.stale_key(i, k))
    }

    /// Number of chained nodes, live or marked, without the sentinels.
    pub closed spec fn chained_slots(&self) -> nat {
        (self.chain@.len() - 2) as nat
    }

    /// The chain is sound, and every slot outside it is accounted for
    /// once.
    pub closed spec fn wf(&self) -> bool {
        self.chain_wf() && self.pool_wf() && self.marks_wf()
    }

    /// A cell that carries no mark is chained: what was unlinked keeps its
    /// mark until a new node takes the cell.
    spec fn marks_wf(&self) -> bool {
        forall|s: int|
            2 <= s < self.nodes@.len() && !(#[trigger] self.nodes@[s]).next.marked ==> exists|j: int|
                self.interior(j) && #[trigger] self.chain@[j] == s
    }

    /// `slot` holds the live node of `key`.
    pub closed spec fn live_slot(&self, slot: usize, key: usize) -> bool {
        &&& 2 <= slot < self.nodes@.len()
        &&& !self.nodes@[slot as int].next.marked
        &&& self.nodes@[slot as int].key == key
    }

    /// The position of an unmarked cell in the chain.
    proof fn lemma_position(&self, slot: usize) -> (p: int)
        requires
            self.wf(),
            2 <= slot < self.nodes@.len(),
            !self.nodes@[slot as int].next.marked,
        ensures
            self.live_at(p),
            self.chain@[p] == slot,
    {
        let s = slot as int;
        assert(!self.nodes@[s].next.marked);
        let p = choose|j: int| self.interior(j) && #[trigger] self.chain@[j] == s;
        p
    }

    /// The slot of the live node of a key is the slot of no other, and its
    /// key is a key of the list.
    pub proof fn lemma_live_slot(&self, slot: usize, key: usize)
        requires
            self.wf(),
            self.live_slot(slot, key),
        ensures
            self@.contains_key(key),
            forall|other: usize| self.live_slot(other, key) ==> other == slot,
    {
        let p = self.lemma_position(slot);
        self.lemma_live(p);
        assert forall|other: usize| self.live_slot(other, key) implies other == slot by {
            let q = self.lemma_position(other);
            self.lemma_one_place(p, q);
        }
    }

    /// Retired, condemned and free slots are cells of the arena other than
    /// the sentinels; none of them is chained, and none occurs twice.
    spec fn pool_wf(&self) -> bool {
        &&& within(self.retired@, self.nodes@.len())
        &&& within(self.condemned@, self.nodes@.len())
        &&& within(self.free@, self.nodes@.len())
        &&& disjoint(self.retired@, self.chain@)
        &&& disjoint(self.condemned@, self.chain@)
        &&& disjoint(self.free@, self.chain@)
        &&& disjoint(self.retired@, self.condemned@)
        &&& disjoint(self.retired@, self.free@)
        &&& disjoint(self.condemned@, self.free@)
        &&& distinct(self.retired@)
        &&& distinct(self.condemned@)
        &&& distinct(self.free@)
        &&& self.nodes@.len() == self.chain@.len() + self.retired@.len() + self.condemned@.len()
            + self.free@.len()
    }

    /// The chain starts at the head sentinel, ends at the tail sentinel,
    /// follows the links of the arena, and its keys ascend strictly.
    spec fn chain_wf(&self) -> bool {
        &&& self.chain@.len() >= 2
        &&& self.chain@[0] == HEAD
        &&& self.chain@[self.chain@.len() - 1] == TAIL
        &&& forall|i: int| 0 <= i < self.chain@.len() ==> (#[trigger] self.chain@[i]) < self.nodes@.len()
        &&& forall|i: int|
            0 <= i < self.chain@.len() - 1 ==> (#[trigger] self.node_at(i)).next.slot == self.chain@[i + 1]
        &&& forall|i: int| self.interior(i) ==> (#[trigger] self.chain@[i]) >= 2
        &&& forall|i: int, j: int|
            0 < i < j < self.chain@.len() - 1 ==> (#[trigger] self.node_at(i)).key < (#[trigger] self.node_at(j)).key
        &&& !self.nodes@[0].next.marked
    }

    /// Number of unlinked slots that no reclamation has taken up yet.
    pub closed spec fn pending_slots(&self) -> nat {
        self.retired@.len()
    }

    /// Number of unlinked slots that a reclamation is about to release.
    pub closed spec fn condemned_slots(&self) -> nat {
        self.condemned@.len()
    }

    /// Number of released slots that the next new nodes will take.
    pub closed spec fn free_slots(&self) -> nat {
        self.free@.len()
    }

    /// Number of cells of the arena, the two sentinels included.
    pub closed spec fn arena_slots(&self) -> nat {
        self.nodes@.len()
    }

    /// The same counts of pending, condemned and free slots and of cells.
    pub open spec fn same_pool(&self, other: &LinkedList) -> bool {
        &&& self.pending_slots() == other.pending_slots()
        &&& self.condemned_slots() == other.condemned_slots()
        &&& self.free_slots() == other.free_slots()
        &&& self.arena_slots() == other.arena_slots()
    }

    /// How an insertion of `value` under `key` that returned `previous`
    /// relates this list to the list `pre` before it: the entry is set; the
    /// marked nodes around the place of `key` are unlinked and retired; a
    /// new key takes a free slot if there is one and a new cell otherwise.
    pub open spec fn inserted_from(
        &self,
        pre: &LinkedList,
        key: usize,
        value: usize,
        previous: Option<usize>,
    ) -> bool {
        &&& self.wf()
        &&& self@ == pre@.insert(key, value)
        &&& previous == lookup(pre@, key)
        &&& self.stale() == swept(pre.stale(), pre@, key)
        &&& self.pending_slots() >= pre.pending_slots()
        &&& self.pending_slots() + self.chained_slots() == pre.pending_slots() + pre.chained_slots() + (
        if previous.is_none() {
            1int
        } else {
            0int
        })
        &&& self.condemned_slots() == pre.condemned_slots()
        &&& self.free_slots() + (if previous.is_none() && pre.free_slots() > 0 {
            1int
        } else {
            0int
        }) == pre.free_slots()
        &&& self.arena_slots() == pre.arena_slots() + (if previous.is_none() && pre.free_slots() == 0 {
            1int
        } else {
            0int
        })
    }

    /// How a deletion of `key` that returned `removed` relates this list
    /// to the list `pre` before it: the entry is gone; its node and the
    /// marked nodes around its place are unlinked and retired.
    pub open spec fn deleted_from(&self, pre: &LinkedList, key: usize, removed: Option<usize>) -> bool {
        &&& self.wf()
        &&& self@ == pre@.remove(key)
        &&& removed == lookup(pre@, key)
        &&& self.stale() == swept(pre.stale(), pre@, key)
        &&& self.pending_slots() >= pre.pending_slots()
        &&& (removed.is_some() ==> self.pending_slots() > pre.pending_slots())
        &&& self.pending_slots() + self.chained_slots() == pre.pending_slots() + pre.chained_slots()
        &&& self.condemned_slots() == pre.condemned_slots()
        &&& self.free_slots() == pre.free_slots()
        &&& self.arena_slots() == pre.arena_slots()
    }

    /// How the marking of `key` that returned `removed` relates this list
    /// to the list `pre` before it: the entry is gone and its node stays
    /// chained with a mark; the marked nodes around its place are unlinked
    /// and retired.
    pub open spec fn marked_from(&self, pre: &LinkedList, key: usize, removed: Option<usize>) -> bool {
        &&& self.wf()
        &&& self@ == pre@.remove(key)
        &&& removed == lookup(pre@, key)
        &&& self.stale() == (if removed.is_some() {
            swept(pre.stale(), pre@, key).insert(key)
        } else {
            swept(pre.stale(), pre@, key)
        })
        &&& self.pending_slots() >= pre.pending_slots()
        &&& self.pending_slots() + self.chained_slots() == pre.pending_slots() + pre.chained_slots()
        &&& self.condemned_slots() == pre.condemned_slots()
        &&& self.free_slots() == pre.free_slots()
        &&& self.arena_slots() == pre.arena_slots()
    }

    /// How the marking of the live node of `key` in its slot relates this
    /// list to the list `pre` before it: the entry is gone, its node stays
    /// chained with a mark, and nothing else changes.
    pub open spec fn marked_in_place_from(&self, pre: &LinkedList, key: usize, removed: Option<usize>) -> bool {
        &&& self.wf()
        &&& self@ == pre@.remove(key)
        &&& removed.is_some()
        &&& removed == lookup(pre@, key)
        &&& self.stale() == pre.stale().insert(key)
        &&& self.chained_slots() == pre.chained_slots()
        &&& self.same_pool(pre)
    }

    /// How the linking of a new node for `key` relates this list to the
    /// list `pre` before it: the key was absent and is set; the node took a
    /// free slot if there was one and a new cell otherwise; nothing else
    /// changed.
    pub open spec fn linked_in_place_from(&self, pre: &LinkedList, key: usize, value: usize) -> bool {
        &&& self.wf()
        &&& !pre@.contains_key(key)
        &&& self@ == pre@.insert(key, value)
        &&& self.stale() == pre.stale()
        &&& self.chained_slots() == pre.chained_slots() + 1
        &&& self.pending_slots() == pre.pending_slots()
        &&& self.condemned_slots() == pre.condemned_slots()
        &&& self.free_slots() + (if pre.free_slots() > 0 {
            1int
        } else {
            0int
        }) == pre.free_slots()
        &&& self.arena_slots() == pre.arena_slots() + (if pre.free_slots() == 0 {
            1int
        } else {
            0int
        })
    }

    /// How the unlinking of the marked nodes between `left` and `right`
    /// relates this list to the list `pre` before it: the entries are the
    /// same; the marked nodes whose keys lie between the two are retired.
    pub open spec fn unlinked_from(&self, pre: &LinkedList, left: usize, right: usize) -> bool {
        &&& self.wf()
        &&& self@ == pre@
        &&& self.stale() == Set::new(|k: usize| pre.stale().contains(k) && !pre.span(left, right, k))
        &&& self.pending_slots() > pre.pending_slots()
        &&& self.pending_slots() + self.chained_slots() == pre.pending_slots() + pre.chained_slots()
        &&& self.condemned_slots() == pre.condemned_slots()
        &&& self.free_slots() == pre.free_slots()
        &&& self.arena_slots() == pre.arena_slots()
    }

    /// This list is `pre` with its pending slots condemned.
    pub open spec fn condemned_from(&self, pre: &LinkedList) -> bool {
        &&& self.wf()
        &&& self@ == pre@
        &&& self.stale() == pre.stale()
        &&& self.chained_slots() == pre.chained_slots()
        &&& self.pending_slots() == 0
        &&& self.condemned_slots() == pre.condemned_slots() + pre.pending_slots()
        &&& self.free_slots() == pre.free_slots()
        &&& self.arena_slots() == pre.arena_slots()
    }

    /// This list is `pre` with its condemned slots released.
    pub open spec fn released_from(&self, pre: &LinkedList) -> bool {
        &&& self.wf()
        &&& self@ == pre@
        &&& self.stale() == pre.stale()
        &&& self.chained_slots() == pre.chained_slots()
        &&& self.pending_slots() == pre.pending_slots()
        &&& self.condemned_slots() == 0
        &&& self.free_slots() == pre.free_slots() + pre.condemned_slots()
        &&& self.arena_slots() == pre.arena_slots()
    }

    /// Nothing was ever unlinked from this list, or all of it has been
    /// taken by new nodes: every cell but the sentinels holds a live entry.
    pub open spec fn pristine(&self) -> bool {
        &&& self.stale() == Set::<usize>::empty()
        &&& self.pending_slots() == 0
        &&& self.condemned_slots() == 0
        &&& self.free_slots() == 0
    }

    /// A new key leaves a pristine list pristine.
    pub proof fn lemma_pristine_insert(&self, pre: &LinkedList, key: usize, value: usize)
        requires
            pre.wf(),
            pre.pristine(),
            !pre@.contains_key(key),
            self.inserted_from(pre, key, value, None),
        ensures
            self.pristine(),
    {
        pre.lemma_chain_count();
        self.lemma_chain_count();
        assert(self.stale() =~= Set::<usize>::empty());
        assert(self@.dom() =~= pre@.dom().insert(key));
    }

    proof fn lemma_distinct(&self, i: int, j: int)
        requires
            self.chain_wf(),
            0 <= i < j < self.chain@.len(),
        ensures
            self.chain@[i] != self.chain@[j],
    {
        if 0 < i && j < self.chain@.len() - 1 {
            assert(self.node_at(i).key < self.node_at(j).key);
        } else if i == 0 {
            if j < self.chain@.len() - 1 {
                assert(self.interior(j));
            }
        } else {
            assert(self.interior(i));
        }
    }

    proof fn lemma_live(&self, i: int)
        requires
            self.chain_wf(),
            self.live_at(i),
        ensures
            self@.contains_key(self.node_at(i).key),
            self@[self.node_at(i).key] == self.node_at(i).value,
    {
        let k = self.node_at(i).key;
        assert(self.live_key(i, k));
        let c = choose|c: int| self.live_key(c, k);
        if c < i {
            assert(self.node_at(c).key < self.node_at(i).key);
        } else if i < c {
            assert(self.node_at(i).key < self.node_at(c).key);
        }
    }

    proof fn lemma_found(&self, k: usize) -> (i: int)
        requires
            self.chain_wf(),
            self@.contains_key(k),
        ensures
            self.live_key(i, k),
            self@[k] == self.node_at(i).value,
    {
        let i = choose|i: int| self.live_key(i, k);
        i
    }

    /// An empty list: the two sentinels, linked to each other.
    pub fn new() -> (list: LinkedList)
        ensures
            list.wf(),
            list@ == Map::<usize, usize>::empty(),
            list.pristine(),
            list.chained_slots() == 0,
            list.arena_slots() == 2,
    {
        let mut nodes: Vec<Node> = Vec::new();
        nodes.push(Node::new(0, 0));
        nodes.push(Node::new(0, 0));
        let ghost chain: Seq<usize> = Seq::empty().push(HEAD).push(TAIL);
        let list = LinkedList {
            nodes,
            retired: Vec::new(),
            condemned: Vec::new(),
            free: Vec::new(),
            chain: Ghost(chain),
        };
        proof {
            assert(list@ =~= Map::<usize, usize>::empty());
            assert(list.stale() =~= Set::<usize>::empty());
        }
        list
    }

    /// Tells whether a link carries the deletion mark.
    pub fn is_marked_reference(link: Link) -> (marked: bool)
        ensures
            marked == link.marked,
    {
        link.marked
    }

    /// The same link with the deletion mark set.
    pub fn get_marked_reference(link: Link) -> (out: Link)
        ensures
            out == (Link { slot: link.slot, marked: true }),
    {
        Link { slot: link.slot, marked: true }
    }

    /// The same link with the deletion mark cleared.
    pub fn get_unmarked_reference(link: Link) -> (out: Link)
        ensures
            out == (Link { slot: link.slot, marked: false }),
    {
        Link { slot: link.slot, marked: false }
    }

    /// Number of unlinked slots that no reclamation has taken up yet.
    pub fn pending(&self) -> (n: usize)
        ensures
            n == self.pending_slots(),
    {
        self.retired.len()
    }

    /// Number of unlinked slots that a reclamation is about to release.
    pub fn condemned(&self) -> (n: usize)
        ensures
            n == self.condemned_slots(),
    {
        self.condemned.len()
    }

    /// Number of released slots that the next new nodes will take.
    pub fn available(&self) -> (n: usize)
        ensures
            n == self.free_slots(),
    {
        self.free.len()
    }

    /// Number of cells of the arena, the two sentinels included.
    pub fn slots(&self) -> (n: usize)
        ensures
            n == self.arena_slots(),
    {
        self.nodes.len()
    }

    /// Number of chained nodes, live or marked, without the sentinels.
    pub fn chained(&self) -> (n: usize)
        requires
            self.wf(),
        ensures
            n == self.chained_slots(),
    {
        self.nodes.len() - self.retired.len() - self.condemned.len() - self.free.len() - 2
    }

    /// Every cell of the arena is a sentinel, chained, retired, condemned
    /// or free.
    pub proof fn lemma_accounting(&self)
        requires
            self.wf(),
        ensures
            self.arena_slots() == 2 + self.chained_slots() + self.pending_slots() + self.condemned_slots()
                + self.free_slots(),
    {
    }

    spec fn live_upto(&self, m: int) -> Set<usize> {
        Set::new(|k: usize| exists|i: int| 0 < i < m && self.live_key(i, k))
    }

    spec fn stale_upto(&self, m: int) -> Set<usize> {
        Set::new(|k: usize| exists|i: int| 0 < i < m && self.stale_key(i, k))
    }

    proof fn lemma_count_upto(&self, m: int)
        requires
            self.chain_wf(),
            1 <= m <= self.chain@.len() - 1,
        ensures
            self.live_upto(m).finite(),
            self.stale_upto(m).finite(),
            self.live_upto(m).len() + self.stale_upto(m).len() == m - 1,
        decreases m,
    {
        if m == 1 {
            assert(self.live_upto(m) =~= Set::<usize>::empty());
            assert(self.stale_upto(m) =~= Set::<usize>::empty());
        } else {
            self.lemma_count_upto(m - 1);
            let k = self.node_at(m - 1).key;
            assert(self.interior(m - 1));
            if self.live_upto(m - 1).contains(k) {
                let i = choose|i: int| 0 < i < m - 1 && self.live_key(i, k);
                self.lemma_one_place(i, m - 1);
            }
            if self.stale_upto(m - 1).contains(k) {
                let i = choose|i: int| 0 < i < m - 1 && self.stale_key(i, k);
                self.lemma_one_place(i, m - 1);
            }
            if self.node_at(m - 1).next.marked {
                assert(self.stale_key(m - 1, k));
                assert(self.stale_upto(m) =~= self.stale_upto(m - 1).insert(k));
                assert(self.live_upto(m) =~= self.live_upto(m - 1));
            } else {
                assert(self.live_key(m - 1, k));
                assert(self.live_upto(m) =~= self.live_upto(m - 1).insert(k));
                assert(self.stale_upto(m) =~= self.stale_upto(m - 1));
            }
        }
    }

    /// The chained nodes are the live entries and the marked nodes, each
    /// counted once.
    pub proof fn lemma_chain_count(&self)
        requires
            self.wf(),
        ensures
            self@.dom().finite(),
            self.stale().finite(),
            self.chained_slots() == self@.dom().len() + self.stale().len(),
    {
        let m = self.chain@.len() - 1;
        self.lemma_count_upto(m);
        assert(self.live_upto(m) =~= self@.dom());
        assert(self.stale_upto(m) =~= self.stale());
    }

    /// No key has both a live node and a marked node in the chain.
    pub proof fn lemma_stale_keys_are_absent(&self, key: usize)
        requires
            self.wf(),
            self.stale().contains(key),
        ensures
            !self@.contains_key(key),
    {
        if self@.contains_key(key) {
            let i = self.lemma_found(key);
            self.lemma_live_not_stale(i);
        }
    }

    /// Takes up the slots that were unlinked so far: they are condemned,
    /// and the next release frees them. Slots that are unlinked later wait
    /// for the reclamation after this one. Returns how many were taken up.
    pub fn condemn(&mut self) -> (taken: usize)
        requires
            old(self).wf(),
        ensures
            final(self).condemned_from(old(self)),
            taken == old(self).pending_slots(),
    {
        let ghost pre = *self;
        let taken = self.retired.len();
        self.condemned.append(&mut self.retired);
        proof {
            self.lemma_frame(pre);
            lemma_joined(pre.condemned@, pre.retired@, pre.nodes@.len());
            lemma_joined_apart(pre.condemned@, pre.retired@, pre.chain@);
            lemma_joined_apart(pre.condemned@, pre.retired@, pre.free@);
        }
        taken
    }

    /// Releases the condemned slots, so that new nodes can take them, and
    /// returns how many there were. The caller decides when that is safe.
    pub fn reclaim(&mut self) -> (released: usize)
        requires
            old(self).wf(),
        ensures
            final(self).released_from(old(self)),
            released == old(self).condemned_slots(),
    {
        let ghost pre = *self;
        let released = self.condemned.len();
        self.free.append(&mut self.condemned);
        proof {
            self.lemma_frame(pre);
            lemma_joined(pre.free@, pre.condemned@, pre.nodes@.len());
            lemma_joined_apart(pre.free@, pre.condemned@, pre.chain@);
            lemma_joined_apart(pre.free@, pre.condemned@, pre.retired@);
        }
        released
    }

    /// A list with the same arena and chain has the same entries.
    proof fn lemma_frame(&self, other: LinkedList)
        requires
            other.chain_wf(),
            self.nodes@ == other.nodes@,
            self.chain@ == other.chain@,
        ensures
            self.chain_wf(),
            self@ == other@,
            self.stale() == other.stale(),
            other.marks_wf() ==> self.marks_wf(),
    {
        assert forall|i: int| 0 <= i < self.chain@.len() implies self.node_at(i) == other.node_at(i) by {}
        if other.marks_wf() {
            assert forall|s: int| 2 <= s < self.nodes@.len() && !(#[trigger] self.nodes@[s]).next.marked
                implies exists|j: int| self.interior(j) && #[trigger] self.chain@[j] == s by {
                assert(!other.nodes@[s].next.marked);
                let j = choose|j: int| other.interior(j) && #[trigger] other.chain@[j] == s;
                assert(self.interior(j) && self.chain@[j] == s);
            }
        }
        assert forall|k: usize| self.stale().contains(k) == other.stale().contains(k) by {
            if self.stale().contains(k) {
                let i = choose|i: int| self.stale_key(i, k);
                assert(other.stale_key(i, k));
            }
            if other.stale().contains(k) {
                let i = choose|i: int| other.stale_key(i, k);
                assert(self.stale_key(i, k));
            }
        }
        assert(self.stale() =~= other.stale());
        assert(self.chain_wf()) by {
            assert forall|i: int| 0 <= i < self.chain@.len() - 1
                implies (#[trigger] self.node_at(i)).next.slot == self.chain@[i + 1] by {
                assert(other.node_at(i).next.slot == other.chain@[i + 1]);
            }
            assert forall|i: int, j: int| 0 < i < j < self.chain@.len() - 1
                implies (#[trigger] self.node_at(i)).key < (#[trigger] self.node_at(j)).key by {
                assert(other.node_at(i).key < other.node_at(j).key);
            }
        }
        assert forall|k: usize| self@.contains_key(k) == other@.contains_key(k) by {
            if self@.contains_key(k) {
                let i = self.lemma_found(k);
                assert(other.live_key(i, k));
            }
            if other@.contains_key(k) {
                let i = other.lemma_found(k);
                assert(self.live_key(i, k));
            }
        }
        assert forall|k: usize| self@.contains_key(k) implies self@[k] == other@[k] by {
            let i = self.lemma_found(k);
            assert(other.live_at(i));
            other.lemma_live(i);
        }
        assert(self@ =~= other@);
    }

    /// `left` is the unmarked node at position `p` of the chain, and
    /// `right` the node behind it.
    spec fn follows(&self, left: usize, right: usize, p: int) -> bool {
        &&& 0 <= p < self.chain@.len() - 1
        &&& self.chain@[p] == left
        &&& self.chain@[p + 1] == right
        &&& !self.node_at(p).next.marked
    }

    /// The two slots stand next to each other at position `p` of the chain,
    /// and neither carries a mark (the tail sentinel has none to carry).
    spec fn adjacent(&self, left: usize, right: usize, p: int) -> bool {
        &&& self.follows(left, right, p)
        &&& (p + 1 < self.chain@.len() - 1 ==> !self.node_at(p + 1).next.marked)
        &&& (right == TAIL <==> p + 1 == self.chain@.len() - 1)
    }

    /// Position `p` is the last whose key is below `key`.
    spec fn brackets(&self, p: int, key: usize) -> bool {
        &&& (p > 0 ==> self.node_at(p).key < key)
        &&& (p + 1 < self.chain@.len() - 1 ==> self.node_at(p + 1).key >= key)
    }

    /// A key has one place in the chain.
    proof fn lemma_one_place(&self, i: int, j: int)
        requires
            self.chain_wf(),
            self.interior(i),
            self.interior(j),
            self.node_at(i).key == self.node_at(j).key,
        ensures
            i == j,
    {
        if i < j {
            assert(self.node_at(i).key < self.node_at(j).key);
        } else if j < i {
            assert(self.node_at(j).key < self.node_at(i).key);
        }
    }

    /// With every node strictly between positions `pl` and `pr` marked and
    /// the two positions the live neighbours of the place of `key`, the
    /// marked nodes in the gap around `key` are those between them.
    proof fn lemma_gap(&self, pl: int, pr: int, key: usize)
        requires
            self.chain_wf(),
            0 <= pl < pr <= self.chain@.len() - 1,
            forall|j: int| pl < j < pr ==> (#[trigger] self.node_at(j)).next.marked,
            !self.node_at(pl).next.marked,
            pl > 0 ==> self.node_at(pl).key < key,
            pr < self.chain@.len() - 1 ==> !self.node_at(pr).next.marked && self.node_at(pr).key >= key,
        ensures
            forall|i: int, k: usize| #[trigger]
                self.stale_key(i, k) ==> (in_gap(self@, key, k) <==> pl < i < pr),
    {
        assert forall|i: int, k: usize| #[trigger] self.stale_key(i, k) implies (in_gap(self@, key, k) <==> pl
            < i < pr) by {
            if pl < i < pr {
                assert forall|x: usize| self@.contains_key(x) implies !(k < x < key) && !(key <= x < k) by {
                    let m = self.lemma_found(x);
                    if pl < m < pr {
                        assert(self.node_at(m).next.marked);
                    }
                    if m <= pl {
                        if m < pl {
                            assert(self.node_at(m).key < self.node_at(pl).key);
                        }
                        assert(self.node_at(m).key < self.node_at(i).key);
                    } else {
                        if pr < m {
                            assert(self.node_at(pr).key < self.node_at(m).key);
                        }
                        assert(self.node_at(i).key < self.node_at(m).key);
                    }
                }
            } else if i < pl {
                assert(self.live_at(pl));
                self.lemma_live(pl);
                assert(self.node_at(i).key < self.node_at(pl).key);
            } else {
                assert(i > pr);
                assert(self.live_at(pr));
                self.lemma_live(pr);
                assert(self.node_at(pr).key < self.node_at(i).key);
            }
        }
    }

    /// A key that has a live node has no marked node in the chain.
    proof fn lemma_live_not_stale(&self, i: int)
        requires
            self.chain_wf(),
            self.live_at(i),
        ensures
            !self.stale().contains(self.node_at(i).key),
    {
        let k = self.node_at(i).key;
        if self.stale().contains(k) {
            let j = choose|j: int| self.stale_key(j, k);
            self.lemma_one_place(i, j);
        }
    }

    proof fn lemma_not_present(&self, p: int, key: usize)
        requires
            self.chain_wf(),
            0 <= p < self.chain@.len() - 1,
            p > 0 ==> self.node_at(p).key < key,
            p + 1 < self.chain@.len() - 1 ==> self.node_at(p + 1).key > key,
        ensures
            !self@.contains_key(key),
    {
        if self@.contains_key(key) {
            let i = self.lemma_found(key);
            if i < p {
                assert(self.node_at(i).key < self.node_at(p).key);
            } else if i > p + 1 {
                assert(self.node_at(p + 1).key < self.node_at(i).key);
            }
            assert(false);
        }
    }

    /// Each place `j` of this chain, but the one after `p` where `d` is
    /// negative, holds the node that stood at place `past(j, p, d)` of
    /// `pre`, with its key, value and mark; only the node at `p` has a new
    /// link.
    spec fn same_places(&self, pre: LinkedList, p: int, d: int) -> bool {
        forall|j: int|
            0 <= j < self.chain@.len() && (d >= 0 || j != p + 1) ==> {
                &&& 0 <= past(j, p, d) < pre.chain@.len()
                &&& self.chain@[j] == pre.chain@[past(j, p, d)]
                &&& (#[trigger] self.node_at(j)).key == pre.node_at(past(j, p, d)).key
                &&& self.node_at(j).value == pre.node_at(past(j, p, d)).value
                &&& self.node_at(j).next.marked == pre.node_at(past(j, p, d)).next.marked
                &&& (j != p ==> self.node_at(j) == pre.node_at(past(j, p, d)))
            }
    }

    /// This list is `pre` after the marked nodes between the positions
    /// `pl` and `pr` were unlinked and retired.
    spec fn spliced_from(&self, pre: LinkedList, pl: int, pr: int) -> bool {
        &&& pre.wf()
        &&& 0 <= pl
        &&& pl + 1 < pr <= pre.chain@.len() - 1
        &&& !pre.node_at(pl).next.marked
        &&& forall|j: int| pl < j < pr ==> (#[trigger] pre.node_at(j)).next.marked
        &&& self.nodes@ == with_next(
            pre.nodes@,
            pre.chain@[pl] as int,
            Link { slot: pre.chain@[pr], marked: false },
        )
        &&& self.chain@ =~= Seq::new(
            (pre.chain@.len() - (pr - pl - 1)) as nat,
            |j: int| pre.chain@[past(j, pl, pr - pl - 1)],
        )
        &&& self.retired@ == pre.retired@ + pre.chain@.subrange(pl + 1, pr)
        &&& self.condemned@ == pre.condemned@
        &&& self.free@ == pre.free@
    }

    proof fn lemma_spliced_places(&self, pre: LinkedList, pl: int, pr: int)
        requires
            self.spliced_from(pre, pl, pr),
        ensures
            self.same_places(pre, pl, pr - pl - 1),
            self.node_at(pl).next == (Link { slot: pre.chain@[pr], marked: false }),
    {
        let d = pr - pl - 1;
        assert forall|j: int| 0 <= j < self.chain@.len() implies {
            &&& 0 <= past(j, pl, d) < pre.chain@.len()
            &&& self.chain@[j] == pre.chain@[past(j, pl, d)]
            &&& (#[trigger] self.node_at(j)).key == pre.node_at(past(j, pl, d)).key
            &&& self.node_at(j).value == pre.node_at(past(j, pl, d)).value
            &&& self.node_at(j).next.marked == pre.node_at(past(j, pl, d)).next.marked
            &&& (j != pl ==> self.node_at(j) == pre.node_at(past(j, pl, d)))
        } by {
            let o = past(j, pl, d);
            if o < pl {
                pre.lemma_distinct(o, pl);
            } else if o > pl {
                pre.lemma_distinct(pl, o);
            }
        }
    }

    proof fn lemma_spliced_chain(&self, pre: LinkedList, pl: int, pr: int)
        requires
            self.spliced_from(pre, pl, pr),
            self.same_places(pre, pl, pr - pl - 1),
            self.node_at(pl).next.slot == pre.chain@[pr],
        ensures
            self.chain_wf(),
    {
        let d = pr - pl - 1;
        assert forall|j: int| 0 <= j < self.chain@.len() - 1 implies (#[trigger] self.node_at(j)).next.slot
            == self.chain@[j + 1] by {
            let o = past(j, pl, d);
            assert(pre.node_at(o).next.slot == pre.chain@[o + 1]);
        }
        assert forall|j: int| self.interior(j) implies (#[trigger] self.chain@[j]) >= 2 by {
            assert(pre.interior(past(j, pl, d)));
        }
        assert forall|i: int, j: int| 0 < i < j < self.chain@.len() - 1 implies (#[trigger] self.node_at(i)).key
            < (#[trigger] self.node_at(j)).key by {
            assert(pre.node_at(past(i, pl, d)).key < pre.node_at(past(j, pl, d)).key);
        }
        assert(self.node_at(0).next.marked == pre.node_at(0).next.marked);
    }

    proof fn lemma_spliced_pool(&self, pre: LinkedList, pl: int, pr: int)
        requires
            self.spliced_from(pre, pl, pr),
        ensures
            self.pool_wf(),
    {
        let d = pr - pl - 1;
        let run = pre.chain@.subrange(pl + 1, pr);
        assert forall|i: int| 0 <= i < run.len() implies 2 <= (#[trigger] run[i]) < pre.nodes@.len() by {
            assert(pre.interior(pl + 1 + i));
            assert(pre.chain@[pl + 1 + i] >= 2);
        }
        assert forall|i: int, j: int| 0 <= i < j < run.len() implies (#[trigger] run[i]) != (#[trigger] run[j]) by {
            pre.lemma_distinct(pl + 1 + i, pl + 1 + j);
        }
        assert forall|i: int, j: int| 0 <= i < run.len() && 0 <= j < self.chain@.len() implies (#[trigger] run[i])
            != (#[trigger] self.chain@[j]) by {
            let o = past(j, pl, d);
            if o < pl + 1 + i {
                pre.lemma_distinct(o, pl + 1 + i);
            } else {
                pre.lemma_distinct(pl + 1 + i, o);
            }
        }
        assert(disjoint(pre.retired@, run)) by {
            assert forall|i: int, j: int| 0 <= i < pre.retired@.len() && 0 <= j < run.len()
                implies (#[trigger] pre.retired@[i]) != (#[trigger] run[j]) by {
                assert(pre.retired@[i] != pre.chain@[pl + 1 + j]);
            }
        }
        assert(disjoint(pre.condemned@, run)) by {
            assert forall|i: int, j: int| 0 <= i < pre.condemned@.len() && 0 <= j < run.len()
                implies (#[trigger] pre.condemned@[i]) != (#[trigger] run[j]) by {
                assert(pre.condemned@[i] != pre.chain@[pl + 1 + j]);
            }
        }
        assert(disjoint(pre.free@, run)) by {
            assert forall|i: int, j: int| 0 <= i < pre.free@.len() && 0 <= j < run.len()
                implies (#[trigger] pre.free@[i]) != (#[trigger] run[j]) by {
                assert(pre.free@[i] != pre.chain@[pl + 1 + j]);
            }
        }
        assert(disjoint(pre.retired@, self.chain@)) by {
            assert forall|i: int, j: int| 0 <= i < pre.retired@.len() && 0 <= j < self.chain@.len()
                implies (#[trigger] pre.retired@[i]) != (#[trigger] self.chain@[j]) by {
                assert(pre.retired@[i] != pre.chain@[past(j, pl, d)]);
            }
        }
        assert(disjoint(self.condemned@, self.chain@)) by {
            assert forall|i: int, j: int| 0 <= i < pre.condemned@.len() && 0 <= j < self.chain@.len()
                implies (#[trigger] pre.condemned@[i]) != (#[trigger] self.chain@[j]) by {
                assert(pre.condemned@[i] != pre.chain@[past(j, pl, d)]);
            }
        }
        assert(disjoint(self.free@, self.chain@)) by {
            assert forall|i: int, j: int| 0 <= i < pre.free@.len() && 0 <= j < self.chain@.len()
                implies (#[trigger] pre.free@[i]) != (#[trigger] self.chain@[j]) by {
                assert(pre.free@[i] != pre.chain@[past(j, pl, d)]);
            }
        }
        lemma_joined(pre.retired@, run, pre.nodes@.len());
        lemma_joined_apart(pre.retired@, run, self.chain@);
        lemma_joined_apart(pre.retired@, run, pre.condemned@);
        lemma_joined_apart(pre.retired@, run, pre.free@);
    }

    proof fn lemma_spliced_view(&self, pre: LinkedList, pl: int, pr: int)
        requires
            self.spliced_from(pre, pl, pr),
            self.same_places(pre, pl, pr - pl - 1),
            self.chain_wf(),
        ensures
            self@ == pre@,
            forall|k: usize|
                self.stale().contains(k) <==> exists|i: int| #[trigger] pre.stale_key(i, k) && !(pl < i < pr),
    {
        let d = pr - pl - 1;
        assert forall|k: usize| self@.contains_key(k) == pre@.contains_key(k) by {
            if self@.contains_key(k) {
                let j = self.lemma_found(k);
                assert(self.node_at(j).key == pre.node_at(past(j, pl, d)).key);
                assert(pre.live_key(past(j, pl, d), k));
            }
            if pre@.contains_key(k) {
                let o = pre.lemma_found(k);
                let j = past(o, pl, -d);
                assert(!pre.node_at(o).next.marked);
                assert(past(j, pl, d) == o);
                assert(self.node_at(j).key == pre.node_at(o).key);
                assert(self.live_key(j, k));
            }
        }
        assert forall|k: usize| self@.contains_key(k) implies self@[k] == pre@[k] by {
            let j = self.lemma_found(k);
            let o = past(j, pl, d);
            assert(self.node_at(j).value == pre.node_at(o).value);
            assert(pre.live_at(o));
            pre.lemma_live(o);
        }
        assert(self@ =~= pre@);
        assert forall|k: usize| self.stale().contains(k) <==> exists|i: int| #[trigger]
            pre.stale_key(i, k) && !(pl < i < pr) by {
            if self.stale().contains(k) {
                let j = choose|j: int| self.stale_key(j, k);
                let o = past(j, pl, d);
                assert(self.node_at(j).key == pre.node_at(o).key);
                assert(pre.stale_key(o, k) && !(pl < o < pr));
            }
            if exists|i: int| #[trigger] pre.stale_key(i, k) && !(pl < i < pr) {
                let o = choose|i: int| #[trigger] pre.stale_key(i, k) && !(pl < i < pr);
                let j = past(o, pl, -d);
                assert(past(j, pl, d) == o);
                assert(self.node_at(j).key == pre.node_at(o).key);
                assert(self.stale_key(j, k));
            }
        }
    }

    proof fn lemma_spliced_marks(&self, pre: LinkedList, pl: int, pr: int)
        requires
            self.spliced_from(pre, pl, pr),
        ensures
            self.marks_wf(),
    {
        let d = pr - pl - 1;
        assert forall|s: int| 2 <= s < self.nodes@.len() && !(#[trigger] self.nodes@[s]).next.marked
            implies exists|j: int| self.interior(j) && #[trigger] self.chain@[j] == s by {
            assert(!pre.nodes@[s].next.marked);
            let o = choose|j: int| pre.interior(j) && #[trigger] pre.chain@[j] == s;
            if pl < o < pr {
                assert(pre.node_at(o).next.marked);
            }
            let j = past(o, pl, -d);
            assert(past(j, pl, d) == o);
            assert(self.interior(j) && self.chain@[j] == s);
        }
    }

    /// Unlinks the run of marked nodes between positions `pl` and `pr` with
    /// one swap on the link of the node at `pl`, and retires their slots.
    fn splice(&mut self, left: usize, left_next: Link, right: usize, Ghost(pl): Ghost<int>, Ghost(pr): Ghost<int>)
        requires
            old(self).wf(),
            0 <= pl,
            pl + 1 < pr <= old(self).chain@.len() - 1,
            old(self).chain@[pl] == left,
            old(self).chain@[pr] == right,
            left_next == old(self).nodes@[left as int].next,
            !left_next.marked,
            forall|j: int| pl < j < pr ==> (#[trigger] old(self).node_at(j)).next.marked,
        ensures
            final(self).wf(),
            final(self)@ == old(self)@,
            final(self).chain@.len() == old(self).chain@.len() - (pr - pl - 1),
            final(self).chain@[pl] == left,
            final(self).chain@[pl + 1] == right,
            final(self).node_at(pl).key == old(self).node_at(pl).key,
            !final(self).node_at(pl).next.marked,
            final(self).node_at(pl + 1) == old(self).node_at(pr),
            final(self).pending_slots() > old(self).pending_slots(),
            final(self).condemned_slots() == old(self).condemned_slots(),
            final(self).free_slots() == old(self).free_slots(),
            final(self).arena_slots() == old(self).arena_slots(),
            final(self).pending_slots() + final(self).chained_slots()
                == old(self).pending_slots() + old(self).chained_slots(),
            forall|k: usize|
                final(self).stale().contains(k) <==> exists|i: int|
                    #[trigger] old(self).stale_key(i, k) && !(pl < i < pr),
    {
        let ghost pre = *self;
        let mut cur: usize = left_next.slot;
        let ghost mut pc: int = pl + 1;
        proof {
            assert(self.node_at(pl).next.slot == self.chain@[pl + 1]);
            self.lemma_distinct(pl + 1, pr);
            assert(self.retired@ =~= pre.retired@ + pre.chain@.subrange(pl + 1, pl + 1));
        }
        while cur != right
            invariant
                self.nodes@ == pre.nodes@,
                self.chain@ == pre.chain@,
                self.free@ == pre.free@,
                self.condemned@ == pre.condemned@,
                pre.wf(),
                0 <= pl < pc <= pr,
                pr <= pre.chain@.len() - 1,
                cur == pre.chain@[pc],
                right == pre.chain@[pr],
                self.retired@ == pre.retired@ + pre.chain@.subrange(pl + 1, pc),
            decreases pr - pc,
        {
            proof {
                assert(pre.node_at(pc).next.slot == pre.chain@[pc + 1]);
            }
            self.retired.push(cur);
            cur = self.nodes[cur].next.slot;
            proof {
                pc = pc + 1;
                assert(self.retired@ =~= pre.retired@ + pre.chain@.subrange(pl + 1, pc));
            }
        }
        proof {
            if pc < pr {
                pre.lemma_distinct(pc, pr);
            }
        }
        let swapped = compare_and_swap_next(&mut self.nodes, left, left_next, Link { slot: right, marked: false });
        assert(swapped);
        self.chain = Ghost(
            Seq::new((pre.chain@.len() - (pr - pl - 1)) as nat, |j: int| pre.chain@[past(j, pl, pr - pl - 1)]),
        );
        proof {
            assert(pre.node_at(pl) == pre.nodes@[left as int]);
            self.lemma_spliced_places(pre, pl, pr);
            self.lemma_spliced_chain(pre, pl, pr);
            self.lemma_spliced_pool(pre, pl, pr);
            self.lemma_spliced_marks(pre, pl, pr);
            self.lemma_spliced_view(pre, pl, pr);
            assert(self.node_at(pl + 1) == pre.node_at(pr));
        }
    }

    /// Positions `pl` and `pr` hold the place of `key`: `left` is the last
    /// unmarked node whose key is below it (or the head sentinel), `right`
    /// the first unmarked node whose key is not (or the tail sentinel), and
    /// only marked nodes stand between them.
    spec fn place_at(&self, left: usize, right: usize, pl: int, pr: int, key: usize) -> bool {
        &&& 0 <= pl < pr <= self.chain@.len() - 1
        &&& self.chain@[pl] == left
        &&& self.chain@[pr] == right
        &&& !self.node_at(pl).next.marked
        &&& forall|j: int| pl < j < pr ==> (#[trigger] self.node_at(j)).next.marked
        &&& (pl > 0 ==> self.node_at(pl).key < key)
        &&& (pr < self.chain@.len() - 1 ==> !self.node_at(pr).next.marked && self.node_at(pr).key >= key)
        &&& (right == TAIL <==> pr == self.chain@.len() - 1)
    }

    /// Walks from the head sentinel to the place of `key` and changes
    /// nothing.
    fn walk(&self, key: usize) -> (res: (usize, Link, usize, Ghost<int>, Ghost<int>))
        requires
            self.wf(),
        ensures
            self.place_at(res.0, res.2, res.3@, res.4@, key),
            res.1 == self.nodes@[res.0 as int].next,
    {
        let mut t: usize = HEAD;
        let mut t_next: Link = self.nodes[HEAD].next;
        let mut left: usize = HEAD;
        let mut left_next: Link = t_next;
        let ghost mut pt: int = 0;
        let ghost mut pl: int = 0;
        loop
            invariant_except_break
                0 <= pl <= pt < self.chain@.len() - 1,
                t_next == self.nodes@[t as int].next,
                forall|j: int| pl < j < pt ==> (#[trigger] self.node_at(j)).next.marked,
                forall|j: int|
                    0 < j <= pt && !(#[trigger] self.node_at(j)).next.marked ==> self.node_at(j).key < key,
            invariant
                self.wf(),
                t == self.chain@[pt],
                left == self.chain@[pl],
                left_next == self.nodes@[left as int].next,
                !left_next.marked,
            ensures
                0 <= pl < pt <= self.chain@.len() - 1,
                forall|j: int| pl < j < pt ==> (#[trigger] self.node_at(j)).next.marked,
                pl > 0 ==> self.node_at(pl).key < key,
                pt < self.chain@.len() - 1 ==> !self.node_at(pt).next.marked && self.node_at(pt).key >= key,
                t == TAIL <==> pt == self.chain@.len() - 1,
            decreases self.chain@.len() - pt,
        {
            if !Self::is_marked_reference(t_next) {
                left = t;
                left_next = t_next;
                proof {
                    pl = pt;
                }
            }
            proof {
                assert(self.node_at(pt).next.slot == self.chain@[pt + 1]);
                assert(self.node_at(pl) == self.nodes@[left as int]);
            }
            t = Self::get_unmarked_reference(t_next).slot;
            proof {
                pt = pt + 1;
                if pt < self.chain@.len() - 1 {
                    assert(self.interior(pt));
                }
            }
            if t == TAIL {
                break ;
            }
            t_next = self.nodes[t].next;
            if !Self::is_marked_reference(t_next) && self.nodes[t].key >= key {
                break ;
            }
        }
        proof {
            assert(self.node_at(pl) == self.nodes@[left as int]);
        }
        (left, left_next, t, Ghost(pl), Ghost(pt))
    }

    /// Finds the place of `key`: the last unmarked node whose key is below
    /// it (or the head sentinel) and the first unmarked node whose key is
    /// not (or the tail sentinel). Marked nodes that stand between the two
    /// are unlinked on the way, so the pair comes back adjacent.
    fn search(&mut self, key: usize) -> (res: (usize, usize, Ghost<int>))
        requires
            old(self).wf(),
        ensures
            final(self).wf(),
            final(self)@ == old(self)@,
            final(self).adjacent(res.0, res.1, res.2@),
            final(self).brackets(res.2@, key),
            final(self).pending_slots() >= old(self).pending_slots(),
            final(self).condemned_slots() == old(self).condemned_slots(),
            final(self).free_slots() == old(self).free_slots(),
            final(self).arena_slots() == old(self).arena_slots(),
            final(self).pending_slots() + final(self).chained_slots()
                == old(self).pending_slots() + old(self).chained_slots(),
            final(self).stale() == swept(old(self).stale(), old(self)@, key),
    {
        let ghost pre = *self;
        let (left, left_next, right, Ghost(pl), Ghost(pt)) = self.walk(key);
        proof {
            pre.lemma_gap(pl, pt, key);
        }
        if left_next.slot == right {
            proof {
                assert(self.node_at(pl).next.slot == self.chain@[pl + 1]);
                if pl + 1 < pt {
                    self.lemma_distinct(pl + 1, pt);
                }
                assert forall|k: usize| pre.stale().contains(k) implies !in_gap(pre@, key, k) by {
                    let i = choose|i: int| pre.stale_key(i, k);
                    assert(pre.stale_key(i, k));
                }
                assert(self.stale() =~= swept(pre.stale(), pre@, key));
            }
            return (left, right, Ghost(pl));
        }
        proof {
            assert(self.node_at(pl).next.slot == self.chain@[pl + 1]);
        }
        self.splice(left, left_next, right, Ghost(pl), Ghost(pt));
        proof {
            assert forall|k: usize| self.stale().contains(k) == swept(pre.stale(), pre@, key).contains(k) by {
                if self.stale().contains(k) {
                    let i = choose|i: int| #[trigger] pre.stale_key(i, k) && !(pl < i < pt);
                    assert(pre.stale_key(i, k));
                }
                if swept(pre.stale(), pre@, key).contains(k) {
                    let i = choose|i: int| pre.stale_key(i, k);
                    assert(pre.stale_key(i, k) && !(pl < i < pt));
                }
            }
            assert(self.stale() =~= swept(pre.stale(), pre@, key));
        }
        (left, right, Ghost(pl))
    }

    /// This list is `pre` after a node for `key` took `slot` and was linked
    /// behind position `p`.
    spec fn linked_from(&self, pre: LinkedList, p: int, slot: usize, key: usize, value: usize) -> bool {
        let node = Node { key, value, next: Link { slot: pre.chain@[p + 1], marked: false } };
        let link = Link { slot, marked: false };
        &&& pre.wf()
        &&& 0 <= p < pre.chain@.len() - 1
        &&& !pre.node_at(p).next.marked
        &&& (p > 0 ==> pre.node_at(p).key < key)
        &&& (p + 1 < pre.chain@.len() - 1 ==> key < pre.node_at(p + 1).key)
        &&& if pre.free@.len() > 0 {
            &&& slot == pre.free@[pre.free@.len() - 1]
            &&& self.free@ == pre.free@.subrange(0, pre.free@.len() - 1)
            &&& self.nodes@ == with_next(pre.nodes@.update(slot as int, node), pre.chain@[p] as int, link)
        } else {
            &&& slot == pre.nodes@.len()
            &&& self.free@ == pre.free@
            &&& self.nodes@ == with_next(pre.nodes@.push(node), pre.chain@[p] as int, link)
        }
        &&& self.chain@ =~= Seq::new(
            (pre.chain@.len() + 1) as nat,
            |j: int|
                if j == p + 1 {
                    slot
                } else {
                    pre.chain@[past(j, p, -1)]
                },
        )
        &&& self.retired@ == pre.retired@
        &&& self.condemned@ == pre.condemned@
    }

    /// The slot that a new node takes is a cell that nothing else uses.
    spec fn unused(&self, pre: LinkedList, slot: usize) -> bool {
        &&& 2 <= slot < self.nodes@.len()
        &&& pre.nodes@.len() <= self.nodes@.len()
        &&& forall|j: int| 0 <= j < pre.chain@.len() ==> (#[trigger] pre.chain@[j]) != slot
        &&& forall|i: int| 0 <= i < self.retired@.len() ==> (#[trigger] self.retired@[i]) != slot
        &&& forall|i: int| 0 <= i < self.condemned@.len() ==> (#[trigger] self.condemned@[i]) != slot
        &&& forall|i: int| 0 <= i < self.free@.len() ==> (#[trigger] self.free@[i]) != slot
    }

    proof fn lemma_linked_slot(&self, pre: LinkedList, p: int, slot: usize, key: usize, value: usize)
        requires
            self.linked_from(pre, p, slot, key, value),
        ensures
            self.unused(pre, slot),
    {
        let last = pre.free@.len() - 1;
        assert forall|j: int| 0 <= j < pre.chain@.len() implies (#[trigger] pre.chain@[j]) != slot by {
            if pre.free@.len() > 0 {
                assert(pre.free@[last] != pre.chain@[j]);
            }
        }
        assert forall|i: int| 0 <= i < self.retired@.len() implies (#[trigger] self.retired@[i]) != slot by {
            if pre.free@.len() > 0 {
                assert(pre.retired@[i] != pre.free@[last]);
            } else {
                assert(pre.retired@[i] < pre.nodes@.len());
            }
        }
        assert forall|i: int| 0 <= i < self.condemned@.len() implies (#[trigger] self.condemned@[i]) != slot by {
            if pre.free@.len() > 0 {
                assert(pre.condemned@[i] != pre.free@[last]);
            } else {
                assert(pre.condemned@[i] < pre.nodes@.len());
            }
        }
        assert forall|i: int| 0 <= i < self.free@.len() implies (#[trigger] self.free@[i]) != slot by {
            if pre.free@.len() > 0 {
                assert(self.free@[i] == pre.free@[i]);
                assert(pre.free@[i] != pre.free@[last]);
            }
        }
        if pre.free@.len() > 0 {
            assert(2 <= pre.free@[last] < pre.nodes@.len());
        }
    }

    proof fn lemma_linked_places(&self, pre: LinkedList, p: int, slot: usize, key: usize, value: usize)
        requires
            self.linked_from(pre, p, slot, key, value),
            self.unused(pre, slot),
        ensures
            self.same_places(pre, p, -1),
            self.node_at(p).next == (Link { slot, marked: false }),
            self.node_at(p + 1) == (Node { key, value, next: Link { slot: pre.chain@[p + 1], marked: false } }),
    {
        assert forall|j: int| 0 <= j < self.chain@.len() && j != p + 1 implies {
            &&& 0 <= past(j, p, -1) < pre.chain@.len()
            &&& self.chain@[j] == pre.chain@[past(j, p, -1)]
            &&& (#[trigger] self.node_at(j)).key == pre.node_at(past(j, p, -1)).key
            &&& self.node_at(j).value == pre.node_at(past(j, p, -1)).value
            &&& self.node_at(j).next.marked == pre.node_at(past(j, p, -1)).next.marked
            &&& (j != p ==> self.node_at(j) == pre.node_at(past(j, p, -1)))
        } by {
            let o = past(j, p, -1);
            assert(pre.chain@[o] != slot);
            if o < p {
                pre.lemma_distinct(o, p);
            } else if o > p {
                pre.lemma_distinct(p, o);
            }
        }
        assert(pre.chain@[p] != slot);
    }

    proof fn lemma_linked_chain(&self, pre: LinkedList, p: int, slot: usize, key: usize, value: usize)
        requires
            self.linked_from(pre, p, slot, key, value),
            self.unused(pre, slot),
            self.same_places(pre, p, -1),
            self.node_at(p).next == (Link { slot, marked: false }),
            self.node_at(p + 1) == (Node { key, value, next: Link { slot: pre.chain@[p + 1], marked: false } }),
        ensures
            self.chain_wf(),
    {
        assert forall|j: int| 0 <= j < self.chain@.len() - 1 implies (#[trigger] self.node_at(j)).next.slot
            == self.chain@[j + 1] by {
            if j != p + 1 && j != p {
                let o = past(j, p, -1);
                assert(pre.node_at(o).next.slot == pre.chain@[o + 1]);
            }
        }
        assert forall|j: int| self.interior(j) implies (#[trigger] self.chain@[j]) >= 2 by {
            if j != p + 1 {
                assert(pre.interior(past(j, p, -1)));
            }
        }
        assert forall|i: int, j: int| 0 < i < j < self.chain@.len() - 1 implies (#[trigger] self.node_at(i)).key
            < (#[trigger] self.node_at(j)).key by {
            let oi = past(i, p, -1);
            let oj = past(j, p, -1);
            if i == p + 1 {
                if oj > p + 1 {
                    assert(pre.node_at(p + 1).key < pre.node_at(oj).key);
                }
            } else if j == p + 1 {
                if oi < p {
                    assert(pre.node_at(oi).key < pre.node_at(p).key);
                }
            } else {
                assert(pre.node_at(oi).key < pre.node_at(oj).key);
            }
        }
        assert(self.node_at(0).next.marked == pre.node_at(0).next.marked);
    }

    proof fn lemma_linked_pool(&self, pre: LinkedList, p: int, slot: usize, key: usize, value: usize)
        requires
            self.linked_from(pre, p, slot, key, value),
            self.unused(pre, slot),
        ensures
            self.pool_wf(),
    {
        assert forall|i: int| 0 <= i < self.free@.len() implies (#[trigger] self.free@[i]) == pre.free@[i] by {}
        assert(disjoint(self.retired@, self.chain@)) by {
            assert forall|i: int, j: int| 0 <= i < self.retired@.len() && 0 <= j < self.chain@.len()
                implies (#[trigger] self.retired@[i]) != (#[trigger] self.chain@[j]) by {
                if j != p + 1 {
                    assert(pre.retired@[i] != pre.chain@[past(j, p, -1)]);
                }
            }
        }
        assert(disjoint(self.condemned@, self.chain@)) by {
            assert forall|i: int, j: int| 0 <= i < self.condemned@.len() && 0 <= j < self.chain@.len()
                implies (#[trigger] self.condemned@[i]) != (#[trigger] self.chain@[j]) by {
                if j != p + 1 {
                    assert(pre.condemned@[i] != pre.chain@[past(j, p, -1)]);
                }
            }
        }
        assert(disjoint(self.free@, self.chain@)) by {
            assert forall|i: int, j: int| 0 <= i < self.free@.len() && 0 <= j < self.chain@.len()
                implies (#[trigger] self.free@[i]) != (#[trigger] self.chain@[j]) by {
                if j != p + 1 {
                    assert(pre.free@[i] != pre.chain@[past(j, p, -1)]);
                }
            }
        }
        assert(disjoint(self.retired@, self.free@)) by {
            assert forall|i: int, j: int| 0 <= i < self.retired@.len() && 0 <= j < self.free@.len()
                implies (#[trigger] self.retired@[i]) != (#[trigger] self.free@[j]) by {
                assert(pre.retired@[i] != pre.free@[j]);
            }
        }
        assert(disjoint(self.condemned@, self.free@)) by {
            assert forall|i: int, j: int| 0 <= i < self.condemned@.len() && 0 <= j < self.free@.len()
                implies (#[trigger] self.condemned@[i]) != (#[trigger] self.free@[j]) by {
                assert(pre.condemned@[i] != pre.free@[j]);
            }
        }
        assert(distinct(self.free@)) by {
            assert forall|i: int, j: int| 0 <= i < j < self.free@.len()
                implies (#[trigger] self.free@[i]) != (#[trigger] self.free@[j]) by {
                assert(pre.free@[i] != pre.free@[j]);
            }
        }
        assert(within(self.free@, self.nodes@.len())) by {
            assert forall|i: int| 0 <= i < self.free@.len() implies 2 <= (#[trigger] self.free@[i])
                < self.nodes@.len() by {
                assert(2 <= pre.free@[i] < pre.nodes@.len());
            }
        }
        assert(within(self.retired@, self.nodes@.len())) by {
            assert forall|i: int| 0 <= i < self.retired@.len() implies 2 <= (#[trigger] self.retired@[i])
                < self.nodes@.len() by {
                assert(2 <= pre.retired@[i] < pre.nodes@.len());
            }
        }
        assert(within(self.condemned@, self.nodes@.len())) by {
            assert forall|i: int| 0 <= i < self.condemned@.len() implies 2 <= (#[trigger] self.condemned@[i])
                < self.nodes@.len() by {
                assert(2 <= pre.condemned@[i] < pre.nodes@.len());
            }
        }
    }

    proof fn lemma_linked_view(&self, pre: LinkedList, p: int, slot: usize, key: usize, value: usize)
        requires
            self.linked_from(pre, p, slot, key, value),
            self.same_places(pre, p, -1),
            self.node_at(p + 1) == (Node { key, value, next: Link { slot: pre.chain@[p + 1], marked: false } }),
            self.chain_wf(),
        ensures
            self@ == pre@.insert(key, value),
            self.stale() == pre.stale(),
    {
        let goal = pre@.insert(key, value);
        assert(self.live_at(p + 1));
        self.lemma_live(p + 1);
        assert forall|k: usize| self@.contains_key(k) == goal.contains_key(k) by {
            if self@.contains_key(k) && k != key {
                let j = self.lemma_found(k);
                let o = past(j, p, -1);
                assert(self.node_at(j).key == pre.node_at(o).key);
                assert(pre.live_key(o, k));
            }
            if pre@.contains_key(k) && k != key {
                let o = pre.lemma_found(k);
                let j = past(o, p, 1);
                assert(past(j, p, -1) == o);
                assert(self.node_at(j).key == pre.node_at(o).key);
                assert(self.live_key(j, k));
            }
        }
        assert forall|k: usize| self@.contains_key(k) implies self@[k] == goal[k] by {
            if k != key {
                let j = self.lemma_found(k);
                let o = past(j, p, -1);
                assert(self.node_at(j).value == pre.node_at(o).value);
                assert(pre.live_at(o));
                pre.lemma_live(o);
            }
        }
        assert(self@ =~= goal);
        assert forall|k: usize| self.stale().contains(k) == pre.stale().contains(k) by {
            if self.stale().contains(k) {
                let j = choose|j: int| self.stale_key(j, k);
                let o = past(j, p, -1);
                assert(j != p + 1);
                assert(self.node_at(j).key == pre.node_at(o).key);
                assert(pre.stale_key(o, k));
            }
            if pre.stale().contains(k) {
                let o = choose|o: int| pre.stale_key(o, k);
                let j = past(o, p, 1);
                assert(past(j, p, -1) == o);
                assert(self.node_at(j).key == pre.node_at(o).key);
                assert(self.stale_key(j, k));
            }
        }
        assert(self.stale() =~= pre.stale());
    }

    proof fn lemma_linked_marks(&self, pre: LinkedList, p: int, slot: usize, key: usize, value: usize)
        requires
            self.linked_from(pre, p, slot, key, value),
            self.unused(pre, slot),
        ensures
            self.marks_wf(),
    {
        assert forall|s: int| 2 <= s < self.nodes@.len() && !(#[trigger] self.nodes@[s]).next.marked
            implies exists|j: int| self.interior(j) && #[trigger] self.chain@[j] == s by {
            if s == slot {
                assert(self.interior(p + 1) && self.chain@[p + 1] == s);
            } else {
                assert(!pre.nodes@[s].next.marked);
                let o = choose|j: int| pre.interior(j) && #[trigger] pre.chain@[j] == s;
                let j = past(o, p, 1);
                assert(past(j, p, -1) == o);
                assert(self.interior(j) && self.chain@[j] == s);
            }
        }
    }

    /// Allocates a node for `key` and links it between the adjacent pair
    /// at position `p` with one swap on the link of `left`. The node takes
    /// a free slot if there is one, and a new cell otherwise.
    fn link_after(&mut self, left: usize, right: usize, Ghost(p): Ghost<int>, key: usize, value: usize)
        requires
            old(self).wf(),
            old(self).follows(left, right, p),
            p > 0 ==> old(self).node_at(p).key < key,
            p + 1 < old(self).chain@.len() - 1 ==> key < old(self).node_at(p + 1).key,
        ensures
            final(self).wf(),
            final(self)@ == old(self)@.insert(key, value),
            final(self).pending_slots() == old(self).pending_slots(),
            final(self).condemned_slots() == old(self).condemned_slots(),
            old(self).free_slots() > 0 ==> final(self).free_slots() == old(self).free_slots() - 1
                && final(self).arena_slots() == old(self).arena_slots(),
            old(self).free_slots() == 0 ==> final(self).free_slots() == 0 && final(self).arena_slots()
                == old(self).arena_slots() + 1,
            final(self).chained_slots() == old(self).chained_slots() + 1,
            final(self).stale() == old(self).stale(),
    {
        let ghost pre = *self;
        let mut node = Node::new(key, value);
        node.next = Link { slot: right, marked: false };
        proof {
            assert(self.node_at(p).next.slot == self.chain@[p + 1]);
            if pre.free@.len() > 0 {
                let last = pre.free@.len() - 1;
                assert(2 <= pre.free@[last] < pre.nodes@.len());
                assert(pre.free@[last] != pre.chain@[p]);
            }
        }
        let slot: usize = match self.free.pop() {
            Some(released) => {
                self.nodes.set(released, node);
                released
            },
            None => {
                let fresh = self.nodes.len();
                self.nodes.push(node);
                fresh
            },
        };
        let swapped = compare_and_swap_next(
            &mut self.nodes,
            left,
            Link { slot: right, marked: false },
            Link { slot: slot, marked: false },
        );
        assert(swapped);
        self.chain = Ghost(
            Seq::new(
                (pre.chain@.len() + 1) as nat,
                |j: int|
                    if j == p + 1 {
                        slot
                    } else {
                        pre.chain@[past(j, p, -1)]
                    },
            ),
        );
        proof {
            assert(self.linked_from(pre, p, slot, key, value));
            self.lemma_linked_slot(pre, p, slot, key, value);
            self.lemma_linked_places(pre, p, slot, key, value);
            self.lemma_linked_chain(pre, p, slot, key, value);
            self.lemma_linked_pool(pre, p, slot, key, value);
            self.lemma_linked_marks(pre, p, slot, key, value);
            self.lemma_linked_view(pre, p, slot, key, value);
        }
    }

    /// Replaces the value of the live node at position `p` in place.
    fn overwrite_at(&mut self, slot: usize, Ghost(p): Ghost<int>, value: usize) -> (previous: usize)
        requires
            old(self).wf(),
            old(self).live_at(p),
            old(self).chain@[p] == slot,
        ensures
            final(self).wf(),
            previous == old(self).node_at(p).value,
            final(self)@ == old(self)@.insert(old(self).node_at(p).key, value),
            final(self).same_pool(old(self)),
            final(self).chained_slots() == old(self).chained_slots(),
            final(self).stale() == old(self).stale(),
    {
        let ghost pre = *self;
        let previous = exchange_value(&mut self.nodes, slot, value);
        proof {
            let key = pre.node_at(p).key;
            self.lemma_same_chain(pre, p);
            let goal = pre@.insert(key, value);
            self.lemma_live(p);
            assert forall|k: usize| self@.contains_key(k) == goal.contains_key(k) by {
                if self@.contains_key(k) && k != key {
                    let j = self.lemma_found(k);
                    assert(pre.live_key(j, k));
                }
                if pre@.contains_key(k) && k != key {
                    let j = pre.lemma_found(k);
                    assert(self.live_key(j, k));
                }
            }
            assert forall|k: usize| self@.contains_key(k) implies self@[k] == goal[k] by {
                if k != key {
                    let j = self.lemma_found(k);
                    assert(pre.live_at(j));
                    pre.lemma_live(j);
                }
            }
            assert(self@ =~= goal);
            assert forall|k: usize| self.stale().contains(k) == pre.stale().contains(k) by {
                if self.stale().contains(k) {
                    let j = choose|j: int| self.stale_key(j, k);
                    assert(pre.stale_key(j, k));
                }
                if pre.stale().contains(k) {
                    let j = choose|j: int| pre.stale_key(j, k);
                    assert(self.stale_key(j, k));
                }
            }
            assert(self.stale() =~= pre.stale());
        }
        previous
    }

    /// Sets the deletion mark of the live node at position `p` with one
    /// swap on its own link: the logical deletion.
    fn mark_at(&mut self, slot: usize, Ghost(p): Ghost<int>)
        requires
            old(self).wf(),
            old(self).live_at(p),
            old(self).chain@[p] == slot,
        ensures
            final(self).wf(),
            final(self).chain@ == old(self).chain@,
            final(self).nodes@.len() == old(self).nodes@.len(),
            forall|j: int|
                0 <= j < old(self).chain@.len() && j != p ==> #[trigger] final(self).node_at(j) == old(self).node_at(j),
            final(self).node_at(p).next == (Link { slot: old(self).node_at(p).next.slot, marked: true }),
            final(self).node_at(p).key == old(self).node_at(p).key,
            final(self)@ == old(self)@.remove(old(self).node_at(p).key),
            final(self).same_pool(old(self)),
            final(self).chained_slots() == old(self).chained_slots(),
            final(self).stale() == old(self).stale().insert(old(self).node_at(p).key),
    {
        let ghost pre = *self;
        let next = self.nodes[slot].next;
        let swapped = compare_and_swap_next(&mut self.nodes, slot, next, Self::get_marked_reference(next));
        assert(swapped);
        proof {
            let key = pre.node_at(p).key;
            self.lemma_same_chain(pre, p);
            let goal = pre@.remove(key);
            assert forall|k: usize| self@.contains_key(k) == goal.contains_key(k) by {
                if self@.contains_key(k) {
                    let j = self.lemma_found(k);
                    assert(j != p);
                    assert(pre.live_key(j, k));
                    if k == key {
                        pre.lemma_one_place(j, p);
                    }
                }
                if pre@.contains_key(k) && k != key {
                    let j = pre.lemma_found(k);
                    assert(self.live_key(j, k));
                }
            }
            assert forall|k: usize| self@.contains_key(k) implies self@[k] == goal[k] by {
                let j = self.lemma_found(k);
                assert(pre.live_at(j));
                pre.lemma_live(j);
            }
            assert(self@ =~= goal);
            assert forall|k: usize| self.stale().contains(k) == pre.stale().insert(key).contains(k) by {
                if self.stale().contains(k) {
                    let j = choose|j: int| self.stale_key(j, k);
                    if j != p {
                        assert(pre.stale_key(j, k));
                    }
                }
                if pre.stale().contains(k) {
                    let j = choose|j: int| pre.stale_key(j, k);
                    assert(j != p);
                    assert(self.stale_key(j, k));
                }
                if k == key {
                    assert(self.stale_key(p, k));
                }
            }
            assert(self.stale() =~= pre.stale().insert(key));
        }
    }

    /// After a change to the one cell at interior position `p` that keeps
    /// its key and the slot its link names, the chain is as it was.
    proof fn lemma_same_chain(&self, pre: LinkedList, p: int)
        requires
            pre.chain_wf(),
            pre.interior(p),
            self.chain@ == pre.chain@,
            self.nodes@.len() == pre.nodes@.len(),
            forall|s: int| 0 <= s < pre.nodes@.len() && s != pre.chain@[p] ==> self.nodes@[s] == pre.nodes@[s],
            self.nodes@[pre.chain@[p] as int].key == pre.node_at(p).key,
            self.nodes@[pre.chain@[p] as int].next.slot == pre.node_at(p).next.slot,
        ensures
            self.chain_wf(),
            forall|j: int| 0 <= j < pre.chain@.len() && j != p ==> #[trigger] self.node_at(j) == pre.node_at(j),
            self.node_at(p) == self.nodes@[pre.chain@[p] as int],
            pre.marks_wf() ==> self.marks_wf(),
    {
        if pre.marks_wf() {
            assert forall|s: int| 2 <= s < self.nodes@.len() && !(#[trigger] self.nodes@[s]).next.marked
                implies exists|j: int| self.interior(j) && #[trigger] self.chain@[j] == s by {
                if s == pre.chain@[p] {
                    assert(self.interior(p) && self.chain@[p] == s);
                } else {
                    assert(!pre.nodes@[s].next.marked);
                    let j = choose|j: int| pre.interior(j) && #[trigger] pre.chain@[j] == s;
                    assert(self.interior(j) && self.chain@[j] == s);
                }
            }
        }
        assert forall|j: int| 0 <= j < pre.chain@.len() && j != p implies #[trigger] self.node_at(j)
            == pre.node_at(j) by {
            if j < p {
                pre.lemma_distinct(j, p);
            } else {
                pre.lemma_distinct(p, j);
            }
        }
        assert forall|j: int| 0 <= j < self.chain@.len() - 1 implies (#[trigger] self.node_at(j)).next.slot
            == self.chain@[j + 1] by {
            assert(pre.node_at(j).next.slot == pre.chain@[j + 1]);
        }
        assert forall|i: int, j: int| 0 < i < j < self.chain@.len() - 1
            implies (#[trigger] self.node_at(i)).key < (#[trigger] self.node_at(j)).key by {
            assert(pre.node_at(i).key < pre.node_at(j).key);
        }
        assert(self.node_at(0) == pre.node_at(0));
    }

    /// Stores `value` under `key` and returns the value it replaces.
    ///
    /// A live node with that key keeps its place and only changes its
    /// value. Otherwise a new node is linked in front of the first node
    /// with a larger key.
    pub fn insert(&mut self, key: usize, value: usize) -> (previous: Option<usize>)
        requires
            old(self).wf(),
        ensures
            final(self).inserted_from(old(self), key, value, previous),
    {
        let (left, right, Ghost(p)) = self.search(key);
        if right != TAIL && self.nodes[right].key == key {
            proof {
                self.lemma_live(p + 1);
            }
            let previous = self.overwrite_at(right, Ghost(p + 1), value);
            return Some(previous);
        }
        proof {
            self.lemma_not_present(p, key);
        }
        self.link_after(left, right, Ghost(p), key, value);
        None
    }

    /// Marks the live node with `key` as deleted and leaves it in the
    /// chain: the first phase of a deletion. Returns the value it held.
    ///
    /// The node is unlinked by the next insertion or deletion that walks
    /// past it.
    pub fn mark_deleted(&mut self, key: usize) -> (removed: Option<usize>)
        requires
            old(self).wf(),
        ensures
            final(self).marked_from(old(self), key, removed),
    {
        let (_left, right, Ghost(p)) = self.search(key);
        if right == TAIL || self.nodes[right].key != key {
            proof {
                self.lemma_not_present(p, key);
                assert(self@.remove(key) =~= self@);
            }
            return None;
        }
        proof {
            self.lemma_live(p + 1);
        }
        let value = self.nodes[right].value;
        self.mark_at(right, Ghost(p + 1));
        Some(value)
    }

    /// Removes `key`: marks its live node as deleted, then unlinks it and
    /// retires its slot. Returns the value it held.
    pub fn delete(&mut self, key: usize) -> (removed: Option<usize>)
        requires
            old(self).wf(),
        ensures
            final(self).deleted_from(old(self), key, removed),
    {
        let (left, right, Ghost(p)) = self.search(key);
        if right == TAIL || self.nodes[right].key != key {
            proof {
                self.lemma_not_present(p, key);
                assert(self@.remove(key) =~= self@);
            }
            return None;
        }
        proof {
            self.lemma_live(p + 1);
            assert(self.node_at(p).next.slot == self.chain@[p + 1]);
            assert(self.node_at(p + 1).next.slot == self.chain@[p + 2]);
        }
        let value = self.nodes[right].value;
        let ghost searched = *self;
        proof {
            searched.lemma_live_not_stale(p + 1);
        }
        self.mark_at(right, Ghost(p + 1));
        let ghost marked = *self;
        proof {
            assert(self.node_at(p).next == (Link { slot: right, marked: false }));
            assert(self.node_at(p + 1).next.marked);
            assert(self.node_at(p + 1) == self.nodes@[right as int]);
        }
        let successor = Self::get_unmarked_reference(self.nodes[right].next).slot;
        self.splice(left, Link { slot: right, marked: false }, successor, Ghost(p), Ghost(p + 2));
        proof {
            assert(marked.stale_key(p + 1, key));
            assert forall|k: usize| self.stale().contains(k) == searched.stale().contains(k) by {
                if self.stale().contains(k) {
                    let i = choose|i: int| #[trigger] marked.stale_key(i, k) && !(p < i < p + 2);
                    assert(marked.stale().contains(k));
                    if k == key {
                        marked.lemma_one_place(i, p + 1);
                    }
                }
                if searched.stale().contains(k) {
                    assert(marked.stale().contains(k));
                    let i = choose|i: int| marked.stale_key(i, k);
                    assert(marked.stale_key(i, k) && !(p < i < p + 2));
                }
            }
            assert(self.stale() =~= searched.stale());
        }
        Some(value)
    }

    /// The live entries as key/value pairs, in ascending key order.
    pub fn entries(&self) -> (out: Vec<(usize, usize)>)
        requires
            self.wf(),
        ensures
            forall|j: int|
                0 <= j < out@.len() ==> self@.contains_key((#[trigger] out@[j]).0) && self@[out@[j].0]
                    == out@[j].1,
            forall|k: usize|
                self@.contains_key(k) ==> exists|j: int| 0 <= j < out@.len() && (#[trigger] out@[j]).0 == k,
            forall|i: int, j: int| 0 <= i < j < out@.len() ==> (#[trigger] out@[i]).0 < (#[trigger] out@[j]).0,
    {
        let mut out: Vec<(usize, usize)> = Vec::new();
        let mut t: usize = self.nodes[HEAD].next.slot;
        let ghost mut pt: int = 1;
        let ghost mut src: Seq<int> = Seq::empty();
        proof {
            assert(self.node_at(0).next.slot == self.chain@[1]);
        }
        while t != TAIL
            invariant
                self.wf(),
                0 < pt <= self.chain@.len() - 1,
                t == self.chain@[pt],
                src.len() == out@.len(),
                forall|j: int|
                    0 <= j < src.len() ==> 0 < (#[trigger] src[j]) < pt && self.live_at(src[j]) && out@[j] == (
                        self.node_at(src[j]).key,
                        self.node_at(src[j]).value,
                    ),
                forall|a: int, b: int| 0 <= a < b < src.len() ==> (#[trigger] src[a]) < (#[trigger] src[b]),
                forall|i: int|
                    0 < i < pt && #[trigger] self.live_at(i) ==> exists|j: int|
                        0 <= j < src.len() && #[trigger] src[j] == i,
            decreases self.chain@.len() - pt,
        {
            proof {
                if pt == self.chain@.len() - 1 {
                    assert(false);
                }
                assert(self.interior(pt));
                assert(self.node_at(pt).next.slot == self.chain@[pt + 1]);
            }
            let cell = self.nodes[t];
            if !Self::is_marked_reference(cell.next) {
                out.push((cell.key, cell.value));
                proof {
                    let before = src;
                    src = src.push(pt);
                    assert forall|i: int| 0 < i < pt + 1 && #[trigger] self.live_at(i) implies exists|j: int|
                        0 <= j < src.len() && #[trigger] src[j] == i by {
                        if i < pt {
                            let j = choose|j: int| 0 <= j < before.len() && #[trigger] before[j] == i;
                            assert(src[j] == i);
                        } else {
                            assert(src[before.len() as int] == i);
                        }
                    }
                }
            }
            t = cell.next.slot;
            proof {
                pt = pt + 1;
            }
        }
        proof {
            if pt < self.chain@.len() - 1 {
                self.lemma_distinct(pt, self.chain@.len() - 1);
            }
            assert forall|j: int| 0 <= j < out@.len() implies self@.contains_key((#[trigger] out@[j]).0)
                && self@[out@[j].0] == out@[j].1 by {
                self.lemma_live(src[j]);
            }
            assert forall|k: usize| self@.contains_key(k) implies exists|j: int|
                0 <= j < out@.len() && (#[trigger] out@[j]).0 == k by {
                let i = self.lemma_found(k);
                assert(self.live_at(i));
                let j = choose|j: int| 0 <= j < src.len() && #[trigger] src[j] == i;
                assert(out@[j].0 == k);
            }
            assert forall|i: int, j: int| 0 <= i < j < out@.len() implies (#[trigger] out@[i]).0 < (
            #[trigger] out@[j]).0 by {
                assert(src[i] < src[j]);
                assert(self.node_at(src[i]).key < self.node_at(src[j]).key);
            }
        }
        out
    }

    /// The slot of the live node of `key`, if there is one.
    ///
    /// The walk skips marked nodes and changes nothing.
    pub fn find(&self, key: usize) -> (found: Option<usize>)
        requires
            self.wf(),
        ensures
            found.is_some() == self@.contains_key(key),
            found.is_some() ==> self.live_slot(found.unwrap(), key),
    {
        let mut t: usize = self.nodes[HEAD].next.slot;
        let ghost mut pt: int = 1;
        proof {
            assert(self.node_at(0).next.slot == self.chain@[1]);
        }
        while t != TAIL
            invariant
                self.wf(),
                0 < pt <= self.chain@.len() - 1,
                t == self.chain@[pt],
                forall|j: int| 0 < j < pt && self.live_at(j) ==> self.node_at(j).key != key,
            decreases self.chain@.len() - pt,
        {
            proof {
                if pt == self.chain@.len() - 1 {
                    assert(false);
                }
                assert(self.interior(pt));
                assert(self.node_at(pt).next.slot == self.chain@[pt + 1]);
            }
            let cell = self.nodes[t];
            if !Self::is_marked_reference(cell.next) && cell.key == key {
                proof {
                    self.lemma_live(pt);
                }
                return Some(t);
            }
            t = cell.next.slot;
            proof {
                pt = pt + 1;
            }
        }
        proof {
            if self@.contains_key(key) {
                let i = self.lemma_found(key);
                if pt < self.chain@.len() - 1 {
                    self.lemma_distinct(pt, self.chain@.len() - 1);
                }
                assert(false);
            }
        }
        None
    }

    /// Returns the value of the live node with `key`, if there is one.
    ///
    /// The walk skips marked nodes and changes nothing.
    pub fn get(&self, key: usize) -> (found: Option<usize>)
        requires
            self.wf(),
        ensures
            found == lookup(self@, key),
    {
        match self.find(key) {
            Some(slot) => {
                proof {
                    let p = self.lemma_position(slot);
                    self.lemma_live(p);
                }
                Some(self.nodes[slot].value)
            },
            None => None,
        }
    }

    /// Marks the node in `slot` as deleted if it is still the live node of
    /// `key`, with one swap on its own link, and returns the value it held.
    ///
    /// A node that was marked, unlinked or replaced since it was found is
    /// left alone: of several deleters that found the same node, the first
    /// removes it and the others find nothing.
    pub fn try_mark(&mut self, slot: usize, key: usize) -> (removed: Option<usize>)
        requires
            old(self).wf(),
        ensures
            removed.is_some() == old(self).live_slot(slot, key),
            removed.is_some() ==> final(self).marked_in_place_from(old(self), key, removed),
            removed.is_none() ==> *final(self) == *old(self),
    {
        if slot < 2 || slot >= self.nodes.len() {
            return None;
        }
        let cell = self.nodes[slot];
        if Self::is_marked_reference(cell.next) || cell.key != key {
            return None;
        }
        let ghost mut p: int = 0;
        proof {
            p = self.lemma_position(slot);
            self.lemma_live(p);
        }
        self.mark_at(slot, Ghost(p));
        Some(cell.value)
    }

    /// `key` lies strictly between the keys in `left` and `right`; the head
    /// sentinel bounds nothing from below and the tail sentinel nothing
    /// from above.
    pub closed spec fn span(&self, left: usize, right: usize, key: usize) -> bool {
        &&& (left != HEAD ==> left < self.nodes@.len() && self.nodes@[left as int].key < key)
        &&& (right != TAIL ==> right < self.nodes@.len() && key < self.nodes@[right as int].key)
    }

    /// A node for `key` can be linked between `left` and `right`: `left` is
    /// unmarked, its link names `right`, and the key lies between theirs.
    pub closed spec fn can_link(&self, left: usize, right: usize, key: usize) -> bool {
        &&& left < self.nodes@.len()
        &&& left != TAIL
        &&& self.nodes@[left as int].next == (Link { slot: right, marked: false })
        &&& self.span(left, right, key)
    }

    spec fn run_at(&self, left: usize, right: usize, pl: int, pr: int) -> bool {
        &&& 0 <= pl
        &&& pl + 1 < pr <= self.chain@.len() - 1
        &&& self.chain@[pl] == left
        &&& self.chain@[pr] == right
        &&& !self.node_at(pl).next.marked
        &&& forall|j: int| pl < j < pr ==> (#[trigger] self.node_at(j)).next.marked
    }

    /// `left` is chained and unmarked, `right` stands behind it in the
    /// chain, and between them stand marked nodes, at least one, and
    /// nothing else.
    pub closed spec fn run(&self, left: usize, right: usize) -> bool {
        exists|pl: int, pr: int| self.run_at(left, right, pl, pr)
    }

    /// `left` and `right` are the place of `key`: the last unmarked node
    /// whose key is below it (or the head sentinel) and the first unmarked
    /// node whose key is not (or the tail sentinel), with only marked nodes
    /// between them.
    pub closed spec fn place_of(&self, left: usize, right: usize, key: usize) -> bool {
        exists|pl: int, pr: int| self.place_at(left, right, pl, pr, key)
    }

    /// The position of an unmarked cell that is not the tail sentinel.
    proof fn lemma_anchor(&self, left: usize) -> (p: int)
        requires
            self.wf(),
            left < self.nodes@.len(),
            left != TAIL,
            !self.nodes@[left as int].next.marked,
        ensures
            0 <= p < self.chain@.len() - 1,
            self.chain@[p] == left,
            !self.node_at(p).next.marked,
            p == 0 <==> left == HEAD,
    {
        if left == HEAD {
            0
        } else {
            let p = self.lemma_position(left);
            p
        }
    }

    /// What the place of a key tells: the key is present exactly if the
    /// right neighbour holds it; and where it is absent and no marked node
    /// stands in the way, a node for it can be linked between the two.
    pub proof fn lemma_place(&self, left: usize, right: usize, key: usize)
        requires
            self.wf(),
            self.place_of(left, right, key),
        ensures
            self@.contains_key(key) <==> self.live_slot(right, key),
            !self@.contains_key(key) ==> self.run(left, right) || self.can_link(left, right, key),
    {
        let (pl, pr) = choose|pl: int, pr: int| self.place_at(left, right, pl, pr, key);
        let last = self.chain@.len() - 1;
        if pr < last {
            assert(self.interior(pr));
        }
        if self.live_slot(right, key) {
            self.lemma_live_slot(right, key);
        }
        if self@.contains_key(key) {
            let i = self.lemma_found(key);
            if pl < i < pr {
                assert(self.node_at(i).next.marked);
            }
            if i <= pl {
                if i < pl {
                    assert(self.node_at(i).key < self.node_at(pl).key);
                }
            } else if pr < i {
                assert(self.node_at(pr).key < self.node_at(i).key);
            }
            assert(i == pr);
        } else {
            if pr < last && self.node_at(pr).key == key {
                self.lemma_live(pr);
            }
            if pl + 1 < pr {
                assert(self.run_at(left, right, pl, pr));
            } else {
                assert(self.node_at(pl).next.slot == self.chain@[pl + 1]);
                if pl > 0 {
                    assert(self.interior(pl));
                } else {
                    self.lemma_distinct(0, last);
                }
                if pl > 0 && left == HEAD {
                    self.lemma_distinct(0, pl);
                }
            }
        }
    }

    /// Finds the place of `key` and changes nothing: marked nodes may stand
    /// between the two neighbours that come back.
    pub fn locate(&self, key: usize) -> (place: (usize, usize))
        requires
            self.wf(),
        ensures
            self.place_of(place.0, place.1, key),
    {
        let (left, _left_next, right, Ghost(pl), Ghost(pr)) = self.walk(key);
        proof {
            assert(self.place_at(left, right, pl, pr, key));
        }
        (left, right)
    }

    /// Links a new node for `key` between `left` and `right` with one swap
    /// on the link of `left`, if that link still names `right` without a
    /// mark and the key lies between the keys of the two.
    ///
    /// Where the list changed since the place was found, the swap fails,
    /// nothing changes, and the caller finds the place again.
    pub fn try_link(&mut self, left: usize, right: usize, key: usize, value: usize) -> (linked: bool)
        requires
            old(self).wf(),
        ensures
            linked == old(self).can_link(left, right, key),
            linked ==> final(self).linked_in_place_from(old(self), key, value),
            !linked ==> *final(self) == *old(self),
    {
        if left >= self.nodes.len() || left == TAIL {
            return false;
        }
        let cell = self.nodes[left];
        if Self::is_marked_reference(cell.next) || cell.next.slot != right {
            return false;
        }
        let ghost mut p: int = 0;
        proof {
            p = self.lemma_anchor(left);
            assert(self.node_at(p).next.slot == self.chain@[p + 1]);
            if p + 1 < self.chain@.len() - 1 {
                assert(self.interior(p + 1));
                self.lemma_distinct(p + 1, self.chain@.len() - 1);
            }
        }
        if left != HEAD && cell.key >= key {
            return false;
        }
        if right != TAIL && self.nodes[right].key <= key {
            return false;
        }
        proof {
            self.lemma_not_present(p, key);
        }
        self.link_after(left, right, Ghost(p), key, value);
        true
    }

    /// Unlinks the marked nodes between `left` and `right` with one swap on
    /// the link of `left`, and retires their slots, if `left` is unmarked
    /// and marked nodes, at least one, and nothing else stand between the
    /// two.
    ///
    /// Where that is not so, nothing changes: a later walk that passes the
    /// marked nodes unlinks them.
    pub fn try_unlink(&mut self, left: usize, right: usize) -> (unlinked: bool)
        requires
            old(self).wf(),
        ensures
            unlinked == old(self).run(left, right),
            unlinked ==> final(self).unlinked_from(old(self), left, right),
            !unlinked ==> *final(self) == *old(self),
    {
        if left >= self.nodes.len() || left == TAIL {
            proof {
                self.lemma_no_run(left, right, 0, 0);
            }
            return false;
        }
        let first = self.nodes[left].next;
        if Self::is_marked_reference(first) {
            proof {
                self.lemma_no_run(left, right, 0, 0);
            }
            return false;
        }
        let ghost mut pl: int = 0;
        proof {
            pl = self.lemma_anchor(left);
            assert(self.node_at(pl).next.slot == self.chain@[pl + 1]);
        }
        let mut cur: usize = first.slot;
        let ghost mut pc: int = pl + 1;
        if cur == right {
            proof {
                self.lemma_no_run(left, right, pl, pc);
            }
            return false;
        }
        loop
            invariant_except_break
                cur != right,
            invariant
                *self == *old(self),
                self.wf(),
                0 <= pl < pc <= self.chain@.len() - 1,
                self.chain@[pl] == left,
                !self.node_at(pl).next.marked,
                cur == self.chain@[pc],
                forall|j: int| pl < j < pc ==> (#[trigger] self.node_at(j)).next.marked,
                forall|j: int| pl < j < pc ==> (#[trigger] self.chain@[j]) != right,
            ensures
                cur == right,
                pl + 1 < pc,
            decreases self.chain@.len() - pc,
        {
            if cur == TAIL {
                proof {
                    if pc < self.chain@.len() - 1 {
                        self.lemma_distinct(pc, self.chain@.len() - 1);
                    }
                    self.lemma_no_run(left, right, pl, pc);
                }
                return false;
            }
            proof {
                if pc == self.chain@.len() - 1 {
                    assert(false);
                }
                assert(self.node_at(pc).next.slot == self.chain@[pc + 1]);
            }
            let next = self.nodes[cur].next;
            if !Self::is_marked_reference(next) {
                proof {
                    self.lemma_no_run(left, right, pl, pc);
                }
                return false;
            }
            cur = next.slot;
            proof {
                pc = pc + 1;
            }
            if cur == right {
                break ;
            }
        }
        let ghost pre = *self;
        proof {
            assert(pre.run_at(left, right, pl, pc));
        }
        self.splice(left, first, right, Ghost(pl), Ghost(pc));
        proof {
            pre.lemma_span(left, right, pl, pc);
            assert forall|k: usize|
                self.stale().contains(k) == (pre.stale().contains(k) && !pre.span(left, right, k)) by {
                if self.stale().contains(k) {
                    let i = choose|i: int| #[trigger] pre.stale_key(i, k) && !(pl < i < pc);
                    assert(pre.stale_key(i, k));
                }
                if pre.stale().contains(k) && !pre.span(left, right, k) {
                    let i = choose|i: int| pre.stale_key(i, k);
                    assert(pre.stale_key(i, k) && !(pl < i < pc));
                }
            }
            assert(self.stale() =~= Set::new(|k: usize| pre.stale().contains(k) && !pre.span(left, right, k)));
        }
        true
    }

    /// No marked run leads from `left` to `right` where `left` is no
    /// unmarked chained cell, or where the walk from its position `pl` has
    /// come to position `pc` past marked nodes only, has not met `right`
    /// before, and stands on `right` next to `left`, on the tail sentinel
    /// or on an unmarked node that is not `right`.
    proof fn lemma_no_run(&self, left: usize, right: usize, pl: int, pc: int)
        requires
            self.wf(),
            left >= self.nodes@.len() || left == TAIL || self.nodes@[left as int].next.marked || {
                &&& 0 <= pl < pc <= self.chain@.len() - 1
                &&& self.chain@[pl] == left
                &&& forall|j: int| pl < j < pc ==> (#[trigger] self.chain@[j]) != right
                &&& {
                    ||| pc == pl + 1 && self.chain@[pc] == right
                    ||| pc == self.chain@.len() - 1 && self.chain@[pc] != right
                    ||| !self.node_at(pc).next.marked && self.chain@[pc] != right
                }
            },
        ensures
            !self.run(left, right),
    {
        assert forall|a: int, b: int| !self.run_at(left, right, a, b) by {
            if self.run_at(left, right, a, b) {
                let last = self.chain@.len() - 1;
                assert(self.node_at(a) == self.nodes@[left as int]);
                self.lemma_distinct(a, last);
                if left >= self.nodes@.len() || left == TAIL || self.nodes@[left as int].next.marked {
                    assert(false);
                }
                if a < pl {
                    self.lemma_distinct(a, pl);
                } else if pl < a {
                    self.lemma_distinct(pl, a);
                }
                if b < pc {
                    assert(self.chain@[b] != right);
                } else if pc < b {
                    assert(self.node_at(pc).next.marked);
                    self.lemma_distinct(pc, b);
                }
                assert(false);
            }
        }
    }

    /// A marked node stands between the positions `pl` and `pr` exactly if
    /// its key lies between the keys of the nodes there.
    proof fn lemma_span(&self, left: usize, right: usize, pl: int, pr: int)
        requires
            self.wf(),
            self.run_at(left, right, pl, pr),
        ensures
            forall|i: int, k: usize| #[trigger] self.stale_key(i, k) ==> (self.span(left, right, k) <==> pl < i < pr),
    {
        let last = self.chain@.len() - 1;
        assert forall|i: int, k: usize| #[trigger] self.stale_key(i, k) implies (self.span(left, right, k) <==> pl < i
            < pr) by {
            assert(self.node_at(pl) == self.nodes@[left as int]);
            assert(self.node_at(pr) == self.nodes@[right as int]);
            if pl > 0 {
                assert(self.interior(pl));
            }
            if pr < last {
                assert(self.interior(pr));
                self.lemma_distinct(pr, last);
            }
            if i < pl {
                assert(self.node_at(i).key < self.node_at(pl).key);
            } else if pl < i && pl > 0 {
                assert(self.node_at(pl).key < self.node_at(i).key);
            }
            if i < pr && pr < last {
                assert(self.node_at(i).key < self.node_at(pr).key);
            } else if pr < i {
                assert(self.node_at(pr).key < self.node_at(i).key);
            }
        }
    }
}

} // verus!
