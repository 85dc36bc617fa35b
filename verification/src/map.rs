//! The map itself: the current table, the growth policy, the tables that
//! were replaced, and the registry of client handles.

use vstd::prelude::*;
use crate::list::lookup;
use crate::reclaim::{all_cleared, cleared, next_count, Registry};
use crate::table::Table;

verus! {

/// Average number of entries per bucket at which the table of a new map
/// grows, unless the map is given another threshold.
pub const AVG_PER_BIN_THRESH: usize = 4;

/// Number of buckets of a new map, unless the map is given another number.
pub const INITIAL_BUCKETS: usize = 1;

/// The number of buckets after an insertion that left `items` entries in
/// `buckets` buckets: twice as many once the average reaches the
/// threshold, unless the double no longer fits.
pub open spec fn grown(buckets: nat, items: nat, threshold: nat) -> nat
    recommends
        buckets > 0,
{
    if items / buckets >= threshold && 2 * buckets <= usize::MAX {
        2 * buckets
    } else {
        buckets
    }
}

/// A hash map from integer keys to integer values.
///
/// Memory that deletions and resizes leave behind is released in two
/// steps. `begin_reclaim` condemns what was left behind so far and records
/// the counters of all handles; `try_reclaim` releases the condemned once
/// every handle is cleared against that record.
pub struct Hashmap {
    table: Table,
    threshold: usize,
    replaced: Vec<Table>,
    condemned: Vec<Table>,
    started: Option<Vec<usize>>,
    handles: Registry,
}

/// The registration of one client of a map.
pub struct MapHandle {
    id: usize,
}

impl View for Hashmap {
    type V = Map<usize, usize>;

    /// The entries of the current table.
    open spec fn view(&self) -> Map<usize, usize> {
        self.current()@
    }
}

impl Hashmap {
    /// The current table is well formed, and nothing is condemned unless a
    /// reclamation waits.
    pub closed spec fn wf(&self) -> bool {
        &&& self.table.wf()
        &&& self.started.is_none() ==> self.table.no_condemned() && self.condemned@.len() == 0
    }

    /// The counters that the waiting reclamation recorded when it began,
    /// if one waits.
    pub closed spec fn waiting(&self) -> Option<Seq<usize>> {
        match self.started {
            Some(started) => Some(started@),
            None => None,
        }
    }

    /// The table that the operations work on.
    pub closed spec fn current(&self) -> Table {
        self.table
    }

    /// Number of buckets of the current table.
    pub open spec fn buckets(&self) -> nat {
        self.current().nbuckets()
    }

    /// Average number of entries per bucket at which the table grows.
    pub closed spec fn policy(&self) -> nat {
        self.threshold as nat
    }

    /// The progress counters of the registered handles.
    pub closed spec fn epochs(&self) -> Seq<usize> {
        self.handles@
    }

    /// Number of replaced tables that no reclamation has taken up yet.
    pub closed spec fn replaced_tables(&self) -> nat {
        self.replaced@.len()
    }

    /// Number of replaced tables that the waiting reclamation releases.
    pub closed spec fn condemned_tables(&self) -> nat {
        self.condemned@.len()
    }

    /// No replaced table and no unlinked slot of the current table waits
    /// for a reclamation to take it up.
    pub open spec fn nothing_pending(&self) -> bool {
        self.replaced_tables() == 0 && self.current().no_pending()
    }

    /// No replaced table and no slot of the current table is condemned.
    pub open spec fn nothing_condemned(&self) -> bool {
        self.condemned_tables() == 0 && self.current().no_condemned()
    }

    /// The handle was registered with this map.
    pub open spec fn has_handle(&self, handle: &MapHandle) -> bool {
        handle.index() < self.epochs().len()
    }

    /// A well-formed map has a well-formed table, which holds finitely many
    /// keys; nothing in it is condemned unless a reclamation waits.
    pub proof fn lemma_finite(&self)
        requires
            self.wf(),
        ensures
            self.current().wf(),
            self@.dom().finite(),
            self.waiting().is_none() ==> self.nothing_condemned(),
    {
        self.table.lemma_finite();
    }

    /// An empty map with one bucket, the default threshold and no handles.
    pub fn new() -> (map: Hashmap)
        ensures
            map.wf(),
            map@ == Map::<usize, usize>::empty(),
            map.buckets() == INITIAL_BUCKETS,
            map.policy() == AVG_PER_BIN_THRESH,
            map.epochs() == Seq::<usize>::empty(),
            map.waiting().is_none(),
            map.current().pristine(),
            map.replaced_tables() == 0,
            map.condemned_tables() == 0,
    {
        Hashmap::with_policy(INITIAL_BUCKETS, AVG_PER_BIN_THRESH)
    }

    /// An empty map that starts with `buckets` buckets and grows when the
    /// average number of entries per bucket reaches `threshold`.
    pub fn with_policy(buckets: usize, threshold: usize) -> (map: Hashmap)
        requires
            buckets > 0,
        ensures
            map.wf(),
            map@ == Map::<usize, usize>::empty(),
            map.buckets() == buckets,
            map.policy() == threshold,
            map.epochs() == Seq::<usize>::empty(),
            map.waiting().is_none(),
            map.current().pristine(),
            map.replaced_tables() == 0,
            map.condemned_tables() == 0,
    {
        Hashmap {
            table: Table::new(buckets),
            threshold,
            replaced: Vec::new(),
            condemned: Vec::new(),
            started: None,
            handles: Registry::new(),
        }
    }

    /// Average number of entries per bucket at which the table grows.
    pub fn threshold(&self) -> (n: usize)
        ensures
            n == self.policy(),
    {
        self.threshold
    }

    /// Number of live entries: the number of distinct keys that have a
    /// value.
    pub fn size(&self) -> (n: usize)
        requires
            self.wf(),
        ensures
            n == self@.dom().len(),
    {
        self.table.size()
    }

    /// Number of buckets of the current table.
    pub fn bucket_count(&self) -> (n: usize)
        ensures
            n == self.buckets(),
            self.wf() ==> n > 0,
    {
        self.table.bucket_count()
    }

    /// Returns the value stored under `key`, if there is one.
    pub fn get(&self, key: usize) -> (found: Option<usize>)
        requires
            self.wf(),
        ensures
            found == lookup(self@, key),
    {
        self.table.get(key)
    }

    /// The live entries as key/value pairs, each key once.
    pub fn entries(&self) -> (out: Vec<(usize, usize)>)
        requires
            self.wf(),
        ensures
            forall|j: int|
                0 <= j < out@.len() ==> self@.contains_key((#[trigger] out@[j]).0) && self@[out@[j].0]
                    == out@[j].1,
            forall|k: usize|
                self@.contains_key(k) ==> exists|j: int| 0 <= j < out@.len() && (#[trigger] out@[j]).0 == k,
            forall|i: int, j: int| 0 <= i < j < out@.len() ==> (#[trigger] out@[i]).0 != (#[trigger] out@[j]).0,
    {
        self.table.entries()
    }

    /// Doubles the number of buckets, unless the double no longer fits.
    ///
    /// Every entry is inserted into a new table, which then takes the
    /// place of the current one. The replaced table is kept until the next
    /// successful reclamation.
    pub fn resize(&mut self)
        requires
            old(self).wf(),
        ensures
            final(self).wf(),
            final(self)@ == old(self)@,
            final(self).policy() == old(self).policy(),
            final(self).epochs() == old(self).epochs(),
            final(self).waiting() == old(self).waiting(),
            final(self).condemned_tables() == old(self).condemned_tables(),
            2 * old(self).buckets() <= usize::MAX ==> {
                &&& final(self).buckets() == 2 * old(self).buckets()
                &&& final(self).current().pristine()
                &&& final(self).replaced_tables() == old(self).replaced_tables() + 1
            },
            2 * old(self).buckets() > usize::MAX ==> {
                &&& final(self).current() == old(self).current()
                &&& final(self).replaced_tables() == old(self).replaced_tables()
            },
    {
        let count = self.table.bucket_count();
        if count <= usize::MAX / 2 {
            let mut other = self.table.migrate(count * 2);
            std::mem::swap(&mut self.table, &mut other);
            self.replaced.push(other);
        }
    }

    /// Stores `value` under `key` and returns the value it replaces. The
    /// table grows afterwards if the growth policy asks for it.
    pub fn insert(&mut self, key: usize, value: usize) -> (previous: Option<usize>)
        requires
            old(self).wf(),
            old(self)@.dom().len() < usize::MAX,
        ensures
            final(self).wf(),
            final(self)@ == old(self)@.insert(key, value),
            previous == lookup(old(self)@, key),
            final(self).buckets() == grown(old(self).buckets(), final(self)@.dom().len(), old(self).policy()),
            final(self).policy() == old(self).policy(),
            final(self).epochs() == old(self).epochs(),
            final(self).waiting() == old(self).waiting(),
            final(self).condemned_tables() == old(self).condemned_tables(),
            final(self).buckets() == old(self).buckets() ==> {
                &&& final(self).current().inserted_from(&old(self).current(), key, value, previous)
                &&& final(self).replaced_tables() == old(self).replaced_tables()
            },
            final(self).buckets() != old(self).buckets() ==> {
                &&& final(self).current().pristine()
                &&& final(self).replaced_tables() == old(self).replaced_tables() + 1
            },
    {
        let previous = self.table.insert(key, value);
        let count = self.table.bucket_count();
        if self.table.size() / count >= self.threshold {
            self.resize();
        }
        previous
    }

    /// Removes `key` and returns the value it held.
    pub fn delete(&mut self, key: usize) -> (removed: Option<usize>)
        requires
            old(self).wf(),
        ensures
            final(self).wf(),
            final(self).current().deleted_from(&old(self).current(), key, removed),
            final(self).replaced_tables() == old(self).replaced_tables(),
            final(self).policy() == old(self).policy(),
            final(self).epochs() == old(self).epochs(),
            final(self).waiting() == old(self).waiting(),
            final(self).condemned_tables() == old(self).condemned_tables(),

    {
        self.table.delete(key)
    }

    /// Registers a new client. Its counter starts idle at zero.
    pub fn create_handle(&mut self) -> (handle: MapHandle)
        ensures
            final(self).has_handle(&handle),
            final(self).epochs() == old(self).epochs().push(0),
            handle.index() == old(self).epochs().len(),
            final(self).wf() == old(self).wf(),
            final(self).current() == old(self).current(),
            final(self).policy() == old(self).policy(),
            final(self).waiting() == old(self).waiting(),
            final(self).replaced_tables() == old(self).replaced_tables(),
            final(self).condemned_tables() == old(self).condemned_tables(),
    {
        let id = self.handles.register();
        MapHandle { id }
    }

    /// Number of registered handles.
    pub fn handle_count(&self) -> (n: usize)
        ensures
            n == self.epochs().len(),
    {
        self.handles.len()
    }

    /// The counters of all handles as they read now: what a reclamation
    /// has to outlive.
    pub fn snapshot(&self) -> (started: Vec<usize>)
        ensures
            started@ == self.epochs(),
    {
        self.handles.snapshot()
    }

    /// Begins a reclamation: condemns the unlinked slots and the replaced
    /// tables that were left behind so far, and records the counters of
    /// all handles as they read now. A reclamation that already waits is
    /// joined: what it condemned waits for the new record too.
    pub fn begin_reclaim(&mut self)
        requires
            old(self).wf(),
        ensures
            final(self).wf(),
            final(self).current().condemned_from(&old(self).current()),
            final(self).policy() == old(self).policy(),
            final(self).epochs() == old(self).epochs(),
            final(self).waiting() == Some(old(self).epochs()),
            final(self).replaced_tables() == 0,
            final(self).condemned_tables() == old(self).condemned_tables() + old(self).replaced_tables(),
    {
        self.table.condemn();
        self.condemned.append(&mut self.replaced);
        self.started = Some(self.handles.snapshot());
    }

    /// The first handle that the waiting reclamation still waits for: one
    /// that may be inside the operation it was in when the reclamation
    /// began. `None` when no reclamation waits or none is in the way.
    pub fn blocking_handle(&self) -> (blocking: Option<usize>)
        ensures
            blocking.is_none() <==> (self.waiting().is_none() || all_cleared(
                self.waiting().unwrap(),
                self.epochs(),
            )),
            match blocking {
                Some(i) => {
                    &&& i < self.waiting().unwrap().len()
                    &&& i < self.epochs().len()
                    &&& !cleared(self.waiting().unwrap()[i as int], self.epochs()[i as int])
                    &&& forall|j: int|
                        0 <= j < i ==> cleared(#[trigger] self.waiting().unwrap()[j], self.epochs()[j])
                },
                None => true,
            },
    {
        match &self.started {
            Some(started) => self.handles.blocking_handle(started),
            None => None,
        }
    }

    /// Releases what the waiting reclamation condemned if every handle is
    /// cleared against the counters it recorded, and reports whether it
    /// did. Otherwise, and when no reclamation waits, nothing changes.
    pub fn try_reclaim(&mut self) -> (released: bool)
        requires
            old(self).wf(),
        ensures
            final(self).wf(),
            released == (old(self).waiting().is_some() && all_cleared(
                old(self).waiting().unwrap(),
                old(self).epochs(),
            )),
            final(self).policy() == old(self).policy(),
            final(self).epochs() == old(self).epochs(),
            final(self).replaced_tables() == old(self).replaced_tables(),
            released ==> {
                &&& final(self).current().released_from(&old(self).current())
                &&& final(self).waiting().is_none()
                &&& final(self).condemned_tables() == 0
            },
            !released ==> {
                &&& final(self).current() == old(self).current()
                &&& final(self).waiting() == old(self).waiting()
                &&& final(self).condemned_tables() == old(self).condemned_tables()
            },
    {
        let cleared = match &self.started {
            Some(started) => self.handles.quiescent(started),
            None => false,
        };
        if cleared {
            self.table.reclaim();
            self.condemned.clear();
            self.started = None;
        }
        cleared
    }
}

impl MapHandle {
    /// Position of this handle among the handles of its map.
    pub closed spec fn index(&self) -> nat {
        self.id as nat
    }

    /// Position of this handle among the handles of its map.
    pub fn id(&self) -> (id: usize)
        ensures
            id == self.index(),
    {
        self.id
    }

    /// What the counters read after this handle has run one operation.
    pub open spec fn after_operation(&self, epochs: Seq<usize>) -> Seq<usize> {
        epochs.update(self.index() as int, next_count(next_count(epochs[self.index() as int])))
    }

    /// The counter of this handle.
    pub fn epoch(&self, map: &Hashmap) -> (count: usize)
        requires
            map.has_handle(self),
        ensures
            count == map.epochs()[self.index() as int],
    {
        map.handles.counter(self.id)
    }

    /// What the counters read after this handle has stepped once.
    pub open spec fn after_step(&self, epochs: Seq<usize>) -> Seq<usize> {
        epochs.update(self.index() as int, next_count(epochs[self.index() as int]))
    }

    /// Steps the counter as an operation of this client begins. Until the
    /// matching `leave`, a snapshot that saw the odd counter is not
    /// cleared.
    pub fn enter(&self, map: &mut Hashmap)
        requires
            old(map).has_handle(self),
        ensures
            final(map).epochs() == self.after_step(old(map).epochs()),
            final(map).wf() == old(map).wf(),
            final(map).current() == old(map).current(),
            final(map).replaced_tables() == old(map).replaced_tables(),
            final(map).policy() == old(map).policy(),
            final(map).waiting() == old(map).waiting(),
            final(map).condemned_tables() == old(map).condemned_tables(),
            final(map).has_handle(self),

    {
        map.handles.advance(self.id);
    }

    /// Steps the counter as an operation of this client ends.
    pub fn leave(&self, map: &mut Hashmap)
        requires
            old(map).has_handle(self),
        ensures
            final(map).epochs() == self.after_step(old(map).epochs()),
            final(map).wf() == old(map).wf(),
            final(map).current() == old(map).current(),
            final(map).replaced_tables() == old(map).replaced_tables(),
            final(map).policy() == old(map).policy(),
            final(map).waiting() == old(map).waiting(),
            final(map).condemned_tables() == old(map).condemned_tables(),
            final(map).has_handle(self),

    {
        map.handles.advance(self.id);
    }

    /// Inserts through this handle: the counter steps before and after.
    pub fn insert(&self, map: &mut Hashmap, key: usize, value: usize) -> (previous: Option<usize>)
        requires
            old(map).wf(),
            old(map).has_handle(self),
            old(map)@.dom().len() < usize::MAX,
        ensures
            final(map).wf(),
            final(map)@ == old(map)@.insert(key, value),
            previous == lookup(old(map)@, key),
            final(map).buckets() == grown(old(map).buckets(), final(map)@.dom().len(), old(map).policy()),
            final(map).epochs() == self.after_operation(old(map).epochs()),
            final(map).policy() == old(map).policy(),
            final(map).waiting() == old(map).waiting(),
            final(map).condemned_tables() == old(map).condemned_tables(),
            final(map).has_handle(self),
            final(map).buckets() == old(map).buckets() ==> {
                &&& final(map).current().inserted_from(&old(map).current(), key, value, previous)
                &&& final(map).replaced_tables() == old(map).replaced_tables()
            },
            final(map).buckets() != old(map).buckets() ==> {
                &&& final(map).current().pristine()
                &&& final(map).replaced_tables() == old(map).replaced_tables() + 1
            },
    {
        self.enter(map);
        let previous = map.insert(key, value);
        self.leave(map);
        proof {
            assert(map.epochs() =~= self.after_operation(old(map).epochs()));
        }
        previous
    }

    /// Looks up through this handle: the counter steps before and after.
    pub fn get(&self, map: &mut Hashmap, key: usize) -> (found: Option<usize>)
        requires
            old(map).wf(),
            old(map).has_handle(self),
        ensures
            final(map).wf(),
            found == lookup(old(map)@, key),
            final(map).current() == old(map).current(),
            final(map).replaced_tables() == old(map).replaced_tables(),
            final(map).epochs() == self.after_operation(old(map).epochs()),
            final(map).policy() == old(map).policy(),
            final(map).waiting() == old(map).waiting(),
            final(map).condemned_tables() == old(map).condemned_tables(),
            final(map).has_handle(self),

    {
        self.enter(map);
        let found = map.get(key);
        self.leave(map);
        proof {
            assert(map.epochs() =~= self.after_operation(old(map).epochs()));
        }
        found
    }

    /// Deletes through this handle: the counter steps before and after.
    pub fn delete(&self, map: &mut Hashmap, key: usize) -> (removed: Option<usize>)
        requires
            old(map).wf(),
            old(map).has_handle(self),
        ensures
            final(map).wf(),
            final(map).current().deleted_from(&old(map).current(), key, removed),
            final(map).replaced_tables() == old(map).replaced_tables(),
            final(map).epochs() == self.after_operation(old(map).epochs()),
            final(map).policy() == old(map).policy(),
            final(map).waiting() == old(map).waiting(),
            final(map).condemned_tables() == old(map).condemned_tables(),
            final(map).has_handle(self),

    {
        self.enter(map);
        let removed = map.delete(key);
        self.leave(map);
        proof {
            assert(map.epochs() =~= self.after_operation(old(map).epochs()));
        }
        removed
    }

    /// Registers another handle with the map of this one.
    pub fn clone(&self, map: &mut Hashmap) -> (handle: MapHandle)
        ensures
            final(map).has_handle(&handle),
            old(map).has_handle(self) ==> final(map).has_handle(self),
            final(map).epochs() == old(map).epochs().push(0),
            handle.index() == old(map).epochs().len(),
            final(map).wf() == old(map).wf(),
            final(map).current() == old(map).current(),
            final(map).policy() == old(map).policy(),
            final(map).waiting() == old(map).waiting(),
            final(map).replaced_tables() == old(map).replaced_tables(),
            final(map).condemned_tables() == old(map).condemned_tables(),
    {
        map.create_handle()
    }
}

/// A value that was inserted is the value that a lookup of its key returns
/// next, whatever the map held before.
pub proof fn lemma_insert_then_get(before: Map<usize, usize>, key: usize, value: usize)
    ensures
        lookup(before.insert(key, value), key) == Some(value),
{
}

/// A second insertion under the same key returns the value of the first,
/// and a lookup then returns the value of the second. The map ends as if
/// only the second had happened.
pub proof fn lemma_insert_twice(before: Map<usize, usize>, key: usize, first: usize, second: usize)
    ensures
        lookup(before.insert(key, first), key) == Some(first),
        lookup(before.insert(key, first).insert(key, second), key) == Some(second),
        before.insert(key, first).insert(key, second) == before.insert(key, second),
{
    assert(before.insert(key, first).insert(key, second) =~= before.insert(key, second));
}

/// A deletion after an insertion returns the inserted value; the key is
/// then absent, and a second deletion returns nothing and changes nothing.
pub proof fn lemma_insert_then_delete(before: Map<usize, usize>, key: usize, value: usize)
    ensures
        lookup(before.insert(key, value), key) == Some(value),
        lookup(before.insert(key, value).remove(key), key) == None::<usize>,
        before.insert(key, value).remove(key).remove(key) == before.insert(key, value).remove(key),
{
    assert(before.insert(key, value).remove(key).remove(key) =~= before.insert(key, value).remove(key));
}

/// An insertion, with or without the growth of the table that may follow
/// it, leaves every other key with the value it had.
pub proof fn lemma_insert_keeps_others(before: Map<usize, usize>, key: usize, value: usize, other: usize)
    requires
        other != key,
    ensures
        lookup(before.insert(key, value), other) == lookup(before, other),
{
}

/// The number of entries goes up by one with a new key, stays with a known
/// key, and goes down by one when a present key is deleted.
pub proof fn lemma_size_steps(before: Map<usize, usize>, key: usize, value: usize)
    requires
        before.dom().finite(),
    ensures
        before.insert(key, value).dom().len() == before.dom().len() + (if before.contains_key(key) {
            0int
        } else {
            1int
        }),
        before.remove(key).dom().len() == before.dom().len() - (if before.contains_key(key) {
            1int
        } else {
            0int
        }),
{
    assert(before.insert(key, value).dom() =~= before.dom().insert(key));
    assert(before.remove(key).dom() =~= before.dom().remove(key));
}

} // verus!
