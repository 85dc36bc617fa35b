//! The bucket array: a fixed number of bucket lists and a count of the
//! live entries.

use vstd::prelude::*;
use vstd::set_lib::lemma_len_subset;
use crate::hash::{bucket_index, bucket_of};
use crate::list::{lookup, LinkedList};

verus! {

/// A fixed array of bucket lists. A key lives in the bucket that its hash
/// selects.
pub struct Table {
    buckets: Vec<LinkedList>,
    nitems: usize,
}

impl View for Table {
    type V = Map<usize, usize>;

    /// The entries of the table: for each key, what its own bucket holds.
    closed spec fn view(&self) -> Map<usize, usize> {
        Map::new(|k: usize| self.home(k)@.contains_key(k), |k: usize| self.home(k)@[k])
    }
}

impl Table {
    spec fn home(&self, key: usize) -> LinkedList {
        self.buckets@[bucket_of(key, self.buckets@.len() as int)]
    }

    /// Every bucket is a well-formed list that holds only keys routed to
    /// it, and the counter equals the number of keys.
    pub closed spec fn wf(&self) -> bool {
        &&& self.buckets@.len() > 0
        &&& forall|i: int| 0 <= i < self.buckets@.len() ==> (#[trigger] self.buckets@[i]).wf()
        &&& forall|i: int, k: usize|
            0 <= i < self.buckets@.len() && (#[trigger] self.buckets@[i])@.contains_key(k) ==> #[trigger] bucket_of(
                k,
                self.buckets@.len() as int,
            ) == i
        &&& self@.dom().finite()
        &&& self.nitems == self@.dom().len()
    }

    /// Number of buckets.
    pub closed spec fn nbuckets(&self) -> nat {
        self.buckets@.len()
    }

    /// The list of bucket `i`.
    pub closed spec fn bucket(&self, i: int) -> LinkedList {
        self.buckets@[i]
    }

    /// No bucket holds an unlinked slot that no reclamation has taken up.
    pub open spec fn no_pending(&self) -> bool {
        forall|i: int| 0 <= i < self.nbuckets() ==> (#[trigger] self.bucket(i)).pending_slots() == 0
    }

    /// No bucket holds a slot that a reclamation is about to release.
    pub open spec fn no_condemned(&self) -> bool {
        forall|i: int| 0 <= i < self.nbuckets() ==> (#[trigger] self.bucket(i)).condemned_slots() == 0
    }

    /// Every bucket is pristine.
    pub open spec fn pristine(&self) -> bool {
        forall|i: int| 0 <= i < self.nbuckets() ==> (#[trigger] self.bucket(i)).pristine()
    }

    /// This table has the buckets of `pre`, all but bucket `h` unchanged.
    pub open spec fn changed_only(&self, pre: &Table, h: int) -> bool {
        &&& self.nbuckets() == pre.nbuckets()
        &&& forall|i: int| 0 <= i < pre.nbuckets() && i != h ==> #[trigger] self.bucket(i) == pre.bucket(i)
    }

    /// How an insertion relates this table to the table `pre` before it:
    /// the bucket of `key` took the insertion, and nothing else changed.
    pub open spec fn inserted_from(&self, pre: &Table, key: usize, value: usize, previous: Option<usize>) -> bool {
        let h = bucket_of(key, pre.nbuckets() as int);
        &&& self.wf()
        &&& self@ == pre@.insert(key, value)
        &&& previous == lookup(pre@, key)
        &&& self.changed_only(pre, h)
        &&& self.bucket(h).inserted_from(&pre.bucket(h), key, value, previous)
    }

    /// How a deletion relates this table to the table `pre` before it: the
    /// bucket of `key` took the deletion, and nothing else changed.
    pub open spec fn deleted_from(&self, pre: &Table, key: usize, removed: Option<usize>) -> bool {
        let h = bucket_of(key, pre.nbuckets() as int);
        &&& self.wf()
        &&& self@ == pre@.remove(key)
        &&& removed == lookup(pre@, key)
        &&& self.changed_only(pre, h)
        &&& self.bucket(h).deleted_from(&pre.bucket(h), key, removed)
    }

    /// This table is `pre` with the pending slots of every bucket
    /// condemned.
    pub open spec fn condemned_from(&self, pre: &Table) -> bool {
        &&& self.wf()
        &&& self@ == pre@
        &&& self.nbuckets() == pre.nbuckets()
        &&& forall|i: int| 0 <= i < pre.nbuckets() ==> (#[trigger] self.bucket(i)).condemned_from(&pre.bucket(i))
    }

    /// This table is `pre` with the condemned slots of every bucket
    /// released.
    pub open spec fn released_from(&self, pre: &Table) -> bool {
        &&& self.wf()
        &&& self@ == pre@
        &&& self.nbuckets() == pre.nbuckets()
        &&& forall|i: int| 0 <= i < pre.nbuckets() ==> (#[trigger] self.bucket(i)).released_from(&pre.bucket(i))
    }

    /// A well-formed table holds finitely many keys.
    pub proof fn lemma_finite(&self)
        requires
            self.wf(),
        ensures
            self@.dom().finite(),
    {
    }

    /// A key that the table lacks is lacking in its bucket, which is a
    /// well-formed list.
    proof fn lemma_absent_in_bucket(&self, key: usize)
        requires
            self.wf(),
            !self@.contains_key(key),
        ensures
            self.bucket(bucket_of(key, self.nbuckets() as int)).wf(),
            !self.bucket(bucket_of(key, self.nbuckets() as int))@.contains_key(key),
    {
        self.lemma_home(key);
    }

    proof fn lemma_home(&self, key: usize)
        requires
            self.buckets@.len() > 0,
        ensures
            0 <= bucket_of(key, self.buckets@.len() as int) < self.buckets@.len(),
    {
    }

    /// An empty table of `num_of_buckets` buckets.
    pub fn new(num_of_buckets: usize) -> (table: Table)
        requires
            num_of_buckets > 0,
        ensures
            table.wf(),
            table@ == Map::<usize, usize>::empty(),
            table.nbuckets() == num_of_buckets,
            table.pristine(),
    {
        let mut buckets: Vec<LinkedList> = Vec::with_capacity(num_of_buckets);
        let mut i: usize = 0;
        while i < num_of_buckets
            invariant
                i <= num_of_buckets,
                buckets@.len() == i,
                forall|j: int|
                    0 <= j < i ==> (#[trigger] buckets@[j]).wf() && buckets@[j]@ == Map::<usize, usize>::empty()
                        && buckets@[j].pristine(),
            decreases num_of_buckets - i,
        {
            buckets.push(LinkedList::new());
            i = i + 1;
        }
        let table = Table { buckets, nitems: 0 };
        proof {
            assert forall|k: usize| !table@.contains_key(k) by {
                table.lemma_home(k);
            }
            assert(table@ =~= Map::<usize, usize>::empty());
        }
        table
    }

    /// Number of buckets.
    pub fn bucket_count(&self) -> (n: usize)
        ensures
            n == self.nbuckets(),
            self.wf() ==> n > 0,
    {
        self.buckets.len()
    }

    /// Number of live entries.
    pub fn size(&self) -> (n: usize)
        requires
            self.wf(),
        ensures
            n == self@.dom().len(),
    {
        self.nitems
    }

    /// Returns the value stored under `key`, if there is one.
    pub fn get(&self, key: usize) -> (found: Option<usize>)
        requires
            self.wf(),
        ensures
            found == lookup(self@, key),
    {
        let index = bucket_index(key, self.buckets.len());
        self.buckets[index].get(key)
    }

    /// The table after a change to the bucket of `key` that left the other
    /// buckets alone holds what the changed bucket says about the keys
    /// routed to it, and what it held before about the others.
    proof fn lemma_bucket_changed(&self, pre: Table, key: usize, goal: Map<usize, usize>)
        requires
            pre.wf(),
            self.buckets@.len() == pre.buckets@.len(),
            forall|i: int|
                0 <= i < pre.buckets@.len() && i != bucket_of(key, pre.buckets@.len() as int)
                    ==> self.buckets@[i] == pre.buckets@[i],
            self.home(key).wf(),
            forall|k: usize| k != key ==> self.home(key)@.contains_key(k) == pre.home(key)@.contains_key(k),
            forall|k: usize| k != key && pre.home(key)@.contains_key(k) ==> self.home(key)@[k] == pre.home(key)@[k],
            forall|k: usize| k != key ==> goal.contains_key(k) == pre@.contains_key(k),
            forall|k: usize| k != key && pre@.contains_key(k) ==> goal[k] == pre@[k],
            goal.contains_key(key) == self.home(key)@.contains_key(key),
            goal.contains_key(key) ==> goal[key] == self.home(key)@[key],
        ensures
            self@ == goal,
            forall|i: int| 0 <= i < self.buckets@.len() ==> (#[trigger] self.buckets@[i]).wf(),
            forall|i: int, k: usize|
                0 <= i < self.buckets@.len() && (#[trigger] self.buckets@[i])@.contains_key(k) ==> #[trigger] bucket_of(
                    k,
                    self.buckets@.len() as int,
                ) == i,
    {
        let n = pre.buckets@.len() as int;
        let h = bucket_of(key, n);
        pre.lemma_home(key);
        assert forall|k: usize| self@.contains_key(k) == goal.contains_key(k) by {
            pre.lemma_home(k);
        }
        assert forall|k: usize| self@.contains_key(k) implies self@[k] == goal[k] by {
            pre.lemma_home(k);
        }
        assert(self@ =~= goal);
        assert forall|i: int| 0 <= i < self.buckets@.len() implies (#[trigger] self.buckets@[i]).wf() by {
            if i != h {
                assert(pre.buckets@[i].wf());
            }
        }
        assert forall|i: int, k: usize|
            0 <= i < self.buckets@.len() && (#[trigger] self.buckets@[i])@.contains_key(k) implies #[trigger] bucket_of(
            k,
            self.buckets@.len() as int,
        ) == i by {
            if i != h {
                assert(pre.buckets@[i]@.contains_key(k));
            } else if k != key {
                assert(pre.buckets@[h]@.contains_key(k));
            }
        }
    }

    /// The live entries of all buckets as key/value pairs, each key once.
    pub fn entries(&self) -> (out: Vec<(usize, usize)>)
        requires
            self.wf(),
        ensures
            forall|j: int|
                0 <= j < out@.len() ==> self@.contains_key((#[trigger] out@[j]).0) && self@[out@[j].0]
                    == out@[j].1,
            forall|k: usize|
                self@.contains_key(k) ==> exists|j: int| 0 <= j < out@.len() && (#[trigger] out@[j]).0 == k,
            forall|i: int, j: int| 0 <= i < j < out@.len() ==> (#[trigger] out@[i]).0 != (#[trigger] out@[j]).0,
    {
        let mut out: Vec<(usize, usize)> = Vec::new();
        let n = self.buckets.len();
        let mut i: usize = 0;
        while i < n
            invariant
                self.wf(),
                n == self.buckets@.len(),
                i <= n,
                forall|j: int|
                    0 <= j < out@.len() ==> self@.contains_key((#[trigger] out@[j]).0) && self@[out@[j].0]
                        == out@[j].1 && bucket_of(out@[j].0, n as int) < i,
                forall|k: usize|
                    self@.contains_key(k) && bucket_of(k, n as int) < i ==> exists|j: int|
                        0 <= j < out@.len() && (#[trigger] out@[j]).0 == k,
                forall|a: int, b: int|
                    0 <= a < b < out@.len() ==> (#[trigger] out@[a]).0 != (#[trigger] out@[b]).0,
            decreases n - i,
        {
            let part = self.buckets[i].entries();
            let ghost base = out@;
            let mut m: usize = 0;
            while m < part.len()
                invariant
                    m <= part@.len(),
                    out@ == base + part@.subrange(0, m as int),
                decreases part@.len() - m,
            {
                out.push(part[m]);
                m = m + 1;
                proof {
                    assert(out@ =~= base + part@.subrange(0, m as int));
                }
            }
            proof {
                assert(part@.subrange(0, m as int) =~= part@);
                let bucket = self.buckets@[i as int];
                assert(bucket.wf());
                assert forall|j: int| 0 <= j < out@.len() implies self@.contains_key((#[trigger] out@[j]).0)
                    && self@[out@[j].0] == out@[j].1 && bucket_of(out@[j].0, n as int) < i + 1 by {
                    if j >= base.len() {
                        let e = part@[j - base.len()];
                        assert(out@[j] == e);
                        assert(bucket@.contains_key(e.0));
                        assert(bucket_of(e.0, n as int) == i);
                    } else {
                        assert(out@[j] == base[j]);
                    }
                }
                assert forall|k: usize| self@.contains_key(k) && bucket_of(k, n as int) < i + 1 implies exists|
                    j: int,
                | 0 <= j < out@.len() && (#[trigger] out@[j]).0 == k by {
                    if bucket_of(k, n as int) < i {
                        let j = choose|j: int| 0 <= j < base.len() && (#[trigger] base[j]).0 == k;
                        assert(out@[j].0 == k);
                    } else {
                        assert(bucket@.contains_key(k));
                        let j = choose|j: int| 0 <= j < part@.len() && (#[trigger] part@[j]).0 == k;
                        assert(out@[base.len() + j].0 == k);
                    }
                }
                assert forall|a: int, b: int| 0 <= a < b < out@.len()
                    implies (#[trigger] out@[a]).0 != (#[trigger] out@[b]).0 by {
                    if b < base.len() {
                        assert(base[a].0 != base[b].0);
                    } else if a >= base.len() {
                        assert(part@[a - base.len()].0 < part@[b - base.len()].0);
                    } else {
                        assert(out@[a] == base[a]);
                        assert(bucket_of(out@[a].0, n as int) < i);
                        assert(bucket@.contains_key(part@[b - base.len()].0));
                    }
                }
            }
            i = i + 1;
        }
        out
    }

    /// Builds a table of `num_of_buckets` buckets that holds the same
    /// entries, by inserting each of them anew. This table is left as it
    /// is.
    pub fn migrate(&self, num_of_buckets: usize) -> (table: Table)
        requires
            self.wf(),
            num_of_buckets > 0,
        ensures
            table.wf(),
            table@ == self@,
            table.nbuckets() == num_of_buckets,
            table.pristine(),
    {
        let mut table = Table::new(num_of_buckets);
        let all = self.entries();
        let mut j: usize = 0;
        while j < all.len()
            invariant
                self.wf(),
                table.wf(),
                table.pristine(),
                table.nbuckets() == num_of_buckets,
                j <= all@.len(),
                forall|m: int|
                    0 <= m < all@.len() ==> self@.contains_key((#[trigger] all@[m]).0) && self@[all@[m].0]
                        == all@[m].1,
                forall|a: int, b: int|
                    0 <= a < b < all@.len() ==> (#[trigger] all@[a]).0 != (#[trigger] all@[b]).0,
                forall|k: usize|
                    table@.contains_key(k) <==> exists|m: int| 0 <= m < j && (#[trigger] all@[m]).0 == k,
                forall|k: usize| table@.contains_key(k) ==> table@[k] == self@[k],
            decreases all@.len() - j,
        {
            let (key, value) = all[j];
            let ghost before = table@;
            proof {
                assert(all@[j as int].0 == key);
                if before.contains_key(key) {
                    let m = choose|m: int| 0 <= m < j && (#[trigger] all@[m]).0 == key;
                    assert(all@[m].0 != all@[j as int].0);
                }
                assert(before.dom().insert(key).subset_of(self@.dom()));
                lemma_len_subset(before.dom().insert(key), self@.dom());
            }
            let ghost earlier = table;
            table.insert(key, value);
            proof {
                let h = bucket_of(key, num_of_buckets as int);
                earlier.lemma_home(key);
                earlier.lemma_absent_in_bucket(key);
                table.bucket(h).lemma_pristine_insert(&earlier.bucket(h), key, value);
                assert forall|i: int| 0 <= i < table.nbuckets() implies (#[trigger] table.bucket(i)).pristine() by {
                    if i != h {
                        assert(table.bucket(i) == earlier.bucket(i));
                    }
                }
                assert forall|k: usize| table@.contains_key(k) <==> exists|m: int|
                    0 <= m < j + 1 && (#[trigger] all@[m]).0 == k by {
                    if k == key {
                        assert(all@[j as int].0 == k);
                    } else if before.contains_key(k) {
                        let m = choose|m: int| 0 <= m < j && (#[trigger] all@[m]).0 == k;
                        assert(all@[m].0 == k);
                    }
                }
            }
            j = j + 1;
        }
        proof {
            assert forall|k: usize| self@.contains_key(k) implies table@.contains_key(k) by {
                let m = choose|m: int| 0 <= m < all@.len() && (#[trigger] all@[m]).0 == k;
                assert(all@[m].0 == k);
            }
            assert(table@ =~= self@);
        }
        table
    }

    /// The buckets hold the entries they held in `pre`, so the table does
    /// too.
    proof fn lemma_same_buckets(&self, pre: Table)
        requires
            pre.wf(),
            self.buckets@.len() == pre.buckets@.len(),
            self.nitems == pre.nitems,
            forall|j: int|
                0 <= j < pre.buckets@.len() ==> (#[trigger] self.buckets@[j]).wf() && self.buckets@[j]@
                    == pre.buckets@[j]@,
        ensures
            self.wf(),
            self@ == pre@,
    {
        assert forall|k: usize| self@.contains_key(k) == pre@.contains_key(k) by {
            pre.lemma_home(k);
        }
        assert forall|k: usize| self@.contains_key(k) implies self@[k] == pre@[k] by {
            pre.lemma_home(k);
        }
        assert(self@ =~= pre@);
        assert forall|i: int, k: usize|
            0 <= i < self.buckets@.len() && (#[trigger] self.buckets@[i])@.contains_key(k) implies #[trigger] bucket_of(
            k,
            self.buckets@.len() as int,
        ) == i by {
            assert(pre.buckets@[i]@.contains_key(k));
        }
    }

    /// Takes up the unlinked slots of every bucket for the reclamation
    /// that begins.
    pub fn condemn(&mut self)
        requires
            old(self).wf(),
        ensures
            final(self).condemned_from(old(self)),
    {
        let ghost pre = *self;
        let n = self.buckets.len();
        let mut i: usize = 0;
        while i < n
            invariant
                pre.wf(),
                n == self.buckets@.len(),
                n == pre.buckets@.len(),
                self.nitems == pre.nitems,
                i <= n,
                forall|j: int|
                    0 <= j < n ==> (#[trigger] self.buckets@[j]).wf() && self.buckets@[j]@ == pre.buckets@[j]@,
                forall|j: int| 0 <= j < i ==> (#[trigger] self.buckets@[j]).condemned_from(&pre.buckets@[j]),
                forall|j: int| i <= j < n ==> (#[trigger] self.buckets@[j]) == pre.buckets@[j],
            decreases n - i,
        {
            self.buckets[i].condemn();
            i = i + 1;
        }
        proof {
            self.lemma_same_buckets(pre);
        }
    }

    /// Releases the condemned slots of every bucket. The caller decides
    /// when that is safe.
    pub fn reclaim(&mut self)
        requires
            old(self).wf(),
        ensures
            final(self).released_from(old(self)),
    {
        let ghost pre = *self;
        let n = self.buckets.len();
        let mut i: usize = 0;
        while i < n
            invariant
                pre.wf(),
                n == self.buckets@.len(),
                n == pre.buckets@.len(),
                self.nitems == pre.nitems,
                i <= n,
                forall|j: int|
                    0 <= j < n ==> (#[trigger] self.buckets@[j]).wf() && self.buckets@[j]@ == pre.buckets@[j]@,
                forall|j: int| 0 <= j < i ==> (#[trigger] self.buckets@[j]).released_from(&pre.buckets@[j]),
                forall|j: int| i <= j < n ==> (#[trigger] self.buckets@[j]) == pre.buckets@[j],
            decreases n - i,
        {
            self.buckets[i].reclaim();
            i = i + 1;
        }
        proof {
            self.lemma_same_buckets(pre);
        }
    }

    /// Stores `value` under `key` in the bucket of `key` and returns the
    /// value it replaces. The counter goes up when the key is new.
    pub fn insert(&mut self, key: usize, value: usize) -> (previous: Option<usize>)
        requires
            old(self).wf(),
            old(self)@.dom().len() < usize::MAX,
        ensures
            final(self).inserted_from(old(self), key, value, previous),
    {
        let ghost pre = *self;
        let index = bucket_index(key, self.buckets.len());
        let previous = self.buckets[index].insert(key, value);
        proof {
            self.lemma_bucket_changed(pre, key, pre@.insert(key, value));
        }
        if previous.is_none() {
            self.nitems = self.nitems + 1;
        }
        proof {
            assert(self@ == pre@.insert(key, value));
            assert(self@.dom() =~= pre@.dom().insert(key));
        }
        previous
    }

    /// Removes `key` from its bucket and returns the value it held. The
    /// counter goes down when there was one.
    pub fn delete(&mut self, key: usize) -> (removed: Option<usize>)
        requires
            old(self).wf(),
        ensures
            final(self).deleted_from(old(self), key, removed),
    {
        let ghost pre = *self;
        let index = bucket_index(key, self.buckets.len());
        let removed = self.buckets[index].delete(key);
        proof {
            self.lemma_bucket_changed(pre, key, pre@.remove(key));
            assert(self@.dom() =~= pre@.dom().remove(key));
        }
        if removed.is_some() {
            self.nitems = self.nitems - 1;
        }
        proof {
            assert(self@ == pre@.remove(key));
            assert(self@.dom() =~= pre@.dom().remove(key));
        }
        removed
    }
}

} // verus!
