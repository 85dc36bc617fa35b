//! Quiescence tracking: one progress counter per registered client, and
//! the test that decides when unlinked memory may be released.

use vstd::prelude::*;

verus! {

/// The counter value that follows `count`: one more, starting over at zero
/// after the largest value.
pub open spec fn next_count(count: usize) -> usize {
    if count == usize::MAX {
        0
    } else {
        (count + 1) as usize
    }
}

/// An odd counter belongs to a client that is inside an operation.
pub open spec fn in_flight(count: usize) -> bool {
    count % 2 == 1
}

/// A client whose counter read `started` when a node was unlinked can no
/// longer reach that node once its counter reads `now`: it has moved past
/// `started`, or it was idle then and has not moved.
pub open spec fn cleared(started: usize, now: usize) -> bool {
    now > started || (now == started && !in_flight(now))
}

/// Every client that a snapshot covers is cleared.
pub open spec fn all_cleared(started: Seq<usize>, now: Seq<usize>) -> bool {
    forall|i: int| 0 <= i < started.len() && i < now.len() ==> cleared(#[trigger] started[i], now[i])
}

/// Decides whether one client is cleared.
pub fn handle_cleared(started: usize, now: usize) -> (ok: bool)
    ensures
        ok == cleared(started, now),
{
    now > started || (now == started && now % 2 == 0)
}

/// The progress counters of the registered clients, in order of
/// registration. Clients are added and never removed.
pub struct Registry {
    counters: Vec<usize>,
}

impl View for Registry {
    type V = Seq<usize>;

    closed spec fn view(&self) -> Seq<usize> {
        self.counters@
    }
}

impl Registry {
    /// A registry without clients.
    pub fn new() -> (registry: Registry)
        ensures
            registry@ == Seq::<usize>::empty(),
    {
        Registry { counters: Vec::new() }
    }

    /// Number of registered clients.
    pub fn len(&self) -> (n: usize)
        ensures
            n == self@.len(),
    {
        self.counters.len()
    }

    /// Registers a client with an idle counter of zero and returns its
    /// index.
    pub fn register(&mut self) -> (id: usize)
        ensures
            id == old(self)@.len(),
            final(self)@ == old(self)@.push(0),
    {
        let id = self.counters.len();
        self.counters.push(0);
        id
    }

    /// The counter of client `id`.
    pub fn counter(&self, id: usize) -> (count: usize)
        requires
            id < self@.len(),
        ensures
            count == self@[id as int],
    {
        self.counters[id]
    }

    /// Steps the counter of client `id`: once when an operation begins and
    /// once when it ends.
    pub fn advance(&mut self, id: usize)
        requires
            id < old(self)@.len(),
        ensures
            final(self)@ == old(self)@.update(id as int, next_count(old(self)@[id as int])),
    {
        let count = self.counters[id];
        let next: usize = if count == usize::MAX {
            0
        } else {
            count + 1
        };
        self.counters.set(id, next);
    }

    /// The counters as they read now.
    pub fn snapshot(&self) -> (started: Vec<usize>)
        ensures
            started@ == self@,
    {
        let mut started: Vec<usize> = Vec::new();
        let mut i: usize = 0;
        while i < self.counters.len()
            invariant
                i <= self.counters@.len(),
                started@ == self.counters@.subrange(0, i as int),
            decreases self.counters@.len() - i,
        {
            started.push(self.counters[i]);
            i = i + 1;
            proof {
                assert(started@ =~= self.counters@.subrange(0, i as int));
            }
        }
        proof {
            assert(self.counters@.subrange(0, i as int) =~= self.counters@);
        }
        started
    }

    /// The first client of the snapshot that is not cleared yet, if there
    /// is one: the client that reclamation waits for.
    pub fn blocking_handle(&self, started: &Vec<usize>) -> (blocking: Option<usize>)
        ensures
            blocking.is_none() <==> all_cleared(started@, self@),
            match blocking {
                Some(i) => {
                    &&& i < started@.len()
                    &&& i < self@.len()
                    &&& !cleared(started@[i as int], self@[i as int])
                    &&& forall|j: int| 0 <= j < i ==> cleared(#[trigger] started@[j], self@[j])
                },
                None => true,
            },
    {
        let mut i: usize = 0;
        while i < started.len() && i < self.counters.len()
            invariant
                forall|j: int| 0 <= j < i ==> cleared(#[trigger] started@[j], self@[j]),
                i <= started@.len(),
                i <= self@.len(),
            decreases started@.len() - i,
        {
            if !handle_cleared(started[i], self.counters[i]) {
                return Some(i);
            }
            i = i + 1;
        }
        None
    }

    /// Tells whether every client of the snapshot is cleared.
    pub fn quiescent(&self, started: &Vec<usize>) -> (quiet: bool)
        ensures
            quiet == all_cleared(started@, self@),
    {
        self.blocking_handle(started).is_none()
    }
}

/// Each step of a counter changes it from idle to in flight or back, and
/// makes it larger unless it starts over.
pub proof fn lemma_step_flips(count: usize)
    ensures
        in_flight(next_count(count)) == !in_flight(count),
        count < usize::MAX ==> next_count(count) > count,
{
}

/// A client that was idle at the snapshot is cleared whatever it has done
/// since without starting over; a client that was in flight is cleared as
/// soon as its counter has moved.
pub proof fn lemma_cleared_after_step(started: usize)
    requires
        started < usize::MAX,
    ensures
        !in_flight(started) ==> cleared(started, started),
        cleared(started, next_count(started)),
{
}

} // verus!
