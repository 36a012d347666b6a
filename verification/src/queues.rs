//! The wait-queue registry: named FIFO queues of `(agent id, requested
//! duration)` pairs, each feeding one or more resources.  The first agent
//! enqueued is the first considered for a resource slot.

use vstd::prelude::*;
use std::collections::VecDeque;

verus! {

/// A named FIFO wait queue of `(agent id, requested duration)` pairs.
#[derive(Debug)]
pub struct SimulationQueue {
    /// The queue's name; resources refer to it by this name.
    pub queue_name: String,
    /// Waiting agents, front first.
    pub queue: VecDeque<(u64, u64)>,
}

/// The registry of named wait queues, in registration order; no name appears
/// twice.
#[derive(Debug)]
pub struct QueueRegistry {
    /// The registered queues.
    pub queues: Vec<SimulationQueue>,
}

/// How many pairs of `s` carry `agent` as their agent id.
pub open spec fn waiting_count(s: Seq<(u64, u64)>, agent: u64) -> nat
    decreases s.len(),
{
    if s.len() == 0 {
        0
    } else {
        waiting_count(s.drop_last(), agent) + if s.last().0 == agent {
            1nat
        } else {
            0nat
        }
    }
}

/// Appending one pair raises `agent`'s waiting count exactly when the pair is
/// the agent's.
pub proof fn lemma_waiting_count_push(s: Seq<(u64, u64)>, p: (u64, u64), agent: u64)
    ensures
        waiting_count(s.push(p), agent) == waiting_count(s, agent) + if p.0 == agent {
            1nat
        } else {
            0nat
        },
{
    assert(s.push(p).drop_last() =~= s);
    assert(s.push(p).last() == p);
}

/// Removing the front pair lowers `agent`'s waiting count exactly when the
/// pair is the agent's.
pub proof fn lemma_waiting_count_skip_front(s: Seq<(u64, u64)>, agent: u64)
    requires
        s.len() > 0,
    ensures
        waiting_count(s, agent) == waiting_count(s.skip(1), agent) + if s[0].0 == agent {
            1nat
        } else {
            0nat
        },
    decreases s.len(),
{
    if s.len() == 1 {
        assert(s.drop_last() =~= Seq::<(u64, u64)>::empty());
        assert(s.skip(1) =~= Seq::<(u64, u64)>::empty());
    } else {
        lemma_waiting_count_skip_front(s.drop_last(), agent);
        assert(s.drop_last().skip(1) =~= s.skip(1).drop_last());
        assert(s.drop_last()[0] == s[0]);
        assert(s.skip(1).last() == s.last());
    }
}

impl QueueRegistry {
    /// Queue names are unique across the registry.
    pub open spec fn wf(self) -> bool {
        forall|i: int, j: int|
            0 <= i < j < self.queues@.len() ==> self.queues@[i].queue_name@ != self.queues@[
                j
            ].queue_name@
    }

    /// The index of the queue named `name`, if one exists.
    pub open spec fn queue_index(self, name: Seq<char>) -> int {
        choose|i: int| 0 <= i < self.queues@.len() && self.queues@[i].queue_name@ == name
    }

    /// Whether a queue named `name` was registered.
    pub open spec fn has_queue(self, name: Seq<char>) -> bool {
        exists|i: int| 0 <= i < self.queues@.len() && self.queues@[i].queue_name@ == name
    }

    /// The contents of the queue named `name`, front first; empty if no such
    /// queue was registered.
    pub open spec fn queue_at(self, name: Seq<char>) -> Seq<(u64, u64)> {
        if self.has_queue(name) {
            self.queues@[self.queue_index(name)].queue@
        } else {
            Seq::<(u64, u64)>::empty()
        }
    }

    /// Every registered queue is empty.
    pub open spec fn all_empty(self) -> bool {
        forall|i: int| 0 <= i < self.queues@.len() ==> self.queues@[i].queue@.len() == 0
    }

    /// An empty registry.
    pub fn new() -> (r: QueueRegistry)
        ensures
            r.wf(),
            r.queues@.len() == 0,
            forall|name: Seq<char>| !r.has_queue(name),
    {
        QueueRegistry { queues: Vec::new() }
    }

    /// Register `queue` under its name.  A name already registered keeps its
    /// first registration; the late-comer is dropped.
    pub fn add(&mut self, queue: SimulationQueue)
        requires
            old(self).wf(),
        ensures
            final(self).wf(),
            final(self).has_queue(queue.queue_name@),
            old(self).has_queue(queue.queue_name@) ==> *final(self) == *old(self),
            !old(self).has_queue(queue.queue_name@) ==> final(self).queue_at(queue.queue_name@)
                =~= queue.queue@,
            forall|name: Seq<char>|
                name != queue.queue_name@ ==> final(self).has_queue(name) == old(self).has_queue(
                    name,
                ) && final(self).queue_at(name) =~= old(self).queue_at(name),
    {
        let n: usize = self.queues.len();
        let mut i: usize = 0;
        while i < n
            invariant
                n == self.queues@.len(),
                i <= n,
                forall|k: int| 0 <= k < i ==> self.queues@[k].queue_name@ != queue.queue_name@,
                self.wf(),
                *self == *old(self),
            decreases n - i,
        {
            if self.queues[i].queue_name.eq(&queue.queue_name) {
                proof {
                    assert(self.has_queue(queue.queue_name@));
                }
                return ;
            }
            i += 1;
        }
        proof {
            assert(!old(self).has_queue(queue.queue_name@));
        }
        let ghost name = queue.queue_name@;
        self.queues.push(queue);
        proof {
            let m = old(self).queues@.len() as int;
            assert(self.queues@[m].queue_name@ == name);
            lemma_unique_queue_index(*self, name, m);
            assert forall|other: Seq<char>| other != name implies self.has_queue(other) == old(
                self,
            ).has_queue(other) && self.queue_at(other) =~= old(self).queue_at(other) by {
                if old(self).has_queue(other) {
                    let k = old(self).queue_index(other);
                    assert(self.queues@[k].queue_name@ == other);
                    lemma_unique_queue_index(*self, other, k);
                } else {
                    assert(forall|k: int|
                        0 <= k < self.queues@.len() ==> self.queues@[k].queue_name@ != other);
                }
            }
        }
    }

    /// Whether a queue named `name` was registered.
    pub fn contains_queue(&self, name: &String) -> (r: bool)
        ensures
            r == self.has_queue(name@),
    {
        let n: usize = self.queues.len();
        let mut i: usize = 0;
        while i < n
            invariant
                n == self.queues@.len(),
                i <= n,
                forall|k: int| 0 <= k < i ==> self.queues@[k].queue_name@ != name@,
            decreases n - i,
        {
            if self.queues[i].queue_name.eq(name) {
                proof {
                    assert(self.has_queue(name@));
                }
                return true;
            }
            i += 1;
        }
        false
    }

    /// Append `(agent, duration)` to the back of the queue named `name`.
    /// Returns whether the queue exists; an unregistered name leaves the
    /// registry untouched.
    pub fn enqueue(&mut self, name: &String, agent: u64, duration: u64) -> (ok: bool)
        requires
            old(self).wf(),
        ensures
            final(self).wf(),
            ok == old(self).has_queue(name@),
            !ok ==> *final(self) == *old(self),
            ok ==> final(self).queue_at(name@) =~= old(self).queue_at(name@).push(
                (agent, duration),
            ),
            forall|other: Seq<char>|
                other != name@ ==> final(self).queue_at(other) =~= old(self).queue_at(other),
            forall|other: Seq<char>| final(self).has_queue(other) == old(self).has_queue(other),
    {
        let n: usize = self.queues.len();
        let mut i: usize = 0;
        while i < n
            invariant
                n == self.queues@.len(),
                i <= n,
                forall|k: int| 0 <= k < i ==> self.queues@[k].queue_name@ != name@,
                self.wf(),
                *self == *old(self),
            decreases n - i,
        {
            if self.queues[i].queue_name.eq(name) {
                proof {
                    lemma_unique_queue_index(*old(self), name@, i as int);
                }
                self.queues[i].queue.push_back((agent, duration));
                proof {
                    assert(self.queues@ =~= old(self).queues@.update(
                        i as int,
                        self.queues@[i as int],
                    ));
                    assert(self.queues@[i as int].queue_name@ == name@);
                    lemma_unique_queue_index(*self, name@, i as int);
                    assert(self.queues@[i as int].queue@ =~= old(self).queues@[i as int]
                        .queue@.push((agent, duration)));
                    assert forall|other: Seq<char>| other != name@ implies self.queue_at(other)
                        =~= old(self).queue_at(other) && self.has_queue(other) == old(
                        self,
                    ).has_queue(other) by {
                        lemma_other_queues_unchanged(*old(self), *self, other, i as int);
                    }
                }
                return true;
            }
            i += 1;
        }
        proof {
            assert(!self.has_queue(name@));
        }
        false
    }

    /// The front pair of the queue named `name`, without removing it;
    /// `None` if the queue is unregistered or empty.
    pub fn peek_front(&self, name: &String) -> (r: Option<(u64, u64)>)
        requires
            self.wf(),
        ensures
            r is Some <==> self.queue_at(name@).len() > 0,
            r is Some ==> r->Some_0 == self.queue_at(name@)[0],
    {
        let n: usize = self.queues.len();
        let mut i: usize = 0;
        while i < n
            invariant
                n == self.queues@.len(),
                i <= n,
                forall|k: int| 0 <= k < i ==> self.queues@[k].queue_name@ != name@,
                self.wf(),
            decreases n - i,
        {
            if self.queues[i].queue_name.eq(name) {
                proof {
                    lemma_unique_queue_index(*self, name@, i as int);
                }
                if self.queues[i].queue.len() == 0 {
                    return None;
                }
                return Some(self.queues[i].queue[0]);
            }
            i += 1;
        }
        proof {
            assert(!self.has_queue(name@));
        }
        None
    }

    /// Remove and return the front pair of the queue named `name`; `None` if
    /// the queue is unregistered or empty, in which case nothing changes.
    pub fn dequeue(&mut self, name: &String) -> (r: Option<(u64, u64)>)
        requires
            old(self).wf(),
        ensures
            final(self).wf(),
            r is Some <==> old(self).queue_at(name@).len() > 0,
            r is None ==> *final(self) == *old(self),
            r is Some ==> r->Some_0 == old(self).queue_at(name@)[0] && final(self).queue_at(name@)
                =~= old(self).queue_at(name@).skip(1),
            forall|other: Seq<char>|
                other != name@ ==> final(self).queue_at(other) =~= old(self).queue_at(other),
            forall|other: Seq<char>| final(self).has_queue(other) == old(self).has_queue(other),
    {
        let n: usize = self.queues.len();
        let mut i: usize = 0;
        while i < n
            invariant
                n == self.queues@.len(),
                i <= n,
                forall|k: int| 0 <= k < i ==> self.queues@[k].queue_name@ != name@,
                self.wf(),
                *self == *old(self),
            decreases n - i,
        {
            if self.queues[i].queue_name.eq(name) {
                proof {
                    lemma_unique_queue_index(*old(self), name@, i as int);
                }
                if self.queues[i].queue.len() == 0 {
                    return None;
                }
                let r = self.queues[i].queue.pop_front();
                proof {
                    assert(self.queues@ =~= old(self).queues@.update(
                        i as int,
                        self.queues@[i as int],
                    ));
                    assert(self.queues@[i as int].queue_name@ == name@);
                    lemma_unique_queue_index(*self, name@, i as int);
                    assert(self.queues@[i as int].queue@ =~= old(self).queues@[i as int]
                        .queue@.skip(1));
                    assert forall|other: Seq<char>| other != name@ implies self.queue_at(other)
                        =~= old(self).queue_at(other) && self.has_queue(other) == old(
                        self,
                    ).has_queue(other) by {
                        lemma_other_queues_unchanged(*old(self), *self, other, i as int);
                    }
                }
                return r;
            }
            i += 1;
        }
        proof {
            assert(!self.has_queue(name@));
        }
        None
    }

    /// Whether every registered queue is empty.
    pub fn all_queues_empty(&self) -> (r: bool)
        ensures
            r == self.all_empty(),
    {
        let n: usize = self.queues.len();
        let mut i: usize = 0;
        while i < n
            invariant
                n == self.queues@.len(),
                i <= n,
                forall|k: int| 0 <= k < i ==> self.queues@[k].queue@.len() == 0,
            decreases n - i,
        {
            if self.queues[i].queue.len() > 0 {
                return false;
            }
            i += 1;
        }
        true
    }
}

/// In a registry with unique names, the queue index of a name present at
/// position `i` is exactly `i`.
proof fn lemma_unique_queue_index(q: QueueRegistry, name: Seq<char>, i: int)
    requires
        q.wf(),
        0 <= i < q.queues@.len(),
        q.queues@[i].queue_name@ == name,
    ensures
        q.has_queue(name),
        q.queue_index(name) == i,
{
    assert(q.has_queue(name));
    let j = q.queue_index(name);
    if i < j {
        assert(q.queues@[i].queue_name@ != q.queues@[j].queue_name@);
    } else if j < i {
        assert(q.queues@[j].queue_name@ != q.queues@[i].queue_name@);
    }
}

/// A mutation confined to the queue at position `i` leaves every other
/// queue's view unchanged, provided the queue keeps its name.
proof fn lemma_other_queues_unchanged(
    before: QueueRegistry,
    after: QueueRegistry,
    name: Seq<char>,
    i: int,
)
    requires
        before.wf(),
        after.wf(),
        0 <= i < before.queues@.len(),
        after.queues@ =~= before.queues@.update(i, after.queues@[i]),
        after.queues@[i].queue_name@ == before.queues@[i].queue_name@,
        name != before.queues@[i].queue_name@,
    ensures
        after.queue_at(name) =~= before.queue_at(name),
        after.has_queue(name) == before.has_queue(name),
{
    if before.has_queue(name) {
        let k = before.queue_index(name);
        assert(before.queues@[k].queue_name@ == name);
        assert(k != i);
        assert(after.queues@[k].queue_name@ == name);
        lemma_unique_queue_index(after, name, k);
        assert(after.queues@[k] == before.queues@[k]);
    } else {
        assert(forall|k: int|
            0 <= k < after.queues@.len() ==> after.queues@[k].queue_name@ != name);
        assert(!after.has_queue(name));
    }
}

} // verus!
