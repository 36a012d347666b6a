//! The scheduler: active events ordered primarily by absolute due time
//! (earlier first), with equal due times broken by agent id.  The tie-break
//! is an intentional, documented simplification: equal-time events are
//! processed in agent-id order rather than strict arrival order.

use vstd::prelude::*;
use crate::event::ActiveEvent;

verus! {

/// A time-ordered priority structure holding active events.  Internally a
/// vector kept sorted by `(scheduled_time, id)`, so the earliest due event is
/// always at the front.
#[derive(Debug)]
pub struct Scheduler {
    /// The pending active events, sorted by `(scheduled_time, id)`.
    pub events: Vec<ActiveEvent>,
}

impl Scheduler {
    /// The events are sorted by due time, ties broken by agent id.
    pub open spec fn sorted(self) -> bool {
        forall|i: int, j: int|
            0 <= i < j < self.events@.len() ==> (#[trigger] self.events@[i]).le_key(#[trigger] self.events@[j])
    }

    /// Every pending event is due at or after `t`.
    pub open spec fn times_at_least(self, t: u128) -> bool {
        forall|k: int|
            0 <= k < self.events@.len() ==> t <= (#[trigger] self.events@[k]).scheduled_time
    }

    /// An empty scheduler.
    pub fn new() -> (r: Scheduler)
        ensures
            r.sorted(),
            r.events@.len() == 0,
    {
        Scheduler { events: Vec::new() }
    }

    /// Whether no events are pending.
    pub fn is_empty(&self) -> (r: bool)
        ensures
            r == (self.events@.len() == 0),
    {
        self.events.len() == 0
    }

    /// Insert `event` at its sorted position: after every event that is due
    /// no later (by the time-then-id order), before the rest.
    pub fn push(&mut self, event: ActiveEvent)
        requires
            old(self).sorted(),
        ensures
            final(self).sorted(),
            exists|k: int|
                0 <= k <= old(self).events@.len() && final(self).events@ =~= old(
                    self,
                ).events@.insert(k, event),
            final(self).events@.len() == old(self).events@.len() + 1,
    {
        let n: usize = self.events.len();
        let mut p: usize = 0;
        while p < n && le_key_exec(&self.events[p], &event)
            invariant
                n == self.events@.len(),
                p <= n,
                forall|k: int| 0 <= k < p ==> (#[trigger] self.events@[k]).le_key(event),
                self.sorted(),
                *self == *old(self),
            decreases n - p,
        {
            p += 1;
        }
        proof {
            if p < n {
                assert(!self.events@[p as int].le_key(event));
            }
        }
        self.events.insert(p, event);
        proof {
            let s0 = old(self).events@;
            let s1 = self.events@;
            assert(s1 =~= s0.insert(p as int, event));
            assert forall|i: int, j: int| 0 <= i < j < s1.len() implies (#[trigger] s1[i]).le_key(
                #[trigger] s1[j],
            ) by {
                let pi = p as int;
                if i < pi && j < pi {
                    assert(s1[i] == s0[i] && s1[j] == s0[j]);
                } else if i < pi && j == pi {
                    assert(s1[i] == s0[i] && s1[j] == event);
                } else if i < pi && j > pi {
                    assert(s1[i] == s0[i] && s1[j] == s0[j - 1]);
                } else if i == pi && j > pi {
                    assert(s1[i] == event && s1[j] == s0[j - 1]);
                    assert(!s0[pi].le_key(event));
                    assert(s0[pi].le_key(s0[j - 1]) || pi == j - 1);
                } else {
                    assert(s1[i] == s0[i - 1] && s1[j] == s0[j - 1]);
                }
            }
        }
    }

    /// Remove and return, in id order, every pending event due exactly at
    /// `t`.  Since no event is due before `t`, these form the front of the
    /// sorted sequence; everything that remains is due strictly later.
    pub fn pop_all_due(&mut self, t: u128) -> (r: Vec<ActiveEvent>)
        requires
            old(self).sorted(),
            old(self).times_at_least(t),
        ensures
            final(self).sorted(),
            final(self).times_at_least(t),
            old(self).events@ =~= r@ + final(self).events@,
            forall|k: int|
                0 <= k < r@.len() ==> (#[trigger] r@[k]).scheduled_time == t,
            forall|k: int|
                0 <= k < final(self).events@.len() ==> t < (#[trigger] final(self).events@[
                    k
                ]).scheduled_time,
            forall|i: int, j: int| 0 <= i < j < r@.len() ==> (#[trigger] r@[i]).le_key(#[trigger] r@[j]),
    {
        let mut r: Vec<ActiveEvent> = Vec::new();
        while self.events.len() > 0 && self.events[0].scheduled_time == t
            invariant
                self.sorted(),
                self.times_at_least(t),
                old(self).events@ =~= r@ + self.events@,
                forall|k: int| 0 <= k < r@.len() ==> (#[trigger] r@[k]).scheduled_time == t,
                forall|i: int, j: int| 0 <= i < j < r@.len() ==> (#[trigger] r@[i]).le_key(#[trigger] r@[j]),
                forall|i: int, k: int|
                    0 <= i < r@.len() && 0 <= k < self.events@.len() ==> (#[trigger] r@[
                        i
                    ]).le_key(#[trigger] self.events@[k]),
            decreases self.events@.len(),
        {
            let ghost s0 = self.events@;
            let ev = self.events.remove(0);
            proof {
                assert(self.events@ =~= s0.skip(1));
                assert forall|k: int| 0 <= k < self.events@.len() implies s0[0].le_key(
                    #[trigger] self.events@[k],
                ) by {
                    assert(self.events@[k] == s0[k + 1]);
                }
            }
            r.push(ev);
        }
        proof {
            assert forall|k: int| 0 <= k < self.events@.len() implies t < (#[trigger] self.events@[
                k
            ]).scheduled_time by {
                if self.events@.len() > 0 {
                    assert(self.events@[0].scheduled_time != t);
                    assert(t <= self.events@[0].scheduled_time);
                    if k > 0 {
                        assert(self.events@[0].le_key(self.events@[k]));
                    }
                }
            }
        }
        r
    }

    /// The smallest due time among pending events, or `None` if none are
    /// pending.
    pub fn peek_min_time(&self) -> (r: Option<u128>)
        requires
            self.sorted(),
        ensures
            r is None <==> self.events@.len() == 0,
            r is Some ==> r->Some_0 == self.events@[0].scheduled_time,
            r is Some ==> forall|k: int|
                0 <= k < self.events@.len() ==> r->Some_0 <= (#[trigger] self.events@[
                    k
                ]).scheduled_time,
    {
        if self.events.len() == 0 {
            None
        } else {
            proof {
                assert forall|k: int| 0 <= k < self.events@.len() implies self.events@[
                    0
                ].scheduled_time <= (#[trigger] self.events@[k]).scheduled_time by {
                    if k > 0 {
                        assert(self.events@[0].le_key(self.events@[k]));
                    }
                }
            }
            Some(self.events[0].scheduled_time)
        }
    }
}

/// Executable form of the scheduling order `le_key`.
pub fn le_key_exec(a: &ActiveEvent, b: &ActiveEvent) -> (r: bool)
    ensures
        r == a.le_key(*b),
{
    a.scheduled_time < b.scheduled_time || (a.scheduled_time == b.scheduled_time && a.id <= b.id)
}

} // verus!
