//! The event catalog: each agent's ordered backlog of idle events, strictly
//! FIFO per agent.  An agent's next event is never examined until its current
//! one has fully resolved; an agent whose backlog empties is deleted, so the
//! catalog keeps no memory of agents with no further work.

use vstd::prelude::*;
use std::collections::VecDeque;
use crate::event::IdleEvent;

verus! {

/// One agent's entry: the agent id and its remaining backlog, front first.
#[derive(Debug)]
pub struct CatalogEntry {
    /// The agent the backlog belongs to.
    pub agent: u64,
    /// The agent's remaining idle events, earliest first.
    pub backlog: VecDeque<IdleEvent>,
}

/// Per-agent ordered backlogs of not-yet-active events.  Entries are kept in
/// registration order and no agent appears twice.
#[derive(Debug)]
pub struct EventCatalog {
    pub entries: Vec<CatalogEntry>,
}

impl EventCatalog {
    /// Agent ids are unique across entries.
    pub open spec fn wf(self) -> bool {
        forall|i: int, j: int|
            0 <= i < j < self.entries@.len() ==> self.entries@[i].agent != self.entries@[j].agent
    }

    /// The index of the entry for `agent`, if one exists.
    pub open spec fn entry_index(self, agent: u64) -> int {
        choose|i: int| 0 <= i < self.entries@.len() && self.entries@[i].agent == agent
    }

    /// Whether the catalog holds an entry for `agent`.
    pub open spec fn has_agent(self, agent: u64) -> bool {
        exists|i: int| 0 <= i < self.entries@.len() && self.entries@[i].agent == agent
    }

    /// The remaining backlog of `agent`, earliest event first; empty if the
    /// catalog holds nothing for the agent.
    pub open spec fn backlog_of(self, agent: u64) -> Seq<IdleEvent> {
        if self.has_agent(agent) {
            self.entries@[self.entry_index(agent)].backlog@
        } else {
            Seq::<IdleEvent>::empty()
        }
    }

    /// An empty catalog.
    pub fn new() -> (r: EventCatalog)
        ensures
            r.wf(),
            forall|a: u64| r.backlog_of(a) =~= Seq::<IdleEvent>::empty(),
            r.entries_view().len() == 0,
    {
        let r = EventCatalog { entries: Vec::new() };
        proof {
            assert(forall|a: u64| !r.has_agent(a));
        }
        r
    }

    /// Append `event` to `agent`'s backlog, creating the entry if the agent
    /// has none yet (construction time only).
    pub fn register(&mut self, agent: u64, event: IdleEvent)
        requires
            old(self).wf(),
        ensures
            final(self).wf(),
            final(self).backlog_of(agent) =~= old(self).backlog_of(agent).push(event),
            forall|a: u64| a != agent ==> final(self).backlog_of(a) =~= old(self).backlog_of(a),
    {
        let n: usize = self.entries.len();
        let mut i: usize = 0;
        while i < n
            invariant
                n == self.entries@.len(),
                i <= n,
                forall|k: int| 0 <= k < i ==> self.entries@[k].agent != agent,
                self.wf(),
                *self == *old(self),
            decreases n - i,
        {
            if self.entries[i].agent == agent {
                proof {
                    assert(old(self).has_agent(agent));
                    lemma_unique_entry_index(*old(self), agent, i as int);
                }
                self.entries[i].backlog.push_back(event);
                proof {
                    assert(self.entries@ =~= old(self).entries@.update(
                        i as int,
                        self.entries@[i as int],
                    ));
                    assert(self.entries@[i as int].agent == agent);
                    assert(self.entries@[i as int].backlog@ =~= old(self).entries@[i as int]
                        .backlog@.push(event));
                    lemma_unique_entry_index(*self, agent, i as int);
                    assert forall|a: u64| a != agent implies self.backlog_of(a) =~= old(
                        self,
                    ).backlog_of(a) by {
                        lemma_other_agents_unchanged(*old(self), *self, a, i as int);
                    }
                }
                return ;
            }
            i += 1;
        }
        let mut backlog: VecDeque<IdleEvent> = VecDeque::new();
        backlog.push_back(event);
        let entry = CatalogEntry { agent, backlog };
        self.entries.push(entry);
        proof {
            let m = old(self).entries@.len() as int;
            assert(!old(self).has_agent(agent));
            assert(self.entries@[m].agent == agent);
            lemma_unique_entry_index(*self, agent, m);
            assert(self.entries@[m].backlog@ =~= Seq::<IdleEvent>::empty().push(event));
            assert(self.backlog_of(agent) =~= old(self).backlog_of(agent).push(event));
            assert forall|a: u64| a != agent implies self.backlog_of(a) =~= old(self).backlog_of(
                a,
            ) by {
                if old(self).has_agent(a) {
                    let k = old(self).entry_index(a);
                    assert(self.entries@[k].agent == a);
                    lemma_unique_entry_index(*self, a, k);
                } else {
                    assert(forall|k: int|
                        0 <= k < self.entries@.len() ==> self.entries@[k].agent != a);
                }
            }
        }
    }

    /// Remove and return `agent`'s earliest remaining idle event, or `None`
    /// if the agent has no remaining work.  When the last event is taken the
    /// agent's entry is deleted: the catalog keeps no memory of agents with
    /// no further work.
    pub fn take_next(&mut self, agent: u64) -> (r: Option<IdleEvent>)
        requires
            old(self).wf(),
        ensures
            final(self).wf(),
            r is Some <==> old(self).backlog_of(agent).len() > 0,
            r is Some ==> r->Some_0 == old(self).backlog_of(agent)[0],
            old(self).backlog_of(agent).len() > 0 ==> final(self).backlog_of(agent) =~= old(
                self,
            ).backlog_of(agent).skip(1),
            old(self).backlog_of(agent).len() == 0 ==> final(self).backlog_of(agent) =~= Seq::<
                IdleEvent,
            >::empty(),
            old(self).backlog_of(agent).len() <= 1 ==> !final(self).has_agent(agent),
            old(self).backlog_of(agent).len() > 1 ==> final(self).has_agent(agent),
            forall|a: u64| a != agent ==> final(self).backlog_of(a) =~= old(self).backlog_of(a),
            forall|a: u64| a != agent ==> final(self).has_agent(a) == old(self).has_agent(a),
    {
        let n: usize = self.entries.len();
        let mut i: usize = 0;
        while i < n
            invariant
                n == self.entries@.len(),
                i <= n,
                forall|k: int| 0 <= k < i ==> self.entries@[k].agent != agent,
                self.wf(),
                *self == *old(self),
            decreases n - i,
        {
            if self.entries[i].agent == agent {
                proof {
                    assert(old(self).has_agent(agent));
                    lemma_unique_entry_index(*old(self), agent, i as int);
                }
                let taken = self.entries[i].backlog.pop_front();
                proof {
                    assert(self.entries@ =~= old(self).entries@.update(
                        i as int,
                        self.entries@[i as int],
                    ));
                    assert(self.entries@[i as int].agent == agent);
                    lemma_unique_entry_index(*self, agent, i as int);
                    if old(self).entries@[i as int].backlog@.len() == 0 {
                        assert(self.backlog_of(agent) =~= Seq::<IdleEvent>::empty());
                    } else {
                        assert(self.entries@[i as int].backlog@ =~= old(self).entries@[i as int]
                            .backlog@.skip(1));
                        assert(self.backlog_of(agent) =~= old(self).backlog_of(agent).skip(1));
                    }
                    assert forall|a: u64| a != agent implies self.backlog_of(a) =~= old(
                        self,
                    ).backlog_of(a) && self.has_agent(a) == old(self).has_agent(a) by {
                        lemma_other_agents_unchanged(*old(self), *self, a, i as int);
                    }
                }
                if self.entries[i].backlog.len() == 0 {
                    let ghost mid = *self;
                    self.entries.remove(i);
                    proof {
                        assert(self.entries@ =~= mid.entries@.remove(i as int));
                        mid.entries@.remove_ensures(i as int);
                        assert forall|p: int|
                            0 <= p < self.entries@.len() implies #[trigger] self.entries@[p]
                            == mid.entries@[
                            if p < i as int {
                                p
                            } else {
                                p + 1
                            }
                        ] by {}
                        assert forall|p: int, q: int|
                            0 <= p < q < self.entries@.len() implies self.entries@[p].agent
                            != self.entries@[q].agent by {
                            let p2: int = if p < i as int {
                                p
                            } else {
                                p + 1
                            };
                            let q2: int = if q < i as int {
                                q
                            } else {
                                q + 1
                            };
                            assert(self.entries@[p] == mid.entries@[p2]);
                            assert(self.entries@[q] == mid.entries@[q2]);
                            assert(mid.entries@[p2].agent == old(self).entries@[p2].agent);
                            assert(mid.entries@[q2].agent == old(self).entries@[q2].agent);
                        }
                        assert forall|k: int|
                            0 <= k < self.entries@.len() implies #[trigger] self.entries@[k].agent
                            != agent by {
                            let k2: int = if k < i as int {
                                k
                            } else {
                                k + 1
                            };
                            assert(self.entries@[k] == mid.entries@[k2]);
                            assert(mid.entries@[k2].agent == old(self).entries@[k2].agent);
                            assert(old(self).entries@[k2].agent != agent);
                        }
                        assert(!self.has_agent(agent));
                        assert(self.backlog_of(agent) =~= Seq::<IdleEvent>::empty());
                        assert(old(self).backlog_of(agent).len() <= 1);
                        assert forall|a: u64| a != agent implies self.backlog_of(a) =~= old(
                            self,
                        ).backlog_of(a) && self.has_agent(a) == old(self).has_agent(a) by {
                            if mid.has_agent(a) {
                                let k = mid.entry_index(a);
                                lemma_unique_entry_index(mid, a, k);
                                assert(k != i as int);
                                let k2: int = if k < i as int {
                                    k
                                } else {
                                    k - 1
                                };
                                assert(self.entries@[k2] == mid.entries@[k]);
                                lemma_unique_entry_index(*self, a, k2);
                                assert(self.backlog_of(a) == mid.backlog_of(a));
                            } else {
                                assert forall|k: int|
                                    0 <= k < self.entries@.len() implies #[trigger] self.entries@[
                                    k
                                ].agent != a by {
                                    let k2: int = if k < i as int {
                                        k
                                    } else {
                                        k + 1
                                    };
                                    assert(self.entries@[k] == mid.entries@[k2]);
                                }
                                assert(!self.has_agent(a));
                            }
                        }
                    }
                }
                return taken;
            }
            i += 1;
        }
        proof {
            assert(!self.has_agent(agent));
        }
        None
    }

    /// Number of entries with remaining work, in registration order.
    pub fn entry_count(&self) -> (r: usize)
        ensures
            r == self.entries_view().len(),
    {
        self.entries.len()
    }

    /// The agent id of the entry at position `i`, in registration order.
    pub fn agent_at(&self, i: usize) -> (r: u64)
        requires
            i < self.entries_view().len(),
        ensures
            r == self.entries_view()[i as int].agent,
    {
        self.entries[i].agent
    }

    /// The entry sequence, for specifications that need registration order.
    pub open spec fn entries_view(self) -> Seq<CatalogEntry> {
        self.entries@
    }

    /// The backlog of the agent whose entry sits at position `k` is exactly
    /// that entry's backlog.
    pub proof fn lemma_backlog_at_index(self, k: int)
        requires
            self.wf(),
            0 <= k < self.entries_view().len(),
        ensures
            self.has_agent(self.entries_view()[k].agent),
            self.backlog_of(self.entries_view()[k].agent) == self.entries_view()[k].backlog@,
    {
        lemma_unique_entry_index(self, self.entries_view()[k].agent, k);
    }
}


/// How many entries of `s` still hold work: a backlog with at least one
/// event.
pub open spec fn count_busy(s: Seq<CatalogEntry>) -> nat
    decreases s.len(),
{
    if s.len() == 0 {
        0
    } else {
        count_busy(s.drop_last()) + if s.last().backlog@.len() > 0 {
            1nat
        } else {
            0nat
        }
    }
}

/// Extending the counted prefix by one entry raises the busy count exactly
/// when that entry holds work.
pub proof fn lemma_count_busy_step(s: Seq<CatalogEntry>, i: int)
    requires
        0 <= i < s.len(),
    ensures
        count_busy(s.take(i + 1)) == count_busy(s.take(i)) + if s[i].backlog@.len() > 0 {
            1nat
        } else {
            0nat
        },
{
    assert(s.take(i + 1).drop_last() =~= s.take(i));
    assert(s.take(i + 1).last() == s[i]);
}

/// The whole sequence is its own full prefix.
pub proof fn lemma_count_busy_all(s: Seq<CatalogEntry>)
    ensures
        count_busy(s.take(s.len() as int)) == count_busy(s),
{
    assert(s.take(s.len() as int) =~= s);
}

/// In a catalog with unique agent ids, the entry index of an agent present at
/// position `i` is exactly `i`.
proof fn lemma_unique_entry_index(c: EventCatalog, agent: u64, i: int)
    requires
        c.wf(),
        0 <= i < c.entries_view().len(),
        c.entries_view()[i].agent == agent,
    ensures
        c.has_agent(agent),
        c.entry_index(agent) == i,
{
    assert(c.has_agent(agent));
    let j = c.entry_index(agent);
    if i < j {
        assert(c.entries_view()[i].agent != c.entries_view()[j].agent);
    } else if j < i {
        assert(c.entries_view()[j].agent != c.entries_view()[i].agent);
    }
}

/// A mutation confined to the entry at position `i` leaves every other
/// agent's backlog view unchanged, provided the entry keeps its agent id.
proof fn lemma_other_agents_unchanged(
    before: EventCatalog,
    after: EventCatalog,
    a: u64,
    i: int,
)
    requires
        before.wf(),
        after.wf(),
        0 <= i < before.entries_view().len(),
        after.entries_view() =~= before.entries_view().update(i, after.entries_view()[i]),
        after.entries_view()[i].agent == before.entries_view()[i].agent,
        a != before.entries_view()[i].agent,
    ensures
        after.backlog_of(a) =~= before.backlog_of(a),
        after.has_agent(a) == before.has_agent(a),
{
    if before.has_agent(a) {
        let k = before.entry_index(a);
        assert(before.entries_view()[k].agent == a);
        assert(k != i);
        assert(after.entries_view()[k].agent == a);
        lemma_unique_entry_index(after, a, k);
        assert(after.entries_view()[k] == before.entries_view()[k]);
    } else {
        assert(forall|k: int|
            0 <= k < after.entries_view().len() ==> after.entries_view()[k].agent != a);
        assert(!after.has_agent(a));
    }
}

} // verus!
