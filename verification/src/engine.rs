//! The simulation engine: owns the event catalog, the resource pool and the
//! wait-queue registry, and drives the tick loop that shuttles events between
//! them, emitting a log record at every state change.

use vstd::prelude::*;
use crate::catalog::EventCatalog;
use crate::event::ActiveEvent;
use crate::event::EventType;
use crate::event::IdleEvent;
use crate::log::LogRecord;
use crate::queues::QueueRegistry;
use crate::queues::SimulationQueue;
use crate::resource::Resource;
use crate::resource::ResourceStatus;
use crate::scheduler::Scheduler;

verus! {

/// A resource referenced a wait-queue name that was never registered.  The
/// run fails before any tick executes: no partial log is produced.
#[derive(Debug, Clone, PartialEq, Eq)]
pub struct ConfigurationError {
    /// The queue name that no registration matches.
    pub missing_queue: String,
}

/// How a run ended.
#[derive(Clone, Copy, Debug, PartialEq, Eq, Structural)]
pub enum SimOutcome {
    /// The termination condition held: no pending events, no occupied slots,
    /// no waiting agents.
    Finished,
    /// The iteration ceiling was reached first: the scenario never drains (a
    /// cycle of events, or a capacity-starved queue).  Surfaced distinctly
    /// from a clean finish.
    RunawayStop,
}

/// The product of a run: the chronological log and how the run ended.
#[derive(Debug)]
pub struct SimRun {
    /// The emitted records, in non-decreasing time order.
    pub logs: Vec<LogRecord>,
    /// Whether the run finished cleanly or hit the iteration ceiling.
    pub outcome: SimOutcome,
}

/// The simulation environment: all mutable state of one run.  Each run owns
/// a fresh instance; nothing is shared across runs.
#[derive(Debug)]
pub struct Environment {
    /// Per-agent backlogs of idle events.
    pub event_list: EventCatalog,
    /// The resource pool, in registration order.
    pub resources: Vec<Resource>,
    /// The named wait queues.
    pub resource_queues: QueueRegistry,
}

/// An agent descriptor: spawns at `spawn_time`, then requests `process_time`
/// units of service from the default queue.
#[derive(Debug, Clone, Copy)]
pub struct Person {
    /// Unique agent id.
    pub id: u64,
    /// Logical time at which the agent becomes active.
    pub spawn_time: u64,
    /// Requested service duration.
    pub process_time: u64,
}

impl Default for Environment {
    /// A fresh, empty environment.
    fn default() -> (r: Environment)
        ensures
            r.wf(),
            r.event_list.entries_view().len() == 0,
            r.resources@.len() == 0,
            r.resource_queues.queues@.len() == 0,
            forall|a: u64| r.event_list.backlog_of(a) =~= Seq::<IdleEvent>::empty(),
    {
        Environment {
            event_list: EventCatalog::new(),
            resources: Vec::new(),
            resource_queues: QueueRegistry::new(),
        }
    }
}


/// No record of the sequence is an outcome record: the final `Finished` or
/// `RunawayStop` record appears only once, at the very end of a run's log.
pub open spec fn no_outcome_records(logs: Seq<LogRecord>) -> bool {
    forall|k: int|
        0 <= k < logs.len() ==> !((#[trigger] logs[k]) is Finished) && !(logs[k] is RunawayStop)
}

/// Appending a non-outcome record keeps the log free of outcome records.
proof fn lemma_no_outcome_push(logs: Seq<LogRecord>, r: LogRecord)
    requires
        no_outcome_records(logs),
        !(r is Finished),
        !(r is RunawayStop),
    ensures
        no_outcome_records(logs.push(r)),
{
    let l1 = logs.push(r);
    assert forall|k: int|
        0 <= k < l1.len() implies !((#[trigger] l1[k]) is Finished) && !(l1[k]
        is RunawayStop) by {
        if k < logs.len() {
            assert(l1[k] == logs[k]);
        } else {
            assert(l1[k] == r);
        }
    }
}


/// At every prefix of the log, and for every registered queue, no agent has
/// more slot assignments than queue entries: an agent is never admitted
/// without having queued first.
#[verifier::opaque]
pub open spec fn prefix_balanced(logs: Seq<LogRecord>, qs: QueueRegistry) -> bool {
    forall|i: int, a: u64, name: Seq<char>|
        0 <= i <= logs.len() && qs.has_queue(name) ==> #[trigger] crate::log::count_assigns(
            logs.take(i),
            a,
            name,
        ) <= crate::log::count_enters(logs.take(i), a, name)
}

/// An empty log is prefix-balanced.
proof fn lemma_prefix_balanced_empty(qs: QueueRegistry)
    ensures
        prefix_balanced(Seq::<LogRecord>::empty(), qs),
{
    reveal(prefix_balanced);
    assert forall|i: int, a: u64, name: Seq<char>|
        0 <= i <= Seq::<LogRecord>::empty().len() && qs.has_queue(
            name,
        ) implies #[trigger] crate::log::count_assigns(Seq::<LogRecord>::empty().take(i), a, name)
        <= crate::log::count_enters(Seq::<LogRecord>::empty().take(i), a, name) by {
        assert(Seq::<LogRecord>::empty().take(i) =~= Seq::<LogRecord>::empty());
    }
}

/// Appending a record keeps the log prefix-balanced, as long as the whole
/// extended log still balances against the queues (which the engine
/// re-establishes after every push) and the registered names are unchanged.
#[verifier::rlimit(100)]
proof fn lemma_prefix_balanced_push(
    logs: Seq<LogRecord>,
    r: LogRecord,
    qs0: QueueRegistry,
    qs1: QueueRegistry,
)
    requires
        prefix_balanced(logs, qs0),
        forall|name: Seq<char>| qs1.has_queue(name) == qs0.has_queue(name),
        queue_balance(logs.push(r), qs1),
    ensures
        prefix_balanced(logs.push(r), qs1),
{
    reveal(prefix_balanced);
    assert forall|i: int, a: u64, name: Seq<char>|
        0 <= i <= logs.push(r).len() && qs1.has_queue(
            name,
        ) implies #[trigger] crate::log::count_assigns(logs.push(r).take(i), a, name)
        <= crate::log::count_enters(logs.push(r).take(i), a, name) by {
        if i <= logs.len() {
            assert(logs.push(r).take(i) =~= logs.take(i));
            assert(crate::log::count_assigns(logs.take(i), a, name) <= crate::log::count_enters(
                logs.take(i),
                a,
                name,
            ));
        } else {
            assert(logs.push(r).take(i) =~= logs.push(r));
            assert(crate::log::count_enters(logs.push(r), a, name) == crate::log::count_assigns(
                logs.push(r),
                a,
                name,
            ) + crate::queues::waiting_count(qs1.queue_at(name), a));
        }
    }
}

/// The readable form of prefix balance: at any point of the run, an agent's
/// assignments from a registered queue never exceed its entries into it.
pub proof fn lemma_no_assignment_without_entry(
    logs: Seq<LogRecord>,
    qs: QueueRegistry,
    i: int,
    a: u64,
    name: Seq<char>,
)
    requires
        prefix_balanced(logs, qs),
        qs.has_queue(name),
        0 <= i <= logs.len(),
    ensures
        crate::log::count_assigns(logs.take(i), a, name) <= crate::log::count_enters(
            logs.take(i),
            a,
            name,
        ),
{
    reveal(prefix_balanced);
}



/// Every agent with work has its first idle event promoted somewhere in
/// `evs`.
pub open spec fn fronts_scheduled(c: EventCatalog, evs: Seq<ActiveEvent>) -> bool {
    forall|a: u64|
        (#[trigger] c.backlog_of(a)).len() > 0 ==> exists|j: int|
            0 <= j < evs.len() && promotes(evs[j], c.backlog_of(a)[0])
}

/// The record `rec` is the time-zero dispatch record of the idle event `ev`:
/// the right kind of record, for the event's agent, stamped time zero.
pub open spec fn started_record(rec: LogRecord, ev: IdleEvent) -> bool {
    match (rec, ev.event_type) {
        (LogRecord::ExecutesTimeout { time, agent }, EventType::Timeout) => time == 0 && agent
            == ev.id,
        (LogRecord::EndsTimeout { time, agent }, EventType::EndTimeout) => time == 0 && agent
            == ev.id,
        (LogRecord::EntersQueue { time, agent, queue }, EventType::EnterQueue) => time == 0
            && agent == ev.id && queue@ == ev.target@,
        (
            LogRecord::InterruptionUnsupported { time, agent },
            EventType::ResourceInterruption,
        ) => time == 0 && agent == ev.id,
        _ => false,
    }
}

/// Every agent that had work was started: the log holds the time-zero
/// dispatch record of each agent's first idle event.
#[verifier::opaque]
pub open spec fn all_agents_started(c: EventCatalog, logs: Seq<LogRecord>) -> bool {
    forall|a: u64|
        (#[trigger] c.backlog_of(a)).len() > 0 ==> exists|j: int|
            0 <= j < logs.len() && started_record(logs[j], c.backlog_of(a)[0])
}

/// A prefix of a prefix is a prefix.
proof fn lemma_prefix_trans(a: Seq<LogRecord>, b: Seq<LogRecord>, c: Seq<LogRecord>)
    requires
        a.is_prefix_of(b),
        b.is_prefix_of(c),
    ensures
        a.is_prefix_of(c),
{
    assert(a =~= c.subrange(0, a.len() as int));
}

/// Extending the log preserves which agents were started.
#[verifier::rlimit(100)]
proof fn lemma_started_extended(c: EventCatalog, logs0: Seq<LogRecord>, logs1: Seq<LogRecord>)
    requires
        all_agents_started(c, logs0),
        logs0.is_prefix_of(logs1),
    ensures
        all_agents_started(c, logs1),
{
    reveal(all_agents_started);
    assert forall|a: u64| (#[trigger] c.backlog_of(a)).len() > 0 implies exists|j: int|
        0 <= j < logs1.len() && started_record(logs1[j], c.backlog_of(a)[0]) by {
        let j = choose|j: int|
            0 <= j < logs0.len() && started_record(logs0[j], c.backlog_of(a)[0]);
        assert(logs1[j] == logs0[j]);
        assert(started_record(logs1[j], c.backlog_of(a)[0]));
    }
}

/// When the whole initial schedule was dispatched at time zero, every agent
/// with work has its first event's record in the log: each busy agent's
/// front is promoted somewhere in the schedule, and every dispatched event
/// left its record.
#[verifier::rlimit(100)]
proof fn lemma_started_established(
    c: EventCatalog,
    init_events: Seq<ActiveEvent>,
    logs: Seq<LogRecord>,
)
    requires
        fronts_scheduled(c, init_events),
        all_due_logged(init_events, init_events.len() as int, logs, 0),
    ensures
        all_agents_started(c, logs),
{
    reveal(all_agents_started);
    assert forall|a: u64| (#[trigger] c.backlog_of(a)).len() > 0 implies exists|jl: int|
        0 <= jl < logs.len() && started_record(logs[jl], c.backlog_of(a)[0]) by {
        let ev = c.backlog_of(a)[0];
        let j = choose|j: int| 0 <= j < init_events.len() && promotes(init_events[j], ev);
        let jl = choose|jl: int|
            0 <= jl < logs.len() && record_for_active(logs[jl], init_events[j]);
        assert(init_events[j].scheduled_time == 0);
        assert(started_record(logs[jl], ev));
    }
}

/// Log-extension invariant: records are in non-decreasing time order and
/// none is later than `sim_time`.
pub open spec fn logs_ok(logs: Seq<LogRecord>, sim_time: u128) -> bool {
    &&& crate::log::times_nondecreasing(logs)
    &&& forall|k: int| 0 <= k < logs.len() ==> (#[trigger] logs[k]).rec_time() <= sim_time
}

/// Appending a record stamped `sim_time` keeps the log ordered and bounded.
proof fn lemma_logs_push(logs: Seq<LogRecord>, r: LogRecord, sim_time: u128)
    requires
        logs_ok(logs, sim_time),
        r.rec_time() == sim_time,
    ensures
        logs_ok(logs.push(r), sim_time),
{
    let l1 = logs.push(r);
    assert forall|i: int, j: int| 0 <= i <= j < l1.len() implies l1[i].rec_time() <= l1[
        j
    ].rec_time() by {
        if j < logs.len() {
            assert(l1[i] == logs[i] && l1[j] == logs[j]);
        } else if i < logs.len() {
            assert(l1[i] == logs[i] && l1[j] == r);
        }
    }
}

/// Appending a record that neither enters nor assigns keeps the queue
/// balance, as long as the queues themselves are unchanged.
proof fn lemma_balance_push_neutral(logs: Seq<LogRecord>, r: LogRecord, qs: QueueRegistry)
    requires
        queue_balance(logs, qs),
        forall|a: u64, name: Seq<char>|
            !(#[trigger] r.is_enter(a, name)) && !(#[trigger] r.is_assign(a, name)),
    ensures
        queue_balance(logs.push(r), qs),
        forall|a: u64, name: Seq<char>|
            #[trigger] crate::log::count_assigns(logs.push(r), a, name)
                == crate::log::count_assigns(logs, a, name),
{
    assert forall|a: u64, name: Seq<char>| qs.has_queue(name) implies #[trigger] crate::log::count_enters(
        logs.push(r),
        a,
        name,
    ) == crate::log::count_assigns(logs.push(r), a, name) + crate::queues::waiting_count(
        qs.queue_at(name),
        a,
    ) by {
        crate::log::lemma_counts_push(logs, r, a, name);
    }
    assert forall|a: u64, name: Seq<char>|
        #[trigger] crate::log::count_assigns(logs.push(r), a, name) == crate::log::count_assigns(
        logs,
        a,
        name,
    ) by {
        crate::log::lemma_counts_push(logs, r, a, name);
    }
}

/// Logging a queue entry while pushing the same agent onto the same queue
/// keeps the balance.
proof fn lemma_balance_enter(
    logs: Seq<LogRecord>,
    qs0: QueueRegistry,
    qs1: QueueRegistry,
    agent: u64,
    dur: u64,
    qname: Seq<char>,
    r: LogRecord,
)
    requires
        queue_balance(logs, qs0),
        qs0.has_queue(qname),
        qs1.queue_at(qname) =~= qs0.queue_at(qname).push((agent, dur)),
        forall|other: Seq<char>| other != qname ==> qs1.queue_at(other) =~= qs0.queue_at(other),
        forall|other: Seq<char>| qs1.has_queue(other) == qs0.has_queue(other),
        forall|a: u64, name: Seq<char>|
            (#[trigger] r.is_enter(a, name)) <==> (a == agent && name == qname),
        forall|a: u64, name: Seq<char>| !(#[trigger] r.is_assign(a, name)),
    ensures
        queue_balance(logs.push(r), qs1),
        forall|a: u64, name: Seq<char>|
            #[trigger] crate::log::count_assigns(logs.push(r), a, name)
                == crate::log::count_assigns(logs, a, name),
{
    assert forall|a: u64, name: Seq<char>| qs1.has_queue(name) implies #[trigger] crate::log::count_enters(
        logs.push(r),
        a,
        name,
    ) == crate::log::count_assigns(logs.push(r), a, name) + crate::queues::waiting_count(
        qs1.queue_at(name),
        a,
    ) by {
        crate::log::lemma_counts_push(logs, r, a, name);
        if name == qname {
            crate::queues::lemma_waiting_count_push(qs0.queue_at(qname), (agent, dur), a);
        }
    }
    assert forall|a: u64, name: Seq<char>|
        #[trigger] crate::log::count_assigns(logs.push(r), a, name) == crate::log::count_assigns(
        logs,
        a,
        name,
    ) by {
        crate::log::lemma_counts_push(logs, r, a, name);
    }
}

/// Logging a slot assignment while removing the assigned agent from the
/// front of the same queue keeps the balance.
proof fn lemma_balance_assign(
    logs: Seq<LogRecord>,
    qs0: QueueRegistry,
    qs1: QueueRegistry,
    agent: u64,
    qname: Seq<char>,
    r: LogRecord,
)
    requires
        queue_balance(logs, qs0),
        qs0.has_queue(qname),
        qs0.queue_at(qname).len() > 0,
        qs0.queue_at(qname)[0].0 == agent,
        qs1.queue_at(qname) =~= qs0.queue_at(qname).skip(1),
        forall|other: Seq<char>| other != qname ==> qs1.queue_at(other) =~= qs0.queue_at(other),
        forall|other: Seq<char>| qs1.has_queue(other) == qs0.has_queue(other),
        forall|a: u64, name: Seq<char>|
            (#[trigger] r.is_assign(a, name)) <==> (a == agent && name == qname),
        forall|a: u64, name: Seq<char>| !(#[trigger] r.is_enter(a, name)),
    ensures
        queue_balance(logs.push(r), qs1),
        forall|a: u64, name: Seq<char>|
            !(a == agent && name == qname) ==> #[trigger] crate::log::count_assigns(
                logs.push(r),
                a,
                name,
            ) == crate::log::count_assigns(logs, a, name),
{
    assert forall|a: u64, name: Seq<char>| qs1.has_queue(name) implies #[trigger] crate::log::count_enters(
        logs.push(r),
        a,
        name,
    ) == crate::log::count_assigns(logs.push(r), a, name) + crate::queues::waiting_count(
        qs1.queue_at(name),
        a,
    ) by {
        crate::log::lemma_counts_push(logs, r, a, name);
        if name == qname {
            crate::queues::lemma_waiting_count_skip_front(qs0.queue_at(qname), a);
        }
    }
    assert forall|a: u64, name: Seq<char>|
        !(a == agent && name == qname) implies #[trigger] crate::log::count_assigns(
        logs.push(r),
        a,
        name,
    ) == crate::log::count_assigns(logs, a, name) by {
        crate::log::lemma_counts_push(logs, r, a, name);
    }
}

/// `targets_ok` does not depend on queue contents, only on which names are
/// registered.
proof fn lemma_targets_ok_queues_same(before: Environment, after: Environment)
    requires
        before.targets_ok(),
        after.event_list == before.event_list,
        forall|name: Seq<char>|
            after.resource_queues.has_queue(name) == before.resource_queues.has_queue(name),
    ensures
        after.targets_ok(),
{
    assert forall|i: int, k: int|
        0 <= i < after.event_list.entries_view().len() && 0 <= k
            < after.event_list.entries_view()[i].backlog@.len() implies ((
    #[trigger] after.event_list.entries_view()[i].backlog@[k]).event_type
        == EventType::EnterQueue ==> after.resource_queues.has_queue(
        after.event_list.entries_view()[i].backlog@[k].target@,
    )) by {
        assert(before.event_list.entries_view()[i].backlog@[k]
            == after.event_list.entries_view()[i].backlog@[k]);
    }
}

/// Every one of the first `upto` events of `due` has its dispatch record in
/// `logs` at or after position `base`.
pub open spec fn all_due_logged(
    due: Seq<ActiveEvent>,
    upto: int,
    logs: Seq<LogRecord>,
    base: int,
) -> bool {
    forall|k: int|
        0 <= k < upto ==> exists|j: int|
            base <= j < logs.len() && record_for_active(logs[j], #[trigger] due[k])
}

/// Every event of `evs` is the promoted front of some busy entry's backlog:
/// the scheduler holds nothing that was not taken from the catalog.
#[verifier::opaque]
pub open spec fn promoted_prefix(
    entries: Seq<crate::catalog::CatalogEntry>,
    evs: Seq<ActiveEvent>,
) -> bool {
    forall|j: int|
        0 <= j < evs.len() ==> exists|k: int|
            0 <= k < entries.len() && entries[k].backlog@.len() > 0 && promotes(
                #[trigger] evs[j],
                entries[k].backlog@[0],
            )
}

/// Nothing is promoted yet when nothing was scheduled.
proof fn lemma_promotion_empty(entries: Seq<crate::catalog::CatalogEntry>)
    ensures
        promoted_prefix(entries, Seq::<ActiveEvent>::empty()),
{
    reveal(promoted_prefix);
}

/// Inserting the promotion of entry `ipos`'s front keeps every scheduled
/// event a promoted front.
#[verifier::rlimit(100)]
proof fn lemma_promotion_tracking(
    entries: Seq<crate::catalog::CatalogEntry>,
    rb: Seq<ActiveEvent>,
    ra: Seq<ActiveEvent>,
    active: ActiveEvent,
    ipos: int,
    kpos: int,
)
    requires
        0 <= ipos < entries.len(),
        entries[ipos].backlog@.len() > 0,
        promotes(active, entries[ipos].backlog@[0]),
        0 <= kpos <= rb.len(),
        ra =~= rb.insert(kpos, active),
        promoted_prefix(entries, rb),
    ensures
        promoted_prefix(entries, ra),
{
    reveal(promoted_prefix);
    rb.insert_ensures(kpos, active);
    assert forall|j: int| 0 <= j < ra.len() implies exists|k: int|
        0 <= k < entries.len() && entries[k].backlog@.len() > 0 && promotes(
            #[trigger] ra[j],
            entries[k].backlog@[0],
        ) by {
        if j == kpos {
            assert(ra[j] == active);
            assert(promotes(ra[j], entries[ipos].backlog@[0]));
        } else {
            if j < kpos {
                assert(ra[j] == rb[j]);
            } else {
                assert(ra[j] == rb[j - 1]);
            }
            let j0: int = if j < kpos {
                j
            } else {
                j - 1
            };
            let k = choose|k: int|
                0 <= k < entries.len() && entries[k].backlog@.len() > 0 && promotes(
                    rb[j0],
                    entries[k].backlog@[0],
                );
            assert(promotes(ra[j], entries[k].backlog@[0]));
        }
    }
}

/// After inserting the promotion of entry `ipos`'s front, the first
/// `ipos + 1` busy entries each still have a promoted front scheduled.
#[verifier::rlimit(100)]
proof fn lemma_fronts_still_present(
    entries: Seq<crate::catalog::CatalogEntry>,
    rb: Seq<ActiveEvent>,
    ra: Seq<ActiveEvent>,
    active: ActiveEvent,
    ipos: int,
)
    requires
        0 <= ipos < entries.len(),
        entries[ipos].backlog@.len() > 0,
        promotes(active, entries[ipos].backlog@[0]),
        exists|k: int| 0 <= k <= rb.len() && ra =~= rb.insert(k, active),
        forall|k: int|
            0 <= k < ipos && (#[trigger] entries[k]).backlog@.len() > 0 ==> exists|j: int|
                0 <= j < rb.len() && promotes(rb[j], entries[k].backlog@[0]),
    ensures
        forall|k: int|
            0 <= k < ipos + 1 && (#[trigger] entries[k]).backlog@.len() > 0 ==> exists|j: int|
                0 <= j < ra.len() && promotes(ra[j], entries[k].backlog@[0]),
{
    lemma_insert_contains(rb, ra, active);
    assert forall|k: int|
        0 <= k < ipos + 1 && (#[trigger] entries[k]).backlog@.len() > 0 implies exists|j: int|
        0 <= j < ra.len() && promotes(ra[j], entries[k].backlog@[0]) by {
        if k < ipos {
            let j0 = choose|j0: int|
                0 <= j0 < rb.len() && promotes(rb[j0], entries[k].backlog@[0]);
            let j1 = choose|j1: int| 0 <= j1 < ra.len() && ra[j1] == rb[j0];
            assert(promotes(ra[j1], entries[k].backlog@[0]));
        } else {
            let j1 = choose|j1: int| 0 <= j1 < ra.len() && ra[j1] == active;
            assert(promotes(ra[j1], entries[k].backlog@[0]));
        }
    }
}

/// Translate promotion bookkeeping over entry positions into statements
/// over agents' backlogs.
#[verifier::rlimit(100)]
proof fn lemma_promotion_to_agents(c: EventCatalog, evs: Seq<ActiveEvent>)
    requires
        c.wf(),
        forall|k: int|
            0 <= k < c.entries_view().len() && (#[trigger] c.entries_view()[
                k
            ]).backlog@.len() > 0 ==> exists|j: int|
                0 <= j < evs.len() && promotes(evs[j], c.entries_view()[k].backlog@[0]),
    ensures
        forall|a: u64|
            (#[trigger] c.backlog_of(a)).len() > 0 ==> exists|j: int|
                0 <= j < evs.len() && promotes(evs[j], c.backlog_of(a)[0]),
{
    assert forall|a: u64| (#[trigger] c.backlog_of(a)).len() > 0 implies exists|j: int|
        0 <= j < evs.len() && promotes(evs[j], c.backlog_of(a)[0]) by {
        assert(c.has_agent(a));
        let k = c.entry_index(a);
        c.lemma_backlog_at_index(k);
        let j = choose|j: int|
            0 <= j < evs.len() && promotes(evs[j], c.entries_view()[k].backlog@[0]);
        assert(promotes(evs[j], c.backlog_of(a)[0]));
    }
}

/// `targets_ok` survives one agent's backlog losing its front event while
/// every other backlog and the registered queue names stay as they were.
proof fn lemma_targets_ok_after_take(before: Environment, after: Environment, agent: u64)
    requires
        before.wf(),
        after.wf(),
        before.targets_ok(),
        after.resource_queues == before.resource_queues,
        forall|a: u64|
            a != agent ==> after.event_list.backlog_of(a) =~= before.event_list.backlog_of(a),
        (before.event_list.backlog_of(agent).len() > 0 && after.event_list.backlog_of(agent)
            =~= before.event_list.backlog_of(agent).skip(1)) || after.event_list.backlog_of(
            agent,
        ) =~= Seq::<IdleEvent>::empty(),
    ensures
        after.targets_ok(),
{
    assert forall|i: int, k: int|
        0 <= i < after.event_list.entries_view().len() && 0 <= k
            < after.event_list.entries_view()[i].backlog@.len() implies ((
    #[trigger] after.event_list.entries_view()[i].backlog@[k]).event_type
        == EventType::EnterQueue ==> after.resource_queues.has_queue(
        after.event_list.entries_view()[i].backlog@[k].target@,
    )) by {
        let a = after.event_list.entries_view()[i].agent;
        after.event_list.lemma_backlog_at_index(i);
        if after.event_list.entries_view()[i].backlog@[k].event_type == EventType::EnterQueue {
            if a != agent {
                assert(after.event_list.backlog_of(a)[k] == before.event_list.backlog_of(a)[k]);
                before.lemma_targets_ok_backlog(a, k);
            } else {
                assert(after.event_list.backlog_of(a)[k] == before.event_list.backlog_of(a)[k
                    + 1]);
                before.lemma_targets_ok_backlog(a, k + 1);
            }
        }
    }
}

impl Environment {
    /// The structural invariant: unique agent entries, unique queue names,
    /// unique resource names.
    pub open spec fn wf(self) -> bool {
        &&& self.event_list.wf()
        &&& self.resource_queues.wf()
        &&& forall|i: int, j: int|
            0 <= i < j < self.resources@.len() ==> self.resources@[i].resource_name@ != self
                .resources@[j].resource_name@
    }

    /// Every resource's feeding queue was registered.
    pub open spec fn config_ok(self) -> bool {
        forall|i: int|
            0 <= i < self.resources@.len() ==> self.resource_queues.has_queue(
                (#[trigger] self.resources@[i]).queue_target@,
            )
    }

    /// The queue named `name` is registered but fed only by zero-capacity
    /// resources: nothing can ever be admitted from it.
    pub open spec fn zero_capacity_fed(self, name: Seq<char>) -> bool {
        &&& self.resource_queues.has_queue(name)
        &&& forall|i: int|
            0 <= i < self.resources@.len() && (#[trigger] self.resources@[i]).queue_target@
                == name ==> self.resources@[i].status@.len() == 0
    }

    /// Every queue-entering idle event in the catalog targets a registered
    /// queue.
    pub open spec fn targets_ok(self) -> bool {
        forall|i: int, k: int|
            0 <= i < self.event_list.entries_view().len() && 0 <= k < self.event_list.entries_view()[
                i
            ].backlog@.len() ==> ((#[trigger] self.event_list.entries_view()[i].backlog@[
                k
            ]).event_type == EventType::EnterQueue ==> self.resource_queues.has_queue(
                self.event_list.entries_view()[i].backlog@[k].target@,
            ))
    }

    /// A queue-entering event found in some agent's backlog targets a
    /// registered queue.
    pub proof fn lemma_targets_ok_backlog(self, agent: u64, k: int)
        requires
            self.wf(),
            self.targets_ok(),
            0 <= k < self.event_list.backlog_of(agent).len(),
            self.event_list.backlog_of(agent)[k].event_type == EventType::EnterQueue,
        ensures
            self.resource_queues.has_queue(self.event_list.backlog_of(agent)[k].target@),
    {
        assert(self.event_list.has_agent(agent));
        let i = self.event_list.entry_index(agent);
        assert(self.event_list.entries_view()[i].backlog@[k] == self.event_list.backlog_of(
            agent,
        )[k]);
    }

    /// Every slot of every resource is free.
    pub open spec fn all_slots_free_spec(self) -> bool {
        forall|i: int| 0 <= i < self.resources@.len() ==> (#[trigger] self.resources@[i]).all_free()
    }

    /// Every occupied slot's release time lies in `[lo, lo + slack]`.
    pub open spec fn slots_within(self, lo: u128, slack: u128) -> bool {
        forall|i: int|
            0 <= i < self.resources@.len() ==> (#[trigger] self.resources@[i]).availability_within(
                lo,
                slack,
            )
    }

    /// Two environments have resource pools of the same shape: same names,
    /// same feeding queues, same capacities, in the same order.
    pub open spec fn same_resource_shape(self, other: Environment) -> bool {
        &&& self.resources@.len() == other.resources@.len()
        &&& forall|i: int|
            0 <= i < self.resources@.len() ==> (#[trigger] self.resources@[i]).resource_name == other
                .resources@[i].resource_name && self.resources@[i].queue_target == other.resources@[
                i
            ].queue_target && self.resources@[i].status@.len() == other.resources@[i].status@.len()
    }

    /// Append a timeout event to `person`'s backlog: wait `process_time`
    /// units, then resume (construction time only).
    pub fn timeout(&mut self, person: &Person, process_time: u64)
        requires
            old(self).wf(),
        ensures
            final(self).wf(),
            final(self).resources == old(self).resources,
            final(self).resource_queues == old(self).resource_queues,
            forall|a: u64|
                a != person.id ==> final(self).event_list.backlog_of(a) =~= old(
                    self,
                ).event_list.backlog_of(a),
            final(self).event_list.backlog_of(person.id).len() == old(self).event_list.backlog_of(
                person.id,
            ).len() + 1,
            final(self).event_list.backlog_of(person.id).drop_last() =~= old(
                self,
            ).event_list.backlog_of(person.id),
            ({
                let ev = final(self).event_list.backlog_of(person.id).last();
                ev.id == person.id && ev.event_type == EventType::Timeout && ev.process_time
                    == process_time && ev.target@ =~= Seq::<char>::empty()
            }),
    {
        let ev = IdleEvent {
            id: person.id,
            event_type: EventType::Timeout,
            process_time,
            target: String::new(),
        };
        self.event_list.register(person.id, ev);
        proof {
            assert(self.event_list.backlog_of(person.id).drop_last() =~= old(
                self,
            ).event_list.backlog_of(person.id));
        }
    }

    /// Append a queue-entering event to `person`'s backlog: join the queue
    /// named `target`, requesting `process_time` units of service
    /// (construction time only).
    pub fn enter_queue(&mut self, person: &Person, process_time: u64, target: String)
        requires
            old(self).wf(),
        ensures
            final(self).wf(),
            final(self).resources == old(self).resources,
            final(self).resource_queues == old(self).resource_queues,
            forall|a: u64|
                a != person.id ==> final(self).event_list.backlog_of(a) =~= old(
                    self,
                ).event_list.backlog_of(a),
            final(self).event_list.backlog_of(person.id).len() == old(self).event_list.backlog_of(
                person.id,
            ).len() + 1,
            final(self).event_list.backlog_of(person.id).drop_last() =~= old(
                self,
            ).event_list.backlog_of(person.id),
            ({
                let ev = final(self).event_list.backlog_of(person.id).last();
                ev.id == person.id && ev.event_type == EventType::EnterQueue && ev.process_time
                    == process_time && ev.target == target
            }),
    {
        let ev = IdleEvent {
            id: person.id,
            event_type: EventType::EnterQueue,
            process_time,
            target,
        };
        self.event_list.register(person.id, ev);
        proof {
            assert(self.event_list.backlog_of(person.id).drop_last() =~= old(
                self,
            ).event_list.backlog_of(person.id));
        }
    }

    /// Register `resource` under its name.  A name already registered keeps
    /// its first registration; the late-comer is dropped.
    pub fn add_resource(&mut self, resource: Resource)
        requires
            old(self).wf(),
        ensures
            final(self).wf(),
            final(self).event_list == old(self).event_list,
            final(self).resource_queues == old(self).resource_queues,
            (exists|i: int|
                0 <= i < old(self).resources@.len() && (#[trigger] old(self).resources@[
                    i
                ]).resource_name@ == resource.resource_name@) ==> final(self).resources == old(
                self,
            ).resources,
            (forall|i: int|
                0 <= i < old(self).resources@.len() ==> (#[trigger] old(self).resources@[
                    i
                ]).resource_name@ != resource.resource_name@) ==> final(self).resources@ =~= old(
                self,
            ).resources@.push(resource),
    {
        let n: usize = self.resources.len();
        let mut i: usize = 0;
        while i < n
            invariant
                n == self.resources@.len(),
                i <= n,
                forall|k: int|
                    0 <= k < i ==> (#[trigger] self.resources@[k]).resource_name@ != resource
                        .resource_name@,
                self.wf(),
                *self == *old(self),
            decreases n - i,
        {
            if self.resources[i].resource_name.eq(&resource.resource_name) {
                return ;
            }
            i += 1;
        }
        self.resources.push(resource);
    }

    /// Register `queue` under its name.  A name already registered keeps its
    /// first registration; the late-comer is dropped.
    pub fn add_queue(&mut self, queue: SimulationQueue)
        requires
            old(self).wf(),
        ensures
            final(self).wf(),
            final(self).event_list == old(self).event_list,
            final(self).resources == old(self).resources,
            final(self).resource_queues.has_queue(queue.queue_name@),
            old(self).resource_queues.has_queue(queue.queue_name@) ==> final(self).resource_queues == old(self).resource_queues,
            !old(self).resource_queues.has_queue(queue.queue_name@) ==> final(self).resource_queues.queue_at(queue.queue_name@) =~= queue.queue@,
            forall|name: Seq<char>|
                name != queue.queue_name@ ==> final(self).resource_queues.has_queue(name) == old(
                    self,
                ).resource_queues.has_queue(name) && final(self).resource_queues.queue_at(name)
                    =~= old(self).resource_queues.queue_at(name),
    {
        self.resource_queues.add(queue);
    }

    /// The reserved extension point for resource pre-emption.  Pre-emption
    /// semantics are not implemented, so this performs nothing and leaves the
    /// environment untouched; a resource-interruption event that becomes due
    /// in a run is handled as a logged no-op by the engine's dispatch step.
    pub fn resource_interruption(
        &mut self,
        id: u64,
        spawn_time: u64,
        target: String,
        capacity_interrupted: u64,
        duration: u64,
    )
        ensures
            *final(self) == *old(self),
    {
    }
}

impl Person {
    /// Stage the agent's standard activity chain into the environment: wait
    /// `spawn_time` units, then request `process_time` units of service via
    /// the default queue, named `queue_1`.
    pub fn process(self, sim_env: &mut Environment)
        requires
            old(sim_env).wf(),
        ensures
            final(sim_env).wf(),
            final(sim_env).resources == old(sim_env).resources,
            final(sim_env).resource_queues == old(sim_env).resource_queues,
            forall|a: u64|
                a != self.id ==> final(sim_env).event_list.backlog_of(a) =~= old(
                    sim_env,
                ).event_list.backlog_of(a),
            final(sim_env).event_list.backlog_of(self.id).len() == old(
                sim_env,
            ).event_list.backlog_of(self.id).len() + 2,
            final(sim_env).event_list.backlog_of(self.id).drop_last().drop_last() =~= old(
                sim_env,
            ).event_list.backlog_of(self.id),
            ({
                let ev = final(sim_env).event_list.backlog_of(self.id).drop_last().last();
                ev.id == self.id && ev.event_type == EventType::Timeout && ev.process_time == self
                    .spawn_time
            }),
            ({
                let ev = final(sim_env).event_list.backlog_of(self.id).last();
                ev.id == self.id && ev.event_type == EventType::EnterQueue && ev.process_time
                    == self.process_time && ev.target@ == "queue_1"@
            }),
    {
        sim_env.timeout(&self, self.spawn_time);
        sim_env.enter_queue(&self, self.process_time, "queue_1".to_string());
        proof {
            assert(sim_env.event_list.backlog_of(self.id).drop_last().drop_last() =~= old(
                sim_env,
            ).event_list.backlog_of(self.id));
        }
    }
}

/// A scheduled interruption of a resource's capacity, identified by the
/// issuing agent's id.  Pre-emption is not implemented: staging one is a
/// no-op, and an interruption event encountered in a run is processed as a
/// logged no-op.
#[derive(Debug, Clone, Copy)]
pub struct ResourceInterruption {
    /// The issuing agent's id.
    pub id: u64,
}

impl ResourceInterruption {
    /// Forward this interruption to the environment's reserved pre-emption
    /// extension point, which performs nothing.
    pub fn add_interruption(
        &self,
        spawn_time: u64,
        target: String,
        capacity_interrupted: u64,
        duration: u64,
        sim_env: &mut Environment,
    )
        ensures
            *final(sim_env) == *old(sim_env),
    {
        sim_env.resource_interruption(self.id, spawn_time, target, capacity_interrupted, duration);
    }
}

/// The hard iteration ceiling: a safety valve against scenarios that never
/// drain.  Hitting it is an abnormal stop, logged as such.
pub const ITERATION_CEILING: u64 = 1000;

/// An upper bound on the simulation clock that the engine never exceeds:
/// the clock only advances to previously computed times, each at most one
/// 64-bit duration past the clock, and at most once per loop iteration, so
/// it stays far below this bound and clock arithmetic cannot overflow.
pub const MAX_SIM_TIME: u128 = 0x10000000000000000000000000;

/// The record `rec` is the dispatch record of the active event `ev`.
pub open spec fn record_for_active(rec: LogRecord, ev: ActiveEvent) -> bool {
    match (rec, ev.event_type) {
        (LogRecord::ExecutesTimeout { time, agent }, EventType::Timeout) => time == ev
            .scheduled_time && agent == ev.id,
        (LogRecord::EndsTimeout { time, agent }, EventType::EndTimeout) => time == ev
            .scheduled_time && agent == ev.id,
        (LogRecord::EntersQueue { time, agent, queue }, EventType::EnterQueue) => time == ev
            .scheduled_time && agent == ev.id && queue@ == ev.target@,
        (
            LogRecord::InterruptionUnsupported { time, agent },
            EventType::ResourceInterruption,
        ) => time == ev.scheduled_time && agent == ev.id,
        _ => false,
    }
}

/// The queue-accounting balance: for every agent and every registered queue,
/// the number of logged queue entries equals the number of logged slot
/// assignments plus the number of times the agent is still waiting in the
/// queue.  No agent is assigned a slot without having queued first.
pub open spec fn queue_balance(logs: Seq<LogRecord>, qs: QueueRegistry) -> bool {
    forall|a: u64, name: Seq<char>|
        qs.has_queue(name) ==> #[trigger] crate::log::count_enters(logs, a, name)
            == crate::log::count_assigns(logs, a, name) + crate::queues::waiting_count(
            qs.queue_at(name),
            a,
        )
}

/// A queue that still holds a waiting agent blocks a clean finish: an agent
/// that entered more often than it was assigned is still waiting, so the
/// queues have not drained and the run can only end as a runaway stop.
pub proof fn lemma_waiting_agent_blocks_finish(
    logs: Seq<LogRecord>,
    qs: QueueRegistry,
    a: u64,
    name: Seq<char>,
)
    requires
        queue_balance(logs, qs),
        qs.has_queue(name),
        crate::log::count_enters(logs, a, name) > crate::log::count_assigns(logs, a, name),
    ensures
        !qs.all_empty(),
{
    assert(crate::queues::waiting_count(qs.queue_at(name), a) > 0);
    if qs.queue_at(name).len() == 0 {
        assert(crate::queues::waiting_count(qs.queue_at(name), a) == 0);
    }
    let qi = qs.queue_index(name);
    assert(qs.queues@[qi].queue@.len() > 0);
}

/// Once every registered queue has drained, the balance says each agent
/// entered each queue exactly as often as it was assigned a slot from it.
pub proof fn lemma_enters_equal_assigns_at_finish(
    logs: Seq<LogRecord>,
    qs: QueueRegistry,
    a: u64,
    name: Seq<char>,
)
    requires
        queue_balance(logs, qs),
        qs.has_queue(name),
        qs.all_empty(),
    ensures
        crate::log::count_enters(logs, a, name) == crate::log::count_assigns(logs, a, name),
{
    assert(qs.queue_at(name).len() == 0);
    assert(crate::queues::waiting_count(qs.queue_at(name), a) == 0);
}

/// Inserting an element anywhere in a sequence preserves a predicate that
/// holds of every old element and of the inserted one.
proof fn lemma_insert_all(
    s0: Seq<ActiveEvent>,
    s1: Seq<ActiveEvent>,
    e: ActiveEvent,
    p: spec_fn(ActiveEvent) -> bool,
)
    requires
        exists|k: int| 0 <= k <= s0.len() && s1 =~= s0.insert(k, e),
        forall|i: int| 0 <= i < s0.len() ==> #[trigger] p(s0[i]),
        p(e),
    ensures
        forall|i: int| 0 <= i < s1.len() ==> #[trigger] p(s1[i]),
{
    let k = choose|k: int| 0 <= k <= s0.len() && s1 =~= s0.insert(k, e);
    s0.insert_ensures(k, e);
    assert forall|i: int| 0 <= i < s1.len() implies #[trigger] p(s1[i]) by {
        if i < k {
            assert(s1[i] == s0[i]);
        } else if i == k {
            assert(s1[i] == e);
        } else {
            assert(s1[i] == s0[i - 1]);
        }
    }
}

/// The active event `ae` is exactly the idle event `ie` promoted with due
/// time zero: every field carries over.
pub open spec fn promotes(ae: ActiveEvent, ie: IdleEvent) -> bool {
    &&& ae.id == ie.id
    &&& ae.event_type == ie.event_type
    &&& ae.process_time == ie.process_time
    &&& ae.target == ie.target
    &&& ae.scheduled_time == 0
}

/// Inserting an element keeps every old element present (at a possibly
/// shifted index), and the new element is present too.
proof fn lemma_insert_contains(s0: Seq<ActiveEvent>, s1: Seq<ActiveEvent>, e: ActiveEvent)
    requires
        exists|k: int| 0 <= k <= s0.len() && s1 =~= s0.insert(k, e),
    ensures
        forall|j0: int|
            0 <= j0 < s0.len() ==> exists|j1: int| 0 <= j1 < s1.len() && s1[j1] == #[trigger] s0[
                j0
            ],
        exists|j1: int| 0 <= j1 < s1.len() && s1[j1] == e,
{
    let k = choose|k: int| 0 <= k <= s0.len() && s1 =~= s0.insert(k, e);
    s0.insert_ensures(k, e);
    assert(s1[k] == e);
    assert forall|j0: int| 0 <= j0 < s0.len() implies exists|j1: int|
        0 <= j1 < s1.len() && s1[j1] == #[trigger] s0[j0] by {
        if j0 < k {
            assert(s1[j0] == s0[j0]);
        } else {
            assert(s1[j0 + 1] == s0[j0]);
        }
    }
}

impl Environment {
    /// Move the first idle event of every agent into a fresh scheduler, due
    /// at time zero; every backlog loses its head, and an agent left with no
    /// further work is deleted from the catalog.  Entries are visited in
    /// registration order, but the scheduler orders the promoted events by
    /// agent id, so registration order is not observable downstream.
    pub fn _organise_initial_events(&mut self) -> (r: Scheduler)
        requires
            old(self).wf(),
        ensures
            final(self).wf(),
            final(self).resources == old(self).resources,
            final(self).resource_queues == old(self).resource_queues,
            r.sorted(),
            forall|j: int| 0 <= j < r.events@.len() ==> (#[trigger] r.events@[j]).scheduled_time == 0,
            forall|a: u64|
                (#[trigger] old(self).event_list.backlog_of(a)).len() > 0 ==> final(self).event_list.backlog_of(a) =~= old(self).event_list.backlog_of(a).skip(1),
            forall|a: u64|
                (#[trigger] old(self).event_list.backlog_of(a)).len() == 0 ==> final(self).event_list.backlog_of(a) =~= Seq::<IdleEvent>::empty(),
            old(self).targets_ok() ==> final(self).targets_ok(),
            old(self).targets_ok() ==> forall|j: int|
                0 <= j < r.events@.len() ==> ((#[trigger] r.events@[j]).event_type
                    == EventType::EnterQueue ==> final(self).resource_queues.has_queue(
                    r.events@[j].target@,
                )),
            r.events@.len() == crate::catalog::count_busy(old(self).event_list.entries_view()),
            forall|a: u64|
                (#[trigger] old(self).event_list.backlog_of(a)).len() <= 1 ==> !final(self).event_list.has_agent(a),
            forall|a: u64|
                (#[trigger] old(self).event_list.backlog_of(a)).len() > 1 ==> final(self).event_list.has_agent(a),
            fronts_scheduled(old(self).event_list, r.events@),
            promoted_prefix(old(self).event_list.entries_view(), r.events@),
    {
        let mut r = Scheduler::new();
        proof {
            lemma_promotion_empty(self.event_list.entries_view());
            assert(r.events@ =~= Seq::<ActiveEvent>::empty());
        }
        let n: usize = self.event_list.entry_count();
        let mut agents: Vec<u64> = Vec::new();
        let mut i: usize = 0;
        while i < n
            invariant
                *self == *old(self),
                n == self.event_list.entries_view().len(),
                i <= n,
                agents@.len() == i,
                forall|k: int|
                    0 <= k < i ==> agents@[k] == old(self).event_list.entries_view()[k].agent,
            decreases n - i,
        {
            let a = self.event_list.agent_at(i);
            agents.push(a);
            i += 1;
        }
        i = 0;
        while i < n
            invariant
                old(self).wf(),
                self.wf(),
                n == old(self).event_list.entries_view().len(),
                i <= n,
                agents@.len() == n,
                forall|k: int|
                    0 <= k < n ==> agents@[k] == old(self).event_list.entries_view()[k].agent,
                self.resources == old(self).resources,
                self.resource_queues == old(self).resource_queues,
                forall|k: int|
                    0 <= k < i && (#[trigger] old(self).event_list.entries_view()[
                        k
                    ]).backlog@.len() <= 1 ==> !self.event_list.has_agent(
                        old(self).event_list.entries_view()[k].agent,
                    ),
                forall|k: int|
                    0 <= k < i && (#[trigger] old(self).event_list.entries_view()[
                        k
                    ]).backlog@.len() > 1 ==> self.event_list.has_agent(
                        old(self).event_list.entries_view()[k].agent,
                    ),
                forall|a: u64|
                    !old(self).event_list.has_agent(a) ==> !(#[trigger] self.event_list.has_agent(
                        a,
                    )),
                forall|k: int|
                    i <= k < n ==> self.event_list.backlog_of(
                        (#[trigger] old(self).event_list.entries_view()[k]).agent,
                    ) =~= old(self).event_list.entries_view()[k].backlog@,
                forall|k: int|
                    0 <= k < i && (#[trigger] old(self).event_list.entries_view()[
                        k
                    ]).backlog@.len() > 0 ==> self.event_list.backlog_of(
                        old(self).event_list.entries_view()[k].agent,
                    ) =~= old(self).event_list.entries_view()[k].backlog@.skip(1),
                forall|k: int|
                    0 <= k < i && (#[trigger] old(self).event_list.entries_view()[
                        k
                    ]).backlog@.len() == 0 ==> self.event_list.backlog_of(
                        old(self).event_list.entries_view()[k].agent,
                    ) =~= Seq::<IdleEvent>::empty(),
                r.sorted(),
                forall|j: int|
                    0 <= j < r.events@.len() ==> (#[trigger] r.events@[j]).scheduled_time == 0,
                old(self).targets_ok() ==> self.targets_ok(),
                old(self).targets_ok() ==> forall|j: int|
                    0 <= j < r.events@.len() ==> ((#[trigger] r.events@[j]).event_type
                        == EventType::EnterQueue ==> self.resource_queues.has_queue(
                        r.events@[j].target@,
                    )),
                r.events@.len() == crate::catalog::count_busy(
                    old(self).event_list.entries_view().take(i as int),
                ),
                promoted_prefix(old(self).event_list.entries_view(), r.events@),
                forall|k: int|
                    0 <= k < i && (#[trigger] old(self).event_list.entries_view()[
                        k
                    ]).backlog@.len() > 0 ==> exists|j: int|
                        0 <= j < r.events@.len() && promotes(
                            r.events@[j],
                            old(self).event_list.entries_view()[k].backlog@[0],
                        ),
            decreases n - i,
        {
            let ghost pre = *self;
            let agent = agents[i];
            proof {
                old(self).event_list.lemma_backlog_at_index(i as int);
                assert(pre.event_list.backlog_of(agent) =~= old(
                    self,
                ).event_list.entries_view()[i as int].backlog@);
            }
            let taken = self.event_list.take_next(agent);
            match taken {
                Option::Some(idle_event) => {
                    let active = ActiveEvent::from_idle_event(idle_event, 0);
                    let ghost rbefore = r;
                    r.push(active);
                    proof {
                        lemma_insert_all(
                            rbefore.events@,
                            r.events@,
                            active,
                            |e: ActiveEvent| e.scheduled_time == 0,
                        );
                        if old(self).targets_ok() {
                            if active.event_type == EventType::EnterQueue {
                                pre.lemma_targets_ok_backlog(agent, 0);
                            }
                            lemma_insert_all(
                                rbefore.events@,
                                r.events@,
                                active,
                                |e: ActiveEvent|
                                    e.event_type == EventType::EnterQueue
                                        ==> pre.resource_queues.has_queue(e.target@),
                            );
                        }
                        assert(promotes(
                            active,
                            old(self).event_list.entries_view()[i as int].backlog@[0],
                        ));
                        let kpos = choose|kpos: int|
                            0 <= kpos <= rbefore.events@.len() && r.events@ =~= rbefore
                                .events@.insert(kpos, active);
                        lemma_promotion_tracking(
                            old(self).event_list.entries_view(),
                            rbefore.events@,
                            r.events@,
                            active,
                            i as int,
                            kpos,
                        );
                        lemma_fronts_still_present(
                            old(self).event_list.entries_view(),
                            rbefore.events@,
                            r.events@,
                            active,
                            i as int,
                        );
                    }
                },
                Option::None => {
                },
            }
            proof {
                assert forall|k: int|
                    i + 1 <= k < n implies self.event_list.backlog_of(
                    (#[trigger] old(self).event_list.entries_view()[k]).agent,
                ) =~= old(self).event_list.entries_view()[k].backlog@ by {
                    let a = old(self).event_list.entries_view()[k].agent;
                    assert(a != agent) by {
                        assert(old(self).event_list.entries_view()[k].agent != old(
                            self,
                        ).event_list.entries_view()[i as int].agent);
                    }
                    assert(pre.event_list.backlog_of(a) =~= old(
                        self,
                    ).event_list.entries_view()[k].backlog@);
                }
                assert forall|k: int|
                    0 <= k < i implies self.event_list.backlog_of(
                    (#[trigger] old(self).event_list.entries_view()[k]).agent,
                ) == pre.event_list.backlog_of(old(self).event_list.entries_view()[k].agent) by {
                    let a = old(self).event_list.entries_view()[k].agent;
                    assert(a != agent) by {
                        assert(old(self).event_list.entries_view()[k].agent != old(
                            self,
                        ).event_list.entries_view()[i as int].agent);
                    }
                }
                assert forall|k: int|
                    0 <= k < i + 1 && (#[trigger] old(self).event_list.entries_view()[
                        k
                    ]).backlog@.len() <= 1 implies !self.event_list.has_agent(
                    old(self).event_list.entries_view()[k].agent,
                ) by {
                    let a = old(self).event_list.entries_view()[k].agent;
                    if k < i {
                        assert(a != agent) by {
                            assert(old(self).event_list.entries_view()[k].agent != old(
                                self,
                            ).event_list.entries_view()[i as int].agent);
                        }
                        assert(self.event_list.has_agent(a) == pre.event_list.has_agent(a));
                    } else {
                        assert(pre.event_list.backlog_of(agent).len() <= 1);
                    }
                }
                assert forall|k: int|
                    0 <= k < i + 1 && (#[trigger] old(self).event_list.entries_view()[
                        k
                    ]).backlog@.len() > 1 implies self.event_list.has_agent(
                    old(self).event_list.entries_view()[k].agent,
                ) by {
                    let a = old(self).event_list.entries_view()[k].agent;
                    if k < i {
                        assert(a != agent) by {
                            assert(old(self).event_list.entries_view()[k].agent != old(
                                self,
                            ).event_list.entries_view()[i as int].agent);
                        }
                        assert(self.event_list.has_agent(a) == pre.event_list.has_agent(a));
                    } else {
                        assert(pre.event_list.backlog_of(agent).len() > 1);
                    }
                }
                if old(self).targets_ok() {
                    lemma_targets_ok_after_take(pre, *self, agent);
                }
                crate::catalog::lemma_count_busy_step(
                    old(self).event_list.entries_view(),
                    i as int,
                );
            }
            i += 1;
        }
        proof {
            crate::catalog::lemma_count_busy_all(old(self).event_list.entries_view());
            lemma_promotion_to_agents(old(self).event_list, r.events@);
            assert forall|a: u64|
                (#[trigger] old(self).event_list.backlog_of(a)).len() > 0 implies self
                .event_list.backlog_of(a) =~= old(self).event_list.backlog_of(a).skip(1) by {
                assert(old(self).event_list.has_agent(a));
                let k = old(self).event_list.entry_index(a);
                old(self).event_list.lemma_backlog_at_index(k);
            }
            assert forall|a: u64|
                (#[trigger] old(self).event_list.backlog_of(a)).len() == 0 implies self
                .event_list.backlog_of(a) =~= Seq::<IdleEvent>::empty() by {
                if old(self).event_list.has_agent(a) {
                    let k = old(self).event_list.entry_index(a);
                    old(self).event_list.lemma_backlog_at_index(k);
                }
            }
            assert forall|a: u64|
                (#[trigger] old(self).event_list.backlog_of(a)).len() <= 1 implies !self
                .event_list.has_agent(a) by {
                if old(self).event_list.has_agent(a) {
                    let k = old(self).event_list.entry_index(a);
                    old(self).event_list.lemma_backlog_at_index(k);
                }
            }
            assert forall|a: u64|
                (#[trigger] old(self).event_list.backlog_of(a)).len() > 1 implies self
                .event_list.has_agent(a) by {
                assert(old(self).event_list.has_agent(a));
                let k = old(self).event_list.entry_index(a);
                old(self).event_list.lemma_backlog_at_index(k);
            }
        }
        r
    }

    /// Whether every slot of every resource is free.
    pub fn all_slots_free(&self) -> (r: bool)
        ensures
            r == self.all_slots_free_spec(),
    {
        let n: usize = self.resources.len();
        let mut i: usize = 0;
        while i < n
            invariant
                n == self.resources@.len(),
                i <= n,
                forall|k: int| 0 <= k < i ==> (#[trigger] self.resources@[k]).all_free(),
            decreases n - i,
        {
            let m: usize = self.resources[i].status.len();
            let mut j: usize = 0;
            while j < m
                invariant
                    n == self.resources@.len(),
                    i < n,
                    m == self.resources@[i as int].status@.len(),
                    j <= m,
                    forall|k: int|
                        0 <= k < j ==> !(#[trigger] self.resources@[i as int].status@[
                            k
                        ]).is_occupied(),
                decreases m - j,
            {
                if self.resources[i].status[j].is_occupied_exec() {
                    return false;
                }
                j += 1;
            }
            i += 1;
        }
        true
    }

    /// The smallest release time among all occupied slots, or `None` if no
    /// slot anywhere is occupied.
    pub fn min_occupied_available(&self) -> (r: Option<u128>)
        ensures
            r is None ==> forall|i: int, j: int|
                0 <= i < self.resources@.len() && 0 <= j < self.resources@[i].status@.len() ==> !(
                #[trigger] self.resources@[i].status@[j]).is_occupied(),
            r is Some ==> exists|i: int, j: int|
                0 <= i < self.resources@.len() && 0 <= j < self.resources@[i].status@.len() && (
                #[trigger] self.resources@[i].status@[j]).is_occupied() && self.resources@[
                    i
                ].status@[j].available_at() == r->Some_0,
            r is Some ==> forall|i: int, j: int|
                0 <= i < self.resources@.len() && 0 <= j < self.resources@[i].status@.len() && (
                #[trigger] self.resources@[i].status@[j]).is_occupied() ==> r->Some_0 <= self
                    .resources@[i].status@[j].available_at(),
    {
        let mut best: Option<u128> = None;
        let n: usize = self.resources.len();
        let mut i: usize = 0;
        while i < n
            invariant
                n == self.resources@.len(),
                i <= n,
                best is None ==> forall|p: int, q: int|
                    0 <= p < i && 0 <= q < self.resources@[p].status@.len() ==> !(
                    #[trigger] self.resources@[p].status@[q]).is_occupied(),
                best is Some ==> exists|p: int, q: int|
                    0 <= p < i && 0 <= q < self.resources@[p].status@.len() && (
                    #[trigger] self.resources@[p].status@[q]).is_occupied() && self.resources@[
                        p
                    ].status@[q].available_at() == best->Some_0,
                best is Some ==> forall|p: int, q: int|
                    0 <= p < i && 0 <= q < self.resources@[p].status@.len() && (
                    #[trigger] self.resources@[p].status@[q]).is_occupied() ==> best->Some_0
                        <= self.resources@[p].status@[q].available_at(),
            decreases n - i,
        {
            let m: usize = self.resources[i].status.len();
            let mut j: usize = 0;
            while j < m
                invariant
                    n == self.resources@.len(),
                    i < n,
                    m == self.resources@[i as int].status@.len(),
                    j <= m,
                    best is None ==> (forall|p: int, q: int|
                        0 <= p < i && 0 <= q < self.resources@[p].status@.len() ==> !(
                        #[trigger] self.resources@[p].status@[q]).is_occupied()) && (forall|
                        q: int,
                    |
                        0 <= q < j ==> !(#[trigger] self.resources@[i as int].status@[
                            q
                        ]).is_occupied()),
                    best is Some ==> exists|p: int, q: int|
                        0 <= p < n && 0 <= q < self.resources@[p].status@.len() && (p < i || (p
                            == i && q < j)) && (#[trigger] self.resources@[p].status@[
                            q
                        ]).is_occupied() && self.resources@[p].status@[q].available_at()
                            == best->Some_0,
                    best is Some ==> (forall|p: int, q: int|
                        0 <= p < i && 0 <= q < self.resources@[p].status@.len() && (
                        #[trigger] self.resources@[p].status@[q]).is_occupied() ==> best->Some_0
                            <= self.resources@[p].status@[q].available_at()) && (forall|q: int|
                        0 <= q < j && (#[trigger] self.resources@[i as int].status@[
                            q
                        ]).is_occupied() ==> best->Some_0 <= self.resources@[i as int].status@[
                            q
                        ].available_at()),
                decreases m - j,
            {
                let slot = self.resources[i].status[j];
                match slot {
                    crate::resource::ResourceStatus::Occupied { available, .. } => {
                        best = match best {
                            Option::Some(b) => if available < b {
                                Some(available)
                            } else {
                                Some(b)
                            },
                            Option::None => Some(available),
                        };
                    },
                    crate::resource::ResourceStatus::Free => {
                    },
                }
                j += 1;
            }
            i += 1;
        }
        best
    }
}

impl Environment {
    /// Staged-event invariant: every staged or scheduled event is due within
    /// one 64-bit duration of the clock, and a queue-entering event targets
    /// a registered queue.
    pub open spec fn staged_ok(self, events: Seq<ActiveEvent>, sim_time: u128) -> bool {
        forall|k: int|
            0 <= k < events.len() ==> sim_time <= (#[trigger] events[k]).scheduled_time
                && events[k].scheduled_time <= sim_time + (u64::MAX as u128) && (events[
                k
            ].event_type == EventType::EnterQueue ==> self.resource_queues.has_queue(
                events[k].target@,
            ))
    }

    /// Dispatch every event due at `sim_time`, in the given order: a timeout
    /// stages its end; an ended timeout pulls the agent's next idle event; a
    /// queue entry joins the wait queue at once; an interruption is a logged
    /// no-op.  Every dispatched event leaves its record in the log.
    fn dispatch_due_events(
        &mut self,
        due: &Vec<ActiveEvent>,
        sim_time: u128,
        staged: &mut Vec<ActiveEvent>,
        sim_logs: &mut Vec<LogRecord>,
    )
        requires
            old(self).wf(),
            old(self).targets_ok(),
            sim_time <= MAX_SIM_TIME,
            forall|k: int| 0 <= k < due@.len() ==> (#[trigger] due@[k]).scheduled_time == sim_time,
            forall|k: int|
                0 <= k < due@.len() ==> ((#[trigger] due@[k]).event_type == EventType::EnterQueue
                    ==> old(self).resource_queues.has_queue(due@[k].target@)),
            old(self).staged_ok(old(staged)@, sim_time),
            logs_ok(old(sim_logs)@, sim_time),
            queue_balance(old(sim_logs)@, old(self).resource_queues),
            prefix_balanced(old(sim_logs)@, old(self).resource_queues),
        ensures
            final(self).wf(),
            final(self).targets_ok(),
            final(self).resources == old(self).resources,
            forall|name: Seq<char>|
                final(self).resource_queues.has_queue(name) == old(self).resource_queues.has_queue(
                    name,
                ),
            forall|a: u64|
                (#[trigger] final(self).event_list.backlog_of(a)).len() <= old(
                    self,
                ).event_list.backlog_of(a).len(),
            final(self).staged_ok(final(staged)@, sim_time),
            old(staged)@.is_prefix_of(final(staged)@),
            old(sim_logs)@.is_prefix_of(final(sim_logs)@),
            logs_ok(final(sim_logs)@, sim_time),
            no_outcome_records(old(sim_logs)@) ==> no_outcome_records(final(sim_logs)@),
            queue_balance(final(sim_logs)@, final(self).resource_queues),
            prefix_balanced(final(sim_logs)@, final(self).resource_queues),
            forall|a: u64, name: Seq<char>|
                #[trigger] crate::log::count_assigns(final(sim_logs)@, a, name)
                    == crate::log::count_assigns(old(sim_logs)@, a, name),
            all_due_logged(due@, due@.len() as int, final(sim_logs)@, old(sim_logs)@.len() as int),
            final(sim_logs)@.len() >= old(sim_logs)@.len() + due@.len(),
    {
        let n: usize = due.len();
        let mut idx: usize = 0;
        while idx < n
            invariant
                n == due@.len(),
                idx <= n,
                sim_time <= MAX_SIM_TIME,
                self.wf(),
                self.targets_ok(),
                self.resources == old(self).resources,
                forall|k: int|
                    0 <= k < due@.len() ==> (#[trigger] due@[k]).scheduled_time == sim_time,
                forall|k: int|
                    0 <= k < due@.len() ==> ((#[trigger] due@[k]).event_type
                        == EventType::EnterQueue ==> old(self).resource_queues.has_queue(
                        due@[k].target@,
                    )),
                forall|name: Seq<char>|
                    self.resource_queues.has_queue(name) == old(self).resource_queues.has_queue(
                        name,
                    ),
                forall|a: u64|
                    (#[trigger] self.event_list.backlog_of(a)).len() <= old(
                        self,
                    ).event_list.backlog_of(a).len(),
                self.staged_ok(staged@, sim_time),
                old(staged)@.is_prefix_of(staged@),
                old(sim_logs)@.is_prefix_of(sim_logs@),
                logs_ok(sim_logs@, sim_time),
                no_outcome_records(old(sim_logs)@) ==> no_outcome_records(sim_logs@),
                queue_balance(sim_logs@, self.resource_queues),
                prefix_balanced(sim_logs@, self.resource_queues),
                forall|a: u64, name: Seq<char>|
                    #[trigger] crate::log::count_assigns(sim_logs@, a, name)
                        == crate::log::count_assigns(old(sim_logs)@, a, name),
                all_due_logged(due@, idx as int, sim_logs@, old(sim_logs)@.len() as int),
                sim_logs@.len() >= old(sim_logs)@.len() + idx,
            decreases n - idx,
        {
            let ghost logs_pre = sim_logs@;
            let ev_id = due[idx].id;
            let ev_duration: u64 = due[idx].process_time;
            match due[idx].event_type {
                EventType::Timeout => {
                    let rec = LogRecord::ExecutesTimeout { time: sim_time, agent: ev_id };
                    proof {
                        lemma_logs_push(logs_pre, rec, sim_time);
                        if no_outcome_records(logs_pre) {
                            lemma_no_outcome_push(logs_pre, rec);
                        }
                        lemma_balance_push_neutral(logs_pre, rec, self.resource_queues);
                        lemma_prefix_balanced_push(
                            logs_pre,
                            rec,
                            self.resource_queues,
                            self.resource_queues,
                        );
                    }
                    sim_logs.push(rec);
                    let end_ev = ActiveEvent {
                        id: ev_id,
                        event_type: EventType::EndTimeout,
                        process_time: 0,
                        target: due[idx].target.clone(),
                        scheduled_time: sim_time + (ev_duration as u128),
                    };
                    staged.push(end_ev);
                    proof {
                        assert(record_for_active(sim_logs@[logs_pre.len() as int], due@[idx as int]));
                    }
                },
                EventType::EndTimeout => {
                    let rec = LogRecord::EndsTimeout { time: sim_time, agent: ev_id };
                    proof {
                        lemma_logs_push(logs_pre, rec, sim_time);
                        if no_outcome_records(logs_pre) {
                            lemma_no_outcome_push(logs_pre, rec);
                        }
                        lemma_balance_push_neutral(logs_pre, rec, self.resource_queues);
                        lemma_prefix_balanced_push(
                            logs_pre,
                            rec,
                            self.resource_queues,
                            self.resource_queues,
                        );
                    }
                    sim_logs.push(rec);
                    let ghost self_pre = *self;
                    let taken = self.event_list.take_next(ev_id);
                    proof {
                        lemma_targets_ok_after_take(self_pre, *self, ev_id);
                        assert forall|a: u64|
                            (#[trigger] self.event_list.backlog_of(a)).len() <= old(
                            self,
                        ).event_list.backlog_of(a).len() by {
                            if a != ev_id {
                                assert(self.event_list.backlog_of(a) =~= self_pre
                                    .event_list.backlog_of(a));
                            }
                        }
                    }
                    match taken {
                        Option::Some(idle_event) => {
                            proof {
                                if idle_event.event_type == EventType::EnterQueue {
                                    self_pre.lemma_targets_ok_backlog(ev_id, 0);
                                }
                            }
                            let next_active = ActiveEvent::from_idle_event(idle_event, sim_time);
                            staged.push(next_active);
                        },
                        Option::None => {
                        },
                    }
                    proof {
                        assert(record_for_active(sim_logs@[logs_pre.len() as int], due@[idx as int]));
                    }
                },
                EventType::EnterQueue => {
                    let rec = LogRecord::EntersQueue {
                        time: sim_time,
                        agent: ev_id,
                        queue: due[idx].target.clone(),
                    };
                    let ghost qs0 = self.resource_queues;
                    let ghost self_pre = *self;
                    let ok = self.resource_queues.enqueue(&due[idx].target, ev_id, ev_duration);
                    proof {
                        assert(ok);
                        lemma_logs_push(logs_pre, rec, sim_time);
                        if no_outcome_records(logs_pre) {
                            lemma_no_outcome_push(logs_pre, rec);
                        }
                        lemma_balance_enter(
                            logs_pre,
                            qs0,
                            self.resource_queues,
                            ev_id,
                            ev_duration,
                            due@[idx as int].target@,
                            rec,
                        );
                        lemma_targets_ok_queues_same(self_pre, *self);
                        lemma_prefix_balanced_push(logs_pre, rec, qs0, self.resource_queues);
                    }
                    sim_logs.push(rec);
                    proof {
                        assert(record_for_active(sim_logs@[logs_pre.len() as int], due@[idx as int]));
                    }
                },
                EventType::ResourceInterruption => {
                    let rec = LogRecord::InterruptionUnsupported { time: sim_time, agent: ev_id };
                    proof {
                        lemma_logs_push(logs_pre, rec, sim_time);
                        if no_outcome_records(logs_pre) {
                            lemma_no_outcome_push(logs_pre, rec);
                        }
                        lemma_balance_push_neutral(logs_pre, rec, self.resource_queues);
                        lemma_prefix_balanced_push(
                            logs_pre,
                            rec,
                            self.resource_queues,
                            self.resource_queues,
                        );
                    }
                    sim_logs.push(rec);
                    proof {
                        assert(record_for_active(sim_logs@[logs_pre.len() as int], due@[idx as int]));
                    }
                },
            }
            proof {
                assert forall|k: int| 0 <= k < idx + 1 implies exists|j: int|
                    old(sim_logs)@.len() <= j < sim_logs@.len() && record_for_active(
                        sim_logs@[j],
                        #[trigger] due@[k],
                    ) by {
                    if k < idx {
                        let j0 = choose|j0: int|
                            old(sim_logs)@.len() <= j0 < logs_pre.len() && record_for_active(
                                logs_pre[j0],
                                due@[k],
                            );
                        assert(sim_logs@[j0] == logs_pre[j0]);
                        assert(record_for_active(sim_logs@[j0], due@[k]));
                    } else {
                        assert(record_for_active(sim_logs@[logs_pre.len() as int], due@[k]));
                    }
                }
                assert(all_due_logged(due@, idx + 1, sim_logs@, old(sim_logs)@.len() as int));
            }
            idx += 1;
        }
        proof {
            assert(all_due_logged(due@, due@.len() as int, sim_logs@, old(sim_logs)@.len() as int));
        }
    }
}

impl Environment {
    /// The release phase of one tick: every occupied slot whose release time
    /// is `sim_time` frees its occupant; if the freed agent has remaining
    /// idle events the next one is staged, due immediately.  Slots are
    /// scanned in resource order, then slot order: a fixed, documented order
    /// so results are reproducible.
    fn release_resources(
        &mut self,
        sim_time: u128,
        staged: &mut Vec<ActiveEvent>,
        sim_logs: &mut Vec<LogRecord>,
    )
        requires
            old(self).wf(),
            old(self).targets_ok(),
            sim_time <= MAX_SIM_TIME,
            old(self).staged_ok(old(staged)@, sim_time),
            logs_ok(old(sim_logs)@, sim_time),
            queue_balance(old(sim_logs)@, old(self).resource_queues),
            prefix_balanced(old(sim_logs)@, old(self).resource_queues),
        ensures
            final(self).wf(),
            final(self).targets_ok(),
            final(self).resource_queues == old(self).resource_queues,
            final(self).same_resource_shape(*old(self)),
            forall|a: u64|
                (#[trigger] final(self).event_list.backlog_of(a)).len() <= old(
                    self,
                ).event_list.backlog_of(a).len(),
            final(self).staged_ok(final(staged)@, sim_time),
            old(staged)@.is_prefix_of(final(staged)@),
            old(sim_logs)@.is_prefix_of(final(sim_logs)@),
            logs_ok(final(sim_logs)@, sim_time),
            no_outcome_records(old(sim_logs)@) ==> no_outcome_records(final(sim_logs)@),
            queue_balance(final(sim_logs)@, final(self).resource_queues),
            prefix_balanced(final(sim_logs)@, final(self).resource_queues),
            forall|a: u64, name: Seq<char>|
                #[trigger] crate::log::count_assigns(final(sim_logs)@, a, name)
                    == crate::log::count_assigns(old(sim_logs)@, a, name),
            forall|i: int, j: int|
                0 <= i < final(self).resources@.len() && 0 <= j < final(self).resources@[
                    i
                ].status@.len() ==> (#[trigger] final(self).resources@[i].status@[j]) == old(
                    self,
                ).resources@[i].status@[j] || (old(self).resources@[i].status@[j].is_occupied()
                    && old(self).resources@[i].status@[j].available_at() == sim_time && final(self).resources@[i].status@[j] == ResourceStatus::Free),
    {
        let n: usize = self.resources.len();
        let mut ri: usize = 0;
        while ri < n
            invariant
                n == self.resources@.len(),
                ri <= n,
                sim_time <= MAX_SIM_TIME,
                self.wf(),
                self.targets_ok(),
                self.resource_queues == old(self).resource_queues,
                self.same_resource_shape(*old(self)),
                forall|a: u64|
                    (#[trigger] self.event_list.backlog_of(a)).len() <= old(
                        self,
                    ).event_list.backlog_of(a).len(),
                self.staged_ok(staged@, sim_time),
                old(staged)@.is_prefix_of(staged@),
                old(sim_logs)@.is_prefix_of(sim_logs@),
                logs_ok(sim_logs@, sim_time),
                no_outcome_records(old(sim_logs)@) ==> no_outcome_records(sim_logs@),
                queue_balance(sim_logs@, self.resource_queues),
                prefix_balanced(sim_logs@, self.resource_queues),
                forall|a: u64, name: Seq<char>|
                    #[trigger] crate::log::count_assigns(sim_logs@, a, name)
                        == crate::log::count_assigns(old(sim_logs)@, a, name),
                forall|i: int, j: int|
                    0 <= i < self.resources@.len() && 0 <= j < self.resources@[i].status@.len()
                        ==> (#[trigger] self.resources@[i].status@[j]) == old(self).resources@[
                        i
                    ].status@[j] || (old(self).resources@[i].status@[j].is_occupied() && old(
                        self,
                    ).resources@[i].status@[j].available_at() == sim_time && self.resources@[
                        i
                    ].status@[j] == ResourceStatus::Free),
            decreases n - ri,
        {
            let m: usize = self.resources[ri].status.len();
            let mut si: usize = 0;
            while si < m
                invariant
                    n == self.resources@.len(),
                    ri < n,
                    m == self.resources@[ri as int].status@.len(),
                    si <= m,
                    sim_time <= MAX_SIM_TIME,
                    self.wf(),
                    self.targets_ok(),
                    self.resource_queues == old(self).resource_queues,
                    self.same_resource_shape(*old(self)),
                    forall|a: u64|
                        (#[trigger] self.event_list.backlog_of(a)).len() <= old(
                            self,
                        ).event_list.backlog_of(a).len(),
                    self.staged_ok(staged@, sim_time),
                    old(staged)@.is_prefix_of(staged@),
                    old(sim_logs)@.is_prefix_of(sim_logs@),
                    logs_ok(sim_logs@, sim_time),
                    no_outcome_records(old(sim_logs)@) ==> no_outcome_records(sim_logs@),
                    queue_balance(sim_logs@, self.resource_queues),
                    prefix_balanced(sim_logs@, self.resource_queues),
                    forall|a: u64, name: Seq<char>|
                        #[trigger] crate::log::count_assigns(sim_logs@, a, name)
                            == crate::log::count_assigns(old(sim_logs)@, a, name),
                    forall|i: int, j: int|
                        0 <= i < self.resources@.len() && 0 <= j < self.resources@[
                            i
                        ].status@.len() ==> (#[trigger] self.resources@[i].status@[j]) == old(
                            self,
                        ).resources@[i].status@[j] || (old(self).resources@[i].status@[
                            j
                        ].is_occupied() && old(self).resources@[i].status@[j].available_at()
                            == sim_time && self.resources@[i].status@[j] == ResourceStatus::Free),
                decreases m - si,
            {
                let slot = self.resources[ri].status[si];
                match slot {
                    ResourceStatus::Occupied { available, current_agent_id } => {
                        if available == sim_time {
                            let ghost logs_pre = sim_logs@;
                            let rec = LogRecord::SlotReleased {
                                time: sim_time,
                                resource: self.resources[ri].resource_name.clone(),
                                slot: si,
                                agent: current_agent_id,
                            };
                            proof {
                                lemma_logs_push(logs_pre, rec, sim_time);
                        if no_outcome_records(logs_pre) {
                            lemma_no_outcome_push(logs_pre, rec);
                        }
                                lemma_balance_push_neutral(logs_pre, rec, self.resource_queues);
                        lemma_prefix_balanced_push(
                            logs_pre,
                            rec,
                            self.resource_queues,
                            self.resource_queues,
                        );
                            }
                            sim_logs.push(rec);
                            let ghost self_pre = *self;
                            let taken = self.event_list.take_next(current_agent_id);
                            proof {
                                lemma_targets_ok_after_take(self_pre, *self, current_agent_id);
                                assert forall|a: u64|
                                    (#[trigger] self.event_list.backlog_of(a)).len() <= old(
                                    self,
                                ).event_list.backlog_of(a).len() by {
                                    if a != current_agent_id {
                                        assert(self.event_list.backlog_of(a) =~= self_pre
                                            .event_list.backlog_of(a));
                                    }
                                }
                            }
                            match taken {
                                Option::Some(idle_event) => {
                                    let kind = idle_event.event_type;
                                    let ghost logs_pre2 = sim_logs@;
                                    let rec2 = LogRecord::NextEventStaged {
                                        time: sim_time,
                                        agent: current_agent_id,
                                        kind,
                                    };
                                    proof {
                                        lemma_logs_push(logs_pre2, rec2, sim_time);
                                        if no_outcome_records(logs_pre2) {
                                            lemma_no_outcome_push(logs_pre2, rec2);
                                        }
                                        lemma_balance_push_neutral(
                                            logs_pre2,
                                            rec2,
                                            self.resource_queues,
                                        );
                                        lemma_prefix_balanced_push(
                                            logs_pre2,
                                            rec2,
                                            self.resource_queues,
                                            self.resource_queues,
                                        );
                                        if idle_event.event_type == EventType::EnterQueue {
                                            self_pre.lemma_targets_ok_backlog(
                                                current_agent_id,
                                                0,
                                            );
                                        }
                                    }
                                    sim_logs.push(rec2);
                                    staged.push(ActiveEvent::from_idle_event(idle_event, sim_time));
                                },
                                Option::None => {
                                },
                            }
                            self.resources[ri].status[si] = ResourceStatus::Free;
                        }
                    },
                    ResourceStatus::Free => {
                    },
                }
                si += 1;
            }
            ri += 1;
        }
    }

    /// The admission phase of one tick: each resource, in registration
    /// order, fills its free slots (in slot order) from the front of its
    /// feeding queue, setting each new occupant's release time to the clock
    /// plus its requested duration.
    fn admit_from_queues(&mut self, sim_time: u128, sim_logs: &mut Vec<LogRecord>)
        requires
            old(self).wf(),
            old(self).targets_ok(),
            sim_time <= MAX_SIM_TIME,
            logs_ok(old(sim_logs)@, sim_time),
            queue_balance(old(sim_logs)@, old(self).resource_queues),
            prefix_balanced(old(sim_logs)@, old(self).resource_queues),
            old(self).slots_within(sim_time, u64::MAX as u128),
        ensures
            final(self).wf(),
            final(self).targets_ok(),
            final(self).event_list == old(self).event_list,
            final(self).same_resource_shape(*old(self)),
            forall|name: Seq<char>|
                final(self).resource_queues.has_queue(name) == old(self).resource_queues.has_queue(
                    name,
                ),
            old(sim_logs)@.is_prefix_of(final(sim_logs)@),
            logs_ok(final(sim_logs)@, sim_time),
            no_outcome_records(old(sim_logs)@) ==> no_outcome_records(final(sim_logs)@),
            queue_balance(final(sim_logs)@, final(self).resource_queues),
            prefix_balanced(final(sim_logs)@, final(self).resource_queues),
            forall|a: u64, name: Seq<char>|
                old(self).zero_capacity_fed(name) ==> #[trigger] crate::log::count_assigns(
                    final(sim_logs)@,
                    a,
                    name,
                ) == crate::log::count_assigns(old(sim_logs)@, a, name),
            final(self).slots_within(sim_time, u64::MAX as u128),
    {
        let n: usize = self.resources.len();
        let mut ri: usize = 0;
        while ri < n
            invariant
                n == self.resources@.len(),
                ri <= n,
                sim_time <= MAX_SIM_TIME,
                self.wf(),
                self.targets_ok(),
                self.event_list == old(self).event_list,
                self.same_resource_shape(*old(self)),
                forall|name: Seq<char>|
                    self.resource_queues.has_queue(name) == old(self).resource_queues.has_queue(
                        name,
                    ),
                old(sim_logs)@.is_prefix_of(sim_logs@),
                logs_ok(sim_logs@, sim_time),
                no_outcome_records(old(sim_logs)@) ==> no_outcome_records(sim_logs@),
                queue_balance(sim_logs@, self.resource_queues),
                prefix_balanced(sim_logs@, self.resource_queues),
                forall|a: u64, name: Seq<char>|
                    old(self).zero_capacity_fed(name) ==> #[trigger] crate::log::count_assigns(
                        sim_logs@,
                        a,
                        name,
                    ) == crate::log::count_assigns(old(sim_logs)@, a, name),
                self.slots_within(sim_time, u64::MAX as u128),
            decreases n - ri,
        {
            let m: usize = self.resources[ri].status.len();
            let mut si: usize = 0;
            while si < m
                invariant
                    n == self.resources@.len(),
                    ri < n,
                    m == self.resources@[ri as int].status@.len(),
                    si <= m,
                    sim_time <= MAX_SIM_TIME,
                    self.wf(),
                    self.targets_ok(),
                    self.event_list == old(self).event_list,
                    self.same_resource_shape(*old(self)),
                    forall|name: Seq<char>|
                        self.resource_queues.has_queue(name) == old(self).resource_queues.has_queue(
                            name,
                        ),
                    old(sim_logs)@.is_prefix_of(sim_logs@),
                    logs_ok(sim_logs@, sim_time),
                    no_outcome_records(old(sim_logs)@) ==> no_outcome_records(sim_logs@),
                    queue_balance(sim_logs@, self.resource_queues),
                    prefix_balanced(sim_logs@, self.resource_queues),
                    forall|a: u64, name: Seq<char>|
                        old(self).zero_capacity_fed(name) ==> #[trigger] crate::log::count_assigns(
                            sim_logs@,
                            a,
                            name,
                        ) == crate::log::count_assigns(old(sim_logs)@, a, name),
                    self.slots_within(sim_time, u64::MAX as u128),
                decreases m - si,
            {
                let slot = self.resources[ri].status[si];
                let occupied = slot.is_occupied_exec();
                if !occupied {
                    let qname = self.resources[ri].queue_target.clone();
                    let ghost qs0 = self.resource_queues;
                    let ghost self_pre = *self;
                    let popped = self.resource_queues.dequeue(&qname);
                    match popped {
                        Option::Some((agent_id, agent_dur)) => {
                            let ghost logs_pre = sim_logs@;
                            let rec = LogRecord::AssignedToSlot {
                                time: sim_time,
                                agent: agent_id,
                                queue: qname,
                                resource: self.resources[ri].resource_name.clone(),
                                slot: si,
                            };
                            proof {
                                lemma_logs_push(logs_pre, rec, sim_time);
                        if no_outcome_records(logs_pre) {
                            lemma_no_outcome_push(logs_pre, rec);
                        }
                                lemma_balance_assign(
                                    logs_pre,
                                    qs0,
                                    self.resource_queues,
                                    agent_id,
                                    self_pre.resources@[ri as int].queue_target@,
                                    rec,
                                );
                                lemma_targets_ok_queues_same(self_pre, *self);
                                lemma_prefix_balanced_push(
                                    logs_pre,
                                    rec,
                                    qs0,
                                    self.resource_queues,
                                );
                                assert forall|a: u64, name: Seq<char>|
                                    old(self).zero_capacity_fed(
                                        name,
                                    ) implies #[trigger] crate::log::count_assigns(
                                    logs_pre.push(rec),
                                    a,
                                    name,
                                ) == crate::log::count_assigns(logs_pre, a, name) by {
                                    assert(name != self_pre.resources@[ri as int].queue_target@)
                                        by {
                                        assert(old(self).resources@[ri as int].queue_target
                                            == self_pre.resources@[ri as int].queue_target);
                                        assert(old(self).resources@[ri as int].status@.len()
                                            == m);
                                    }
                                }
                            }
                            sim_logs.push(rec);
                            self.resources[ri].status[si] = ResourceStatus::Occupied {
                                available: sim_time + (agent_dur as u128),
                                current_agent_id: agent_id,
                            };
                        },
                        Option::None => {
                        },
                    }
                }
                si += 1;
            }
            ri += 1;
        }
    }
}

impl Environment {
    /// Run the simulation to completion: drain due events tick by tick,
    /// release and re-fill resource slots, and advance the clock to the next
    /// earliest pending time, until no work remains anywhere or the
    /// iteration ceiling is reached.
    ///
    /// A configuration whose resources or queue-entering events reference an
    /// unregistered queue fails fast, before any tick: no partial log.  On
    /// success the log is in non-decreasing time order, ends with exactly one
    /// outcome record matching `outcome`, and balances queue entries against
    /// slot assignments; a clean finish means every slot is free and every
    /// queue has drained, and every agent that had work has been started.
    #[verifier::rlimit(100)]
    pub fn run_sim(&mut self) -> (r: Result<SimRun, ConfigurationError>)
        requires
            old(self).wf(),
            old(self).all_slots_free_spec(),
            old(self).resource_queues.all_empty(),
        ensures
            final(self).wf(),
            r is Err <==> !(old(self).config_ok() && old(self).targets_ok()),
            r is Err ==> *final(self) == *old(self),
            r is Ok ==> crate::log::times_nondecreasing(r->Ok_0.logs@),
            r is Ok ==> r->Ok_0.logs@.len() > 0,
            r is Ok ==> ((r->Ok_0.outcome == SimOutcome::Finished) <==> r->Ok_0.logs@.last()
                is Finished),
            r is Ok ==> ((r->Ok_0.outcome == SimOutcome::RunawayStop) <==> r->Ok_0.logs@.last()
                is RunawayStop),
            r is Ok && r->Ok_0.outcome == SimOutcome::Finished ==> final(self).all_slots_free_spec() && final(self).resource_queues.all_empty(),
            r is Ok ==> queue_balance(r->Ok_0.logs@, final(self).resource_queues),
            r is Ok ==> forall|a: u64|
                (#[trigger] old(self).event_list.backlog_of(a)).len() > 0 ==> final(self).event_list.backlog_of(a).len() < old(self).event_list.backlog_of(a).len(),
            r is Ok ==> final(self).same_resource_shape(*old(self)),
            r is Ok ==> r->Ok_0.logs@.len() >= crate::catalog::count_busy(
                old(self).event_list.entries_view(),
            ) + 1,
            r is Ok && !final(self).resource_queues.all_empty() ==> r->Ok_0.outcome
                == SimOutcome::RunawayStop,
            r is Ok ==> no_outcome_records(r->Ok_0.logs@.drop_last()),
            r is Ok ==> prefix_balanced(r->Ok_0.logs@, final(self).resource_queues),
            r is Ok ==> all_agents_started(old(self).event_list, r->Ok_0.logs@),
            r is Ok ==> forall|a: u64, name: Seq<char>|
                old(self).zero_capacity_fed(name) ==> #[trigger] crate::log::count_assigns(
                    r->Ok_0.logs@,
                    a,
                    name,
                ) == 0,
    {
        let rn: usize = self.resources.len();
        let mut vi: usize = 0;
        while vi < rn
            invariant
                rn == self.resources@.len(),
                vi <= rn,
                forall|k: int|
                    0 <= k < vi ==> self.resource_queues.has_queue(
                        (#[trigger] self.resources@[k]).queue_target@,
                    ),
                self.wf(),
                *self == *old(self),
            decreases rn - vi,
        {
            if !self.resource_queues.contains_queue(&self.resources[vi].queue_target) {
                return Result::Err(
                    ConfigurationError { missing_queue: self.resources[vi].queue_target.clone() },
                );
            }
            vi += 1;
        }
        proof {
            assert(self.config_ok());
        }
        let en: usize = self.event_list.entry_count();
        let mut ei: usize = 0;
        while ei < en
            invariant
                en == self.event_list.entries_view().len(),
                ei <= en,
                self.config_ok(),
                forall|i2: int, k: int|
                    0 <= i2 < ei && 0 <= k < self.event_list.entries_view()[i2].backlog@.len()
                        ==> ((#[trigger] self.event_list.entries_view()[i2].backlog@[
                        k
                    ]).event_type == EventType::EnterQueue ==> self.resource_queues.has_queue(
                        self.event_list.entries_view()[i2].backlog@[k].target@,
                    )),
                self.wf(),
                *self == *old(self),
            decreases en - ei,
        {
            let bl: usize = self.event_list.entries[ei].backlog.len();
            let mut bk: usize = 0;
            while bk < bl
                invariant
                    en == self.event_list.entries_view().len(),
                    ei < en,
                    bl == self.event_list.entries_view()[ei as int].backlog@.len(),
                    bk <= bl,
                    self.config_ok(),
                    forall|i2: int, k: int|
                        0 <= i2 < ei && 0 <= k < self.event_list.entries_view()[i2].backlog@.len()
                            ==> ((#[trigger] self.event_list.entries_view()[i2].backlog@[
                            k
                        ]).event_type == EventType::EnterQueue ==> self.resource_queues.has_queue(
                            self.event_list.entries_view()[i2].backlog@[k].target@,
                        )),
                    forall|k: int|
                        0 <= k < bk ==> ((#[trigger] self.event_list.entries_view()[
                            ei as int
                        ].backlog@[k]).event_type == EventType::EnterQueue
                            ==> self.resource_queues.has_queue(
                            self.event_list.entries_view()[ei as int].backlog@[k].target@,
                        )),
                    self.wf(),
                    *self == *old(self),
                decreases bl - bk,
            {
                if self.event_list.entries[ei].backlog[bk].event_type == EventType::EnterQueue {
                    if !self.resource_queues.contains_queue(
                        &self.event_list.entries[ei].backlog[bk].target,
                    ) {
                        return Result::Err(
                            ConfigurationError {
                                missing_queue: self.event_list.entries[ei].backlog[
                                    bk
                                ].target.clone(),
                            },
                        );
                    }
                }
                bk += 1;
            }
            ei += 1;
        }
        proof {
            assert(self.targets_ok());
            assert(old(self).config_ok() && old(self).targets_ok());
        }
        let mut sim_logs: Vec<LogRecord> = Vec::new();
        let mut sim_time: u128 = 0;
        let mut loops: u64 = ITERATION_CEILING;
        let ghost initial_busy = crate::catalog::count_busy(self.event_list.entries_view());
        proof {
            assert(initial_busy == crate::catalog::count_busy(
                old(self).event_list.entries_view(),
            ));
        }
        let ghost init_catalog = self.event_list;
        let mut scheduled_events: Scheduler = self._organise_initial_events();
        let ghost init_sched = scheduled_events;
        proof {
            assert(init_catalog == old(self).event_list);
            assert(fronts_scheduled(init_catalog, init_sched.events@));
        }
        let mut staged_events: Vec<ActiveEvent> = Vec::new();
        let mut finished: bool = false;
        proof {
            assert(self.staged_ok(scheduled_events.events@, 0));
            assert(self.slots_within(0, u64::MAX as u128));
            assert forall|a: u64, name: Seq<char>| self.resource_queues.has_queue(
                name,
            ) implies #[trigger] crate::log::count_enters(sim_logs@, a, name)
                == crate::log::count_assigns(sim_logs@, a, name)
                + crate::queues::waiting_count(self.resource_queues.queue_at(name), a) by {
                let qi = self.resource_queues.queue_index(name);
                assert(self.resource_queues.queue_at(name).len() == 0);
            }
            lemma_prefix_balanced_empty(self.resource_queues);
            assert(sim_logs@ =~= Seq::<LogRecord>::empty());
        }
        while loops > 0
            invariant_except_break
                loops <= ITERATION_CEILING,
                !finished,
                no_outcome_records(sim_logs@),
                loops == ITERATION_CEILING ==> sim_time == 0 && sim_logs@.len() == 0
                    && scheduled_events == init_sched && scheduled_events.events@.len()
                    == initial_busy && (forall|k: int|
                    0 <= k < scheduled_events.events@.len() ==> (#[trigger] scheduled_events.events@[
                        k
                    ]).scheduled_time == 0),
            invariant
                init_catalog == old(self).event_list,
                fronts_scheduled(init_catalog, init_sched.events@),
                forall|name: Seq<char>|
                    self.resource_queues.has_queue(name) == old(self).resource_queues.has_queue(
                        name,
                    ),
                self.wf(),
                self.targets_ok(),
                self.config_ok(),
                self.same_resource_shape(*old(self)),
                forall|a: u64|
                    (#[trigger] old(self).event_list.backlog_of(a)).len() > 0
                        ==> self.event_list.backlog_of(a).len() < old(
                        self,
                    ).event_list.backlog_of(a).len(),
                scheduled_events.sorted(),
                scheduled_events.times_at_least(sim_time),
                self.staged_ok(scheduled_events.events@, sim_time),
                staged_events@.len() == 0,
                self.slots_within(sim_time, u64::MAX as u128),
                logs_ok(sim_logs@, sim_time),
                queue_balance(sim_logs@, self.resource_queues),
                prefix_balanced(sim_logs@, self.resource_queues),
                forall|a: u64, name: Seq<char>|
                    old(self).zero_capacity_fed(name) ==> #[trigger] crate::log::count_assigns(
                        sim_logs@,
                        a,
                        name,
                    ) == 0,
                sim_time as int <= (1 + ITERATION_CEILING - loops) as int * (u64::MAX as int),
                loops < ITERATION_CEILING ==> sim_logs@.len() >= initial_busy,
                loops < ITERATION_CEILING ==> all_agents_started(
                    old(self).event_list,
                    sim_logs@,
                ),
                finished ==> sim_logs@.len() > 0 && sim_logs@.last() is Finished
                    && self.all_slots_free_spec() && self.resource_queues.all_empty()
                    && sim_logs@.len() >= initial_busy + 1,
            ensures
                sim_logs@.len() >= initial_busy,
                all_agents_started(old(self).event_list, sim_logs@),
                finished ==> sim_logs@.len() > 0 && no_outcome_records(sim_logs@.drop_last()),
                !finished ==> no_outcome_records(sim_logs@),
            decreases loops,
        {
            proof {
                assert(sim_time as int <= 1001 * (u64::MAX as int));
                assert(sim_time <= MAX_SIM_TIME);
            }
            let ghost sched_top = scheduled_events;
            let ghost logs_top = sim_logs@;
            let due = scheduled_events.pop_all_due(sim_time);
            proof {
                assert forall|k: int| 0 <= k < due@.len() implies ((#[trigger] due@[
                    k
                ]).event_type == EventType::EnterQueue ==> self.resource_queues.has_queue(
                    due@[k].target@,
                )) by {
                    let ghost pre_events = due@ + scheduled_events.events@;
                    assert(pre_events[k] == due@[k]);
                }
                if loops == ITERATION_CEILING {
                    if scheduled_events.events@.len() > 0 {
                        let ghost top_events = due@ + scheduled_events.events@;
                        assert(sched_top.events@ =~= top_events);
                        assert(top_events[due@.len() as int] == scheduled_events.events@[0]);
                        assert(sched_top.events@[due@.len() as int].scheduled_time == 0);
                        assert(scheduled_events.events@[0].scheduled_time > 0);
                    }
                    assert(scheduled_events.events@.len() == 0);
                    assert(sched_top.events@.len() == due@.len());
                    assert(due@.len() == initial_busy);
                }
            }
            self.dispatch_due_events(&due, sim_time, &mut staged_events, &mut sim_logs);
            proof {
                assert(sim_logs@.len() >= initial_busy);
                if loops == ITERATION_CEILING {
                    assert(due@ =~= init_sched.events@);
                    assert(all_due_logged(
                        init_sched.events@,
                        init_sched.events@.len() as int,
                        sim_logs@,
                        0,
                    ));
                    lemma_started_established(init_catalog, init_sched.events@, sim_logs@);
                    assert(all_agents_started(old(self).event_list, sim_logs@));
                } else {
                    lemma_started_extended(old(self).event_list, logs_top, sim_logs@);
                }
            }
            let ghost logs_after_dispatch = sim_logs@;
            let ghost logs_after_dispatch2 = sim_logs@;
            self.release_resources(sim_time, &mut staged_events, &mut sim_logs);
            proof {
                assert forall|i: int|
                    0 <= i < self.resources@.len() implies (#[trigger] self.resources@[
                    i
                ]).availability_within(sim_time, u64::MAX as u128) by {
                    assert forall|j: int|
                        0 <= j < self.resources@[i].status@.len() && self.resources@[i].status@[
                            j
                        ].is_occupied() implies sim_time <= (#[trigger] self.resources@[i].status@[
                        j
                    ]).available_at() <= sim_time + (u64::MAX as u128) by {
                    }
                }
            }
            let ghost logs_after_release = sim_logs@;
            let ghost self_before_admit = *self;
            self.admit_from_queues(sim_time, &mut sim_logs);
            proof {
                lemma_prefix_trans(logs_after_dispatch, logs_after_release, sim_logs@);
                lemma_started_extended(old(self).event_list, logs_after_dispatch, sim_logs@);
                assert(self_before_admit.same_resource_shape(*old(self)));
                assert forall|name: Seq<char>|
                    old(self).zero_capacity_fed(name) implies self_before_admit.zero_capacity_fed(
                    name,
                ) by {
                    assert(self_before_admit.resource_queues.has_queue(name));
                    assert forall|i: int|
                        0 <= i < self_before_admit.resources@.len() && (
                        #[trigger] self_before_admit.resources@[i]).queue_target@
                            == name implies self_before_admit.resources@[i].status@.len()
                        == 0 by {
                        assert(old(self).resources@[i].queue_target
                            == self_before_admit.resources@[i].queue_target);
                        assert(old(self).resources@[i].status@.len() == self_before_admit
                            .resources@[i].status@.len());
                    }
                }
                assert forall|a: u64, name: Seq<char>|
                    old(self).zero_capacity_fed(name) implies #[trigger] crate::log::count_assigns(
                    sim_logs@,
                    a,
                    name,
                ) == 0 by {
                    assert(crate::log::count_assigns(sim_logs@, a, name)
                        == crate::log::count_assigns(logs_after_release, a, name));
                    assert(crate::log::count_assigns(logs_after_release, a, name)
                        == crate::log::count_assigns(logs_after_dispatch2, a, name));
                    assert(crate::log::count_assigns(logs_after_dispatch2, a, name)
                        == crate::log::count_assigns(logs_top, a, name));
                    assert(crate::log::count_assigns(logs_top, a, name) == 0);
                }
                let full = due@ + scheduled_events.events@;
                assert forall|k: int|
                    0 <= k < scheduled_events.events@.len() implies sim_time <= (
                #[trigger] scheduled_events.events@[k]).scheduled_time
                    && scheduled_events.events@[k].scheduled_time <= sim_time + (
                u64::MAX as u128) && (scheduled_events.events@[k].event_type
                    == EventType::EnterQueue ==> self.resource_queues.has_queue(
                    scheduled_events.events@[k].target@,
                )) by {
                    assert(full[due@.len() + k] == scheduled_events.events@[k]);
                }
                assert(self.staged_ok(scheduled_events.events@, sim_time));
                assert(self.staged_ok(staged_events@, sim_time));
            }
            while staged_events.len() > 0
                invariant
                    scheduled_events.sorted(),
                    scheduled_events.times_at_least(sim_time),
                    self.staged_ok(scheduled_events.events@, sim_time),
                    self.staged_ok(staged_events@, sim_time),
                decreases staged_events@.len(),
            {
                let moving = staged_events.pop();
                match moving {
                    Option::Some(ev) => {
                        let ghost before = scheduled_events.events@;
                        scheduled_events.push(ev);
                        proof {
                            lemma_insert_all(
                                before,
                                scheduled_events.events@,
                                ev,
                                |e: ActiveEvent|
                                    sim_time <= e.scheduled_time && e.scheduled_time <= sim_time
                                        + (u64::MAX as u128) && (e.event_type
                                        == EventType::EnterQueue
                                        ==> self.resource_queues.has_queue(e.target@)),
                            );
                        }
                    },
                    Option::None => {
                    },
                }
            }
            let sched_empty = scheduled_events.is_empty();
            let slots_free = self.all_slots_free();
            let queues_empty = self.resource_queues.all_queues_empty();
            if sched_empty && slots_free && queues_empty {
                let rec = LogRecord::Finished { time: sim_time };
                let ghost logs_pre_outcome = sim_logs@;
                proof {
                    lemma_logs_push(sim_logs@, rec, sim_time);
                    lemma_balance_push_neutral(sim_logs@, rec, self.resource_queues);
                    lemma_prefix_balanced_push(
                        sim_logs@,
                        rec,
                        self.resource_queues,
                        self.resource_queues,
                    );
                }
                sim_logs.push(rec);
                proof {
                    assert(sim_logs@.drop_last() =~= logs_pre_outcome);
                    assert(logs_pre_outcome.is_prefix_of(sim_logs@)) by {
                        assert(logs_pre_outcome =~= sim_logs@.subrange(
                            0,
                            logs_pre_outcome.len() as int,
                        ));
                    }
                    lemma_started_extended(old(self).event_list, logs_pre_outcome, sim_logs@);
                }
                finished = true;
                break ;
            }
            let next_event_time = scheduled_events.peek_min_time();
            let next_release_time = self.min_occupied_available();
            let ghost old_time = sim_time;
            match (next_event_time, next_release_time) {
                (Option::Some(te), Option::Some(tr)) => {
                    sim_time = if te < tr {
                        te
                    } else {
                        tr
                    };
                },
                (Option::Some(te), Option::None) => {
                    sim_time = te;
                },
                (Option::None, Option::Some(tr)) => {
                    sim_time = tr;
                },
                (Option::None, Option::None) => {
                },
            }
            proof {
                assert(old_time <= sim_time);
                assert(sim_time <= old_time + (u64::MAX as u128));
                assert(scheduled_events.times_at_least(sim_time));
                assert(self.staged_ok(scheduled_events.events@, sim_time));
                assert(self.slots_within(sim_time, u64::MAX as u128));
                assert forall|k: int| 0 <= k < sim_logs@.len() implies (#[trigger] sim_logs@[
                    k
                ]).rec_time() <= sim_time by {
                }
            }
            loops -= 1;
        }
        if !finished {
            let rec = LogRecord::RunawayStop { time: sim_time };
            let ghost logs_pre_outcome = sim_logs@;
            proof {
                lemma_logs_push(sim_logs@, rec, sim_time);
                lemma_balance_push_neutral(sim_logs@, rec, self.resource_queues);
                lemma_prefix_balanced_push(
                    sim_logs@,
                    rec,
                    self.resource_queues,
                    self.resource_queues,
                );
            }
            sim_logs.push(rec);
            proof {
                assert(sim_logs@.drop_last() =~= logs_pre_outcome);
                assert(logs_pre_outcome.is_prefix_of(sim_logs@)) by {
                    assert(logs_pre_outcome =~= sim_logs@.subrange(
                        0,
                        logs_pre_outcome.len() as int,
                    ));
                }
                lemma_started_extended(old(self).event_list, logs_pre_outcome, sim_logs@);
            }
        }
        let outcome = if finished {
            SimOutcome::Finished
        } else {
            SimOutcome::RunawayStop
        };
        Result::Ok(SimRun { logs: sim_logs, outcome })
    }
}

} // verus!
