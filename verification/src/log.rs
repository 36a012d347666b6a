//! Structured log records: the output of a simulation run, consumed by an
//! external log sink.  Rendering to text is outside the kernel.

use vstd::prelude::*;
use crate::event::EventType;

verus! {

/// One record of the simulation trace.  Every record carries the simulation
/// time at which it was emitted; records are emitted in non-decreasing time
/// order.
#[derive(Clone, Debug, PartialEq, Eq)]
pub enum LogRecord {
    /// An agent begins a timeout of its event's duration.
    ExecutesTimeout { time: u128, agent: u64 },
    /// An agent's timeout ends; its next idle event (if any) is staged.
    EndsTimeout { time: u128, agent: u64 },
    /// An agent joins the named wait queue.
    EntersQueue { time: u128, agent: u64, queue: String },
    /// A resource slot released its occupant.
    SlotReleased { time: u128, resource: String, slot: usize, agent: u64 },
    /// After a release, the freed agent's next idle event was staged.
    NextEventStaged { time: u128, agent: u64, kind: EventType },
    /// An agent was moved from the named queue into a slot of the resource.
    AssignedToSlot { time: u128, agent: u64, queue: String, resource: String, slot: usize },
    /// A resource-interruption event was encountered; pre-emption is not
    /// supported, so the event is a logged no-op rather than a silent one.
    InterruptionUnsupported { time: u128, agent: u64 },
    /// Clean termination: no pending events, no occupied slots, no waiting
    /// agents.
    Finished { time: u128 },
    /// The iteration ceiling was reached before the termination condition
    /// held: the scenario never drains (a misconfiguration or a starved
    /// queue), and the run stopped abnormally.
    RunawayStop { time: u128 },
}

impl LogRecord {
    /// The simulation time the record was emitted at.
    pub open spec fn rec_time(self) -> u128 {
        match self {
            LogRecord::ExecutesTimeout { time, .. } => time,
            LogRecord::EndsTimeout { time, .. } => time,
            LogRecord::EntersQueue { time, .. } => time,
            LogRecord::SlotReleased { time, .. } => time,
            LogRecord::NextEventStaged { time, .. } => time,
            LogRecord::AssignedToSlot { time, .. } => time,
            LogRecord::InterruptionUnsupported { time, .. } => time,
            LogRecord::Finished { time } => time,
            LogRecord::RunawayStop { time } => time,
        }
    }

    /// The record says the given agent entered the given queue.
    pub open spec fn is_enter(self, agent: u64, queue: Seq<char>) -> bool {
        match self {
            LogRecord::EntersQueue { agent: a, queue: q, .. } => a == agent && q@ == queue,
            _ => false,
        }
    }

    /// The record says the given agent was assigned a slot from the given
    /// queue.
    pub open spec fn is_assign(self, agent: u64, queue: Seq<char>) -> bool {
        match self {
            LogRecord::AssignedToSlot { agent: a, queue: q, .. } => a == agent && q@ == queue,
            _ => false,
        }
    }
}

/// Number of records in `logs` that say `agent` entered `queue`.
pub open spec fn count_enters(logs: Seq<LogRecord>, agent: u64, queue: Seq<char>) -> nat
    decreases logs.len(),
{
    if logs.len() == 0 {
        0
    } else {
        count_enters(logs.drop_last(), agent, queue) + if logs.last().is_enter(
            agent,
            queue,
        ) {
            1nat
        } else {
            0nat
        }
    }
}

/// Number of records in `logs` that say `agent` was assigned a slot from
/// `queue`.
pub open spec fn count_assigns(logs: Seq<LogRecord>, agent: u64, queue: Seq<char>) -> nat
    decreases logs.len(),
{
    if logs.len() == 0 {
        0
    } else {
        count_assigns(logs.drop_last(), agent, queue) + if logs.last().is_assign(
            agent,
            queue,
        ) {
            1nat
        } else {
            0nat
        }
    }
}

/// The records' times are non-decreasing across the sequence.
pub open spec fn times_nondecreasing(logs: Seq<LogRecord>) -> bool {
    forall|i: int, j: int|
        0 <= i <= j < logs.len() ==> logs[i].rec_time() <= logs[j].rec_time()
}

/// Appending one record does not disturb either count unless the record
/// itself is a matching entry or assignment.
pub proof fn lemma_counts_push(logs: Seq<LogRecord>, r: LogRecord, agent: u64, queue: Seq<char>)
    ensures
        count_enters(logs.push(r), agent, queue) == count_enters(logs, agent, queue) + if r
            .is_enter(agent, queue) {
            1nat
        } else {
            0nat
        },
        count_assigns(logs.push(r), agent, queue) == count_assigns(logs, agent, queue) + if r
            .is_assign(agent, queue) {
            1nat
        } else {
            0nat
        },
{
    assert(logs.push(r).drop_last() =~= logs);
    assert(logs.push(r).last() == r);
}

} // verus!
