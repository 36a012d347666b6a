//! Event kinds and the two event shapes: idle (queued, not yet due) and
//! active (promoted with an absolute due time, held by the scheduler).

use vstd::prelude::*;

verus! {

/// The kind of a unit of work an agent performs.
#[derive(Clone, Copy, Debug, PartialEq, Eq, Structural)]
pub enum EventType {
    /// Wait for a fixed duration, then end the timeout.
    Timeout,
    /// The matching end of a `Timeout`; pulls the agent's next idle event.
    EndTimeout,
    /// Join a named wait queue, requesting a service duration.
    EnterQueue,
    /// Reserved extension point for resource pre-emption; not yet supported.
    ResourceInterruption,
}

/// A queued-but-not-yet-due unit of work for one agent.  Owned by the event
/// catalog entry for that agent until it is promoted.
#[derive(Clone, Debug, PartialEq, Eq)]
pub struct IdleEvent {
    /// The agent this event belongs to.
    pub id: u64,
    /// What the event does when it becomes due.
    pub event_type: EventType,
    /// Duration parameter: timeout length, or requested service time.
    pub process_time: u64,
    /// Name of the wait queue to join; empty unless `event_type` uses it.
    pub target: String,
}

/// An idle event promoted with an absolute due time.  Lives only inside the
/// scheduler between the tick it was staged and the tick it is processed.
///
/// Absolute simulation times are `u128` while scenario durations are `u64`:
/// the clock only ever advances to a previously computed time, so within the
/// engine's iteration ceiling no time can come near `u128::MAX` and clock
/// arithmetic cannot overflow.
#[derive(Clone, Debug, PartialEq, Eq)]
pub struct ActiveEvent {
    /// The agent this event belongs to.
    pub id: u64,
    /// What the event does when it becomes due.
    pub event_type: EventType,
    /// Duration parameter carried over from the idle event.
    pub process_time: u64,
    /// Name of the wait queue to join; empty unless `event_type` uses it.
    pub target: String,
    /// Absolute simulation time at which the event is processed.
    pub scheduled_time: u128,
}

impl ActiveEvent {
    /// Promote an idle event: the fields carry over and the event becomes due
    /// at `sim_time`.
    pub fn from_idle_event(idle_event: IdleEvent, sim_time: u128) -> (r: ActiveEvent)
        ensures
            r.id == idle_event.id,
            r.event_type == idle_event.event_type,
            r.process_time == idle_event.process_time,
            r.target == idle_event.target,
            r.scheduled_time == sim_time,
    {
        ActiveEvent {
            id: idle_event.id,
            event_type: idle_event.event_type,
            process_time: idle_event.process_time,
            target: idle_event.target,
            scheduled_time: sim_time,
        }
    }

    /// Scheduling order: primarily by due time (earlier first); ties between
    /// equal due times are broken by agent id, the engine's documented
    /// deterministic tie-break.
    pub open spec fn le_key(self, other: ActiveEvent) -> bool {
        ||| self.scheduled_time < other.scheduled_time
        ||| (self.scheduled_time == other.scheduled_time && self.id <= other.id)
    }
}

} // verus!
