use std::collections::VecDeque;

use simkernel::engine::Environment;
use simkernel::engine::Person;
use simkernel::engine::ResourceInterruption;
use simkernel::engine::SimOutcome;
use simkernel::event::ActiveEvent;
use simkernel::event::EventType;
use simkernel::event::IdleEvent;
use simkernel::log::LogRecord;
use simkernel::queues::SimulationQueue;
use simkernel::resource::Resource;

fn queue(name: &str) -> SimulationQueue {
    SimulationQueue { queue_name: name.to_string(), queue: VecDeque::new() }
}

/// Two agents, one resource of capacity two: both are admitted at once and
/// released after their requested durations; the run finishes at the last
/// release.
#[test]
fn two_agents_shared_resource_full_trace() {
    let mut env = Environment::default();
    env.add_queue(queue("Q"));
    env.add_resource(Resource::new_resource(2, "R".to_string(), "Q".to_string()));
    let a = Person { id: 1, spawn_time: 0, process_time: 2 };
    let b = Person { id: 2, spawn_time: 0, process_time: 3 };
    env.timeout(&a, a.spawn_time);
    env.enter_queue(&a, a.process_time, "Q".to_string());
    env.timeout(&b, b.spawn_time);
    env.enter_queue(&b, b.process_time, "Q".to_string());

    let run = env.run_sim().unwrap();
    assert_eq!(run.outcome, SimOutcome::Finished);
    let expected = vec![
        LogRecord::ExecutesTimeout { time: 0, agent: 1 },
        LogRecord::ExecutesTimeout { time: 0, agent: 2 },
        LogRecord::EndsTimeout { time: 0, agent: 1 },
        LogRecord::EndsTimeout { time: 0, agent: 2 },
        LogRecord::EntersQueue { time: 0, agent: 1, queue: "Q".to_string() },
        LogRecord::EntersQueue { time: 0, agent: 2, queue: "Q".to_string() },
        LogRecord::AssignedToSlot {
            time: 0,
            agent: 1,
            queue: "Q".to_string(),
            resource: "R".to_string(),
            slot: 0,
        },
        LogRecord::AssignedToSlot {
            time: 0,
            agent: 2,
            queue: "Q".to_string(),
            resource: "R".to_string(),
            slot: 1,
        },
        LogRecord::SlotReleased { time: 2, resource: "R".to_string(), slot: 0, agent: 1 },
        LogRecord::SlotReleased { time: 3, resource: "R".to_string(), slot: 1, agent: 2 },
        LogRecord::Finished { time: 3 },
    ];
    assert_eq!(run.logs, expected);
}

/// Log times never decrease across any run.
#[test]
fn log_times_are_nondecreasing() {
    let mut env = Environment::default();
    env.add_queue(queue("queue_1"));
    env.add_resource(Resource::new_resource(1, "resource_1".to_string(), "queue_1".to_string()));
    for (id, spawn, proc_time) in [(1u64, 3u64, 1u64), (2, 3, 7), (3, 3, 10)] {
        Person { id, spawn_time: spawn, process_time: proc_time }.process(&mut env);
    }
    let run = env.run_sim().unwrap();
    assert_eq!(run.outcome, SimOutcome::Finished);
    let mut last = 0u128;
    for rec in &run.logs {
        let t = match rec {
            LogRecord::ExecutesTimeout { time, .. } => *time,
            LogRecord::EndsTimeout { time, .. } => *time,
            LogRecord::EntersQueue { time, .. } => *time,
            LogRecord::SlotReleased { time, .. } => *time,
            LogRecord::NextEventStaged { time, .. } => *time,
            LogRecord::AssignedToSlot { time, .. } => *time,
            LogRecord::InterruptionUnsupported { time, .. } => *time,
            LogRecord::Finished { time } => *time,
            LogRecord::RunawayStop { time } => *time,
        };
        assert!(t >= last);
        last = t;
    }
}

/// Running the identical scenario twice yields identical log sequences.
#[test]
fn identical_scenarios_produce_identical_logs() {
    let build = || {
        let mut env = Environment::default();
        env.add_queue(queue("queue_1"));
        env.add_resource(Resource::new_resource(
            2,
            "resource_1".to_string(),
            "queue_1".to_string(),
        ));
        env.add_resource(Resource::new_resource(
            1,
            "resource_2".to_string(),
            "queue_1".to_string(),
        ));
        for (id, spawn, proc_time) in [(1u64, 3u64, 1u64), (2, 3, 7), (3, 3, 10)] {
            Person { id, spawn_time: spawn, process_time: proc_time }.process(&mut env);
        }
        env
    };
    let run1 = build().run_sim().unwrap();
    let run2 = build().run_sim().unwrap();
    assert_eq!(run1.outcome, run2.outcome);
    assert_eq!(run1.logs, run2.logs);
    assert_eq!(run1.outcome, SimOutcome::Finished);
}

/// A zero-capacity resource is legal but permanently blocks its queue: the
/// waiting agent is never admitted and the run ends at the iteration
/// ceiling, logged as a runaway stop distinct from a clean finish.
#[test]
fn zero_capacity_resource_ends_in_runaway() {
    let mut env = Environment::default();
    env.add_queue(queue("Q"));
    env.add_resource(Resource::new_resource(0, "R".to_string(), "Q".to_string()));
    let a = Person { id: 1, spawn_time: 0, process_time: 1 };
    env.timeout(&a, a.spawn_time);
    env.enter_queue(&a, a.process_time, "Q".to_string());
    let run = env.run_sim().unwrap();
    assert_eq!(run.outcome, SimOutcome::RunawayStop);
    assert_eq!(run.logs.last(), Some(&LogRecord::RunawayStop { time: 0 }));
    assert!(run.logs.contains(&LogRecord::EntersQueue {
        time: 0,
        agent: 1,
        queue: "Q".to_string(),
    }));
    assert!(!run.logs.iter().any(|r| matches!(r, LogRecord::AssignedToSlot { .. })));
}

/// An agent spawning after everyone else's total service time is still
/// served, and the simulation end time tracks the last release.
#[test]
fn late_spawner_is_still_served() {
    let mut env = Environment::default();
    env.add_queue(queue("Q"));
    env.add_resource(Resource::new_resource(1, "R".to_string(), "Q".to_string()));
    let early = Person { id: 1, spawn_time: 0, process_time: 2 };
    let late = Person { id: 2, spawn_time: 10, process_time: 1 };
    for p in [early, late] {
        env.timeout(&p, p.spawn_time);
        env.enter_queue(&p, p.process_time, "Q".to_string());
    }
    let run = env.run_sim().unwrap();
    assert_eq!(run.outcome, SimOutcome::Finished);
    assert!(run.logs.contains(&LogRecord::AssignedToSlot {
        time: 10,
        agent: 2,
        queue: "Q".to_string(),
        resource: "R".to_string(),
        slot: 0,
    }));
    assert!(run.logs.contains(&LogRecord::SlotReleased {
        time: 11,
        resource: "R".to_string(),
        slot: 0,
        agent: 2,
    }));
    assert_eq!(run.logs.last(), Some(&LogRecord::Finished { time: 11 }));
}

/// Two agents with identical spawn and process times are handled in the
/// documented tie-break order: by agent id.
#[test]
fn equal_times_break_ties_by_agent_id() {
    let mut env = Environment::default();
    env.add_queue(queue("Q"));
    env.add_resource(Resource::new_resource(2, "R".to_string(), "Q".to_string()));
    for id in [5u64, 3u64] {
        let p = Person { id, spawn_time: 1, process_time: 1 };
        env.timeout(&p, p.spawn_time);
        env.enter_queue(&p, p.process_time, "Q".to_string());
    }
    let run = env.run_sim().unwrap();
    assert_eq!(run.outcome, SimOutcome::Finished);
    let enters: Vec<u64> = run
        .logs
        .iter()
        .filter_map(|r| match r {
            LogRecord::EntersQueue { agent, .. } => Some(*agent),
            _ => None,
        })
        .collect();
    assert_eq!(enters, vec![3, 5]);
    let assigns: Vec<u64> = run
        .logs
        .iter()
        .filter_map(|r| match r {
            LogRecord::AssignedToSlot { agent, .. } => Some(*agent),
            _ => None,
        })
        .collect();
    assert_eq!(assigns, vec![3, 5]);
}

/// Each agent enters the queue exactly as often as it is assigned a slot in
/// a finished run.
#[test]
fn enters_match_assignments_per_agent() {
    let mut env = Environment::default();
    env.add_queue(queue("queue_1"));
    env.add_resource(Resource::new_resource(1, "resource_1".to_string(), "queue_1".to_string()));
    for (id, spawn, proc_time) in [(1u64, 0u64, 2u64), (2, 1, 2), (3, 2, 2)] {
        Person { id, spawn_time: spawn, process_time: proc_time }.process(&mut env);
    }
    let run = env.run_sim().unwrap();
    assert_eq!(run.outcome, SimOutcome::Finished);
    for id in [1u64, 2, 3] {
        let enters = run
            .logs
            .iter()
            .filter(|r| matches!(r, LogRecord::EntersQueue { agent, .. } if *agent == id))
            .count();
        let assigns = run
            .logs
            .iter()
            .filter(|r| matches!(r, LogRecord::AssignedToSlot { agent, .. } if *agent == id))
            .count();
        assert_eq!(enters, 1);
        assert_eq!(enters, assigns);
    }
}

/// A resource referencing an unregistered queue fails before any tick runs.
#[test]
fn unregistered_resource_queue_is_a_configuration_error() {
    let mut env = Environment::default();
    env.add_resource(Resource::new_resource(1, "R".to_string(), "ghost_queue".to_string()));
    let err = env.run_sim().unwrap_err();
    assert_eq!(err.missing_queue, "ghost_queue".to_string());
}

/// A queue-entering event targeting an unregistered queue also fails fast.
#[test]
fn unregistered_event_target_is_a_configuration_error() {
    let mut env = Environment::default();
    env.add_queue(queue("Q"));
    env.add_resource(Resource::new_resource(1, "R".to_string(), "Q".to_string()));
    let a = Person { id: 1, spawn_time: 0, process_time: 1 };
    env.timeout(&a, a.spawn_time);
    env.enter_queue(&a, a.process_time, "elsewhere".to_string());
    let err = env.run_sim().unwrap_err();
    assert_eq!(err.missing_queue, "elsewhere".to_string());
}

/// Staging a resource interruption is a no-op: pre-emption is reserved and
/// unimplemented, so the environment is untouched and an otherwise empty
/// scenario still finishes immediately.
#[test]
fn add_interruption_changes_nothing() {
    let mut env = Environment::default();
    env.add_queue(queue("Q"));
    env.add_resource(Resource::new_resource(1, "R".to_string(), "Q".to_string()));
    let blocker = ResourceInterruption { id: 9 };
    blocker.add_interruption(2, "R".to_string(), 1, 5, &mut env);
    let run = env.run_sim().unwrap();
    assert_eq!(run.outcome, SimOutcome::Finished);
    assert_eq!(run.logs, vec![LogRecord::Finished { time: 0 }]);
}

/// A resource-interruption event that becomes due is processed as a logged
/// no-op, visibly distinguishable in the log, with no effect on queues or
/// slots.
#[test]
fn due_interruption_is_a_logged_no_op() {
    let mut env = Environment::default();
    env.add_queue(queue("Q"));
    env.add_resource(Resource::new_resource(1, "R".to_string(), "Q".to_string()));
    env.event_list.register(
        9,
        IdleEvent {
            id: 9,
            event_type: EventType::ResourceInterruption,
            process_time: 5,
            target: "R".to_string(),
        },
    );
    let run = env.run_sim().unwrap();
    assert_eq!(run.outcome, SimOutcome::Finished);
    assert_eq!(
        run.logs,
        vec![
            LogRecord::InterruptionUnsupported { time: 0, agent: 9 },
            LogRecord::Finished { time: 0 },
        ],
    );
}

/// Promoting an idle event carries every field over and stamps the due time.
#[test]
fn promotion_keeps_fields_and_sets_due_time() {
    let idle = IdleEvent {
        id: 7,
        event_type: EventType::EnterQueue,
        process_time: 4,
        target: "Q".to_string(),
    };
    let active = ActiveEvent::from_idle_event(idle, 12);
    assert_eq!(active.id, 7);
    assert_eq!(active.event_type, EventType::EnterQueue);
    assert_eq!(active.process_time, 4);
    assert_eq!(active.target, "Q".to_string());
    assert_eq!(active.scheduled_time, 12);
}

/// A freshly built resource has exactly `capacity` slots, all free.
#[test]
fn new_resource_has_capacity_free_slots() {
    let r = Resource::new_resource(3, "R".to_string(), "Q".to_string());
    assert_eq!(r.status.len(), 3);
    assert_eq!(r.resource_name, "R".to_string());
    assert_eq!(r.queue_target, "Q".to_string());
    for slot in &r.status {
        assert!(!slot.is_occupied_exec());
    }
}

/// An agent with an empty backlog produces no activity: an empty scenario
/// finishes immediately at time zero.
#[test]
fn empty_scenario_finishes_at_time_zero() {
    let mut env = Environment::default();
    env.add_queue(queue("Q"));
    env.add_resource(Resource::new_resource(1, "R".to_string(), "Q".to_string()));
    let run = env.run_sim().unwrap();
    assert_eq!(run.outcome, SimOutcome::Finished);
    assert_eq!(run.logs, vec![LogRecord::Finished { time: 0 }]);
}

/// Peeking at a queue shows its head without removing it; dequeuing removes
/// exactly that pair.
#[test]
fn peek_front_matches_dequeue() {
    let mut env = Environment::default();
    env.add_queue(queue("Q"));
    let name = "Q".to_string();
    assert!(env.resource_queues.peek_front(&name).is_none());
    assert!(env.resource_queues.enqueue(&name, 4, 9));
    assert!(env.resource_queues.enqueue(&name, 6, 2));
    assert_eq!(env.resource_queues.peek_front(&name), Some((4, 9)));
    assert_eq!(env.resource_queues.dequeue(&name), Some((4, 9)));
    assert_eq!(env.resource_queues.peek_front(&name), Some((6, 2)));
    assert_eq!(env.resource_queues.dequeue(&name), Some((6, 2)));
    assert_eq!(env.resource_queues.dequeue(&name), None);
    assert!(!env.resource_queues.enqueue(&"other".to_string(), 1, 1));
}

/// At every prefix of the log, an agent's slot assignments from a queue
/// never exceed its entries into it: nobody is admitted without queueing.
#[test]
fn assignments_never_run_ahead_of_entries() {
    let mut env = Environment::default();
    env.add_queue(queue("Q"));
    env.add_resource(Resource::new_resource(1, "R".to_string(), "Q".to_string()));
    for (id, spawn, proc_time) in [(1u64, 0u64, 3u64), (2, 1, 1), (3, 1, 2)] {
        let p = Person { id, spawn_time: spawn, process_time: proc_time };
        env.timeout(&p, p.spawn_time);
        env.enter_queue(&p, p.process_time, "Q".to_string());
    }
    let run = env.run_sim().unwrap();
    assert_eq!(run.outcome, SimOutcome::Finished);
    for id in [1u64, 2, 3] {
        let mut enters: usize = 0;
        let mut assigns: usize = 0;
        for rec in &run.logs {
            match rec {
                LogRecord::EntersQueue { agent, .. } if *agent == id => enters += 1,
                LogRecord::AssignedToSlot { agent, .. } if *agent == id => assigns += 1,
                _ => {}
            }
            assert!(assigns <= enters);
        }
        assert_eq!(enters, assigns);
    }
}

/// The outcome record appears exactly once, as the final record.
#[test]
fn outcome_record_appears_only_at_the_end() {
    let mut env = Environment::default();
    env.add_queue(queue("Q"));
    env.add_resource(Resource::new_resource(1, "R".to_string(), "Q".to_string()));
    for (id, spawn, proc_time) in [(1u64, 0u64, 2u64), (2, 0, 2)] {
        let p = Person { id, spawn_time: spawn, process_time: proc_time };
        env.timeout(&p, p.spawn_time);
        env.enter_queue(&p, p.process_time, "Q".to_string());
    }
    let run = env.run_sim().unwrap();
    let outcomes = run
        .logs
        .iter()
        .filter(|r| matches!(r, LogRecord::Finished { .. } | LogRecord::RunawayStop { .. }))
        .count();
    assert_eq!(outcomes, 1);
    assert!(matches!(run.logs.last(), Some(LogRecord::Finished { .. })));
}
