//! A discrete-event simulation kernel.
//!
//! Discrete agents traverse a sequence of timed activities and compete for
//! finite-capacity resources reached through named FIFO wait queues.  A run
//! produces a deterministic, time-ordered sequence of structured log records
//! describing every state transition: timeouts, queue entries, resource slot
//! assignments and releases, and the final outcome.

pub mod catalog;
pub mod engine;
pub mod event;
pub mod log;
pub mod queues;
pub mod resource;
pub mod scheduler;
