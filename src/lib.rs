//! A delayed-job scheduler built on a timing wheel: a hub of time-bucketed
//! spokes, each a queue of jobs ordered by trigger time.

pub mod spoke;
pub mod times;
pub mod temporal_state;
pub mod job;
pub mod hub;
pub mod hub_lemmas;
