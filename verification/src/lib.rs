//! A minimal single-worker cooperative task scheduler.
//!
//! Many independently suspendable computations ("tasks") are multiplexed onto
//! one driving thread. Each task exposes a single resume operation; when a
//! resume reports that the task is waiting for an external event, the task is
//! parked in a waiting set until its resumption handle is invoked, possibly
//! from another thread, which moves it back into the ready queue.

pub mod task;
