//! A deferred task scheduler library: tasks are persisted with a requested
//! execution time, announced over a pub/sub channel, and executed exactly once
//! by cooperating workers. This crate holds the verified core: the task data
//! model, the notification wire codec, the store's claim protocol, and the
//! in-process queue decisions.

pub mod codec;
pub mod config;
pub mod executor;
pub mod error;
pub mod store;
pub mod task;
pub mod time;
