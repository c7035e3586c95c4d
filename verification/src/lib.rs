//! A personal deadline-reminder scheduler: tasks with a deadline and
//! pre/post attention windows, a store that computes the next instant any
//! task's status changes, and the protocol for arming a one-shot OS timer
//! at that instant.
pub mod codec;
pub mod schedule;
pub mod task;
pub mod tasks;
