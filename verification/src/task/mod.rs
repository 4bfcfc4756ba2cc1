//! Tasks and the scheduler that picks the next of them to run.

pub mod manager;
pub mod task;
