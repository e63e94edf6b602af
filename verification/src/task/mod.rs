//! Processes and their scheduling.

pub mod context;
pub mod heap;
pub mod id;
pub mod laws;
pub mod manager;
pub mod processor;
pub mod shared;
pub mod task;
