//! Entering and leaving the kernel.

pub mod cause;
pub mod context;
pub mod handler;
