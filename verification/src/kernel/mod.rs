//! The kernel as a whole.

pub mod birth;
pub mod boot;
pub mod exit;
pub mod guard;
pub mod laws;
pub mod sched;
pub mod state;
pub mod user;
