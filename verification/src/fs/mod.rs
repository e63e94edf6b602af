//! Files as the kernel sees them.

pub mod apps;
pub mod file;
pub mod guard;
pub mod inode;
pub mod laws;
pub mod stat;
pub mod stdio;
