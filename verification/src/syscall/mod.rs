//! What processes can ask of the kernel.

pub mod file_laws;
pub mod files;
pub mod guard;
pub mod laws;
pub mod memory_laws;
pub mod process;
pub mod wait;
