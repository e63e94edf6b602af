//! A small teaching kernel and its file system, written as verified code.
//!
//! The machine is passed in explicitly: a block device, the frames of physical memory, the values
//! read from the control registers. Everything that is decided or computed on top of it is here,
//! with a contract.

pub mod batch;
pub mod bytes;
pub mod easy_fs;
pub mod fs;
pub mod kernel;
pub mod link_app;
pub mod mm;
pub mod syscall;
pub mod task;
pub mod trap;
