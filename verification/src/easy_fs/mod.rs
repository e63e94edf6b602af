//! The easy file system: a block cache, allocation bitmaps, the layout of the disk and the
//! directory operations on top of it.

pub mod bitmap;
pub mod block_cache;
pub mod block_dev;
pub mod call_laws;
pub mod codec;
pub mod dir;
pub mod efs;
pub mod fs_state;
pub mod laws;
pub mod layout;
pub mod room;
pub mod vfs;

pub use block_dev::{BlockDevice, BLOCK_SZ};
