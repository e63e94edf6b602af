//! Memory: physical frames, Sv39 page tables and address spaces.

pub mod address;
pub mod call_laws;
pub mod elf;
pub mod frame_allocator;
pub mod kernel_space;
pub mod laws;
pub mod map_area;
pub mod memory_set;
pub mod page_table;
pub mod plan;
pub mod space;
pub mod stray;
pub mod user;
