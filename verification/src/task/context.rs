//! The registers of a suspended process in the kernel.

use vstd::prelude::*;

verus! {

/// The registers that a switch to another process saves.
#[derive(Copy, Clone, PartialEq, Eq, Debug)]
pub struct TaskContext {
    /// Where the process goes on.
    pub ra: u64,
    /// Its stack in the kernel.
    pub sp: u64,
    /// The registers that a call keeps.
    pub s: [u64; 12],
}

impl TaskContext {
    /// All registers zero.
    pub fn zero_init() -> (r: Self)
        ensures
            r.ra == 0,
            r.sp == 0,
            r.s@ == Seq::new(12, |i: int| 0u64),
    {
        let r: TaskContext = TaskContext { ra: 0, sp: 0, s: [0u64; 12] };
        assert(r.s@ =~= Seq::new(12, |i: int| 0u64));
        r
    }

    /// A process that leaves the kernel at `trap_return` when it is switched to, with its stack at
    /// `kstack_ptr`.
    pub fn goto_trap_return(kstack_ptr: u64, trap_return: u64) -> (r: Self)
        ensures
            r.ra == trap_return,
            r.sp == kstack_ptr,
            r.s@ == Seq::new(12, |i: int| 0u64),
    {
        let r: TaskContext = TaskContext { ra: trap_return, sp: kstack_ptr, s: [0u64; 12] };
        assert(r.s@ =~= Seq::new(12, |i: int| 0u64));
        r
    }
}

} // verus!
