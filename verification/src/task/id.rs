//! Numbers of processes and of kernel stacks.

use vstd::prelude::*;

use crate::mm::address::{PAGE_SIZE, TRAMPOLINE};

verus! {

/// Bytes of a kernel stack.
pub const KERNEL_STACK_SIZE: u64 = 8192;

/// Hands out numbers: those that came back first, the last one of them before the others, and then
/// those that were never handed out, in ascending order.
pub struct RecycleAllocator {
    current: usize,
    recycled: Vec<usize>,
}

impl RecycleAllocator {
    /// The first number that was never handed out.
    pub closed spec fn next(&self) -> int {
        self.current as int
    }

    /// The numbers that came back, in the order in which they came.
    pub closed spec fn returned(&self) -> Seq<usize> {
        self.recycled@
    }

    /// The number is handed out.
    pub open spec fn in_use(&self, id: int) -> bool {
        0 <= id < self.next() && !self.returned().contains(id as usize)
    }

    /// The number that is handed out next.
    pub open spec fn upcoming(&self) -> int {
        if self.returned().len() > 0 {
            self.returned().last() as int
        } else {
            self.next()
        }
    }

    /// No number came back twice, and only numbers that were handed out came back.
    pub open spec fn wf(&self) -> bool {
        &&& self.next() <= usize::MAX
        &&& self.returned().no_duplicates()
        &&& forall|i: int|
            0 <= i < self.returned().len() ==> #[trigger] self.returned()[i] < self.next()
    }

    /// An allocator that has not handed out any number.
    pub fn new() -> (r: Self)
        ensures
            r.wf(),
            r.next() == 0,
            r.returned() == Seq::<usize>::empty(),
    {
        RecycleAllocator { current: 0, recycled: Vec::new() }
    }

    /// What is left when the number that came next in `old` is handed out: the number that came back
    /// last is gone, or else the first one that was never handed out.
    pub open spec fn handed_out_of(&self, old: &Self) -> bool {
        if old.returned().len() > 0 {
            &&& self.returned() == old.returned().drop_last()
            &&& self.next() == old.next()
        } else {
            &&& self.returned() == old.returned()
            &&& self.next() == old.next() + 1
        }
    }

    /// The number that is handed out next.
    pub fn peek(&self) -> (r: usize)
        requires
            self.wf(),
        ensures
            r == self.upcoming(),
    {
        let n: usize = self.recycled.len();
        if n > 0 {
            self.recycled[n - 1]
        } else {
            self.current
        }
    }

    /// Hands out a number.
    pub fn allocate(&mut self) -> (r: usize)
        requires
            old(self).wf(),
            old(self).upcoming() < usize::MAX,
        ensures
            final(self).wf(),
            r == old(self).upcoming(),
            !old(self).in_use(r as int),
            forall|id: int| #[trigger] final(self).in_use(id) == (id == r || old(self).in_use(id)),
            final(self).handed_out_of(old(self)),
    {
        let ghost before = self.recycled@;
        let last: Option<usize> = self.recycled.pop();
        match last {
            Some(id) => {
                proof {
                    let n = before.len() - 1;
                    assert(self.recycled@ =~= before.drop_last());
                    assert(before[n] == id);
                    assert(before.contains(id));
                    assert forall|j: int| #[trigger] self.in_use(j) == (j == id || old(self).in_use(
                        j,
                    )) by {
                        let after = self.recycled@;
                        if after.contains(j as usize) {
                            let i = after.index_of(j as usize);
                            assert(before[i] == j as usize);
                        }
                        if before.contains(j as usize) {
                            let i = before.index_of(j as usize);
                            if i < n {
                                assert(after[i] == j as usize);
                            }
                        }
                    }
                }
                id
            },
            None => {
                assert(self.recycled@ =~= before);
                self.current = self.current + 1;
                self.current - 1
            },
        }
    }

    /// Takes back a number that is handed out.
    pub fn dealloc(&mut self, id: usize)
        requires
            old(self).wf(),
            old(self).in_use(id as int),
        ensures
            final(self).wf(),
            final(self).next() == old(self).next(),
            final(self).returned() == old(self).returned().push(id),
            forall|j: int| #[trigger] final(self).in_use(j) == (j != id && old(self).in_use(j)),
    {
        let ghost before = self.recycled@;
        self.recycled.push(id);
        proof {
            let after = self.recycled@;
            assert forall|j: int| #[trigger] self.in_use(j) == (j != id && old(self).in_use(j)) by {
                if before.contains(j as usize) {
                    let i = before.index_of(j as usize);
                    assert(after[i] == j as usize);
                }
                if after.contains(j as usize) {
                    let i = after.index_of(j as usize);
                    if i < before.len() {
                        assert(before[i] == j as usize);
                    }
                }
                assert(after[before.len() as int] == id);
            }
        }
    }
}

/// The number of a process.
#[derive(Debug)]
pub struct PidHandle(pub usize);

/// The kernel stack of a process, by its number.
#[derive(Debug)]
pub struct KernelStack(pub usize);

/// There is room for kernel stack `id` below the trampoline.
pub open spec fn stack_fits(id: int) -> bool {
    0 <= id && (id + 1) * 12288 <= 0x40_0000_0000
}

/// Where kernel stack `app_id` lies: its lowest address and the address behind it. The stacks lie
/// below the trampoline, and below each one page is left free.
pub fn kernel_stack_position(app_id: usize) -> (r: (u64, u64))
    requires
        stack_fits(app_id as int),
    ensures
        r.1 == TRAMPOLINE - app_id * 12288,
        r.0 == r.1 - 8192,
{
    let top: u64 = TRAMPOLINE - app_id as u64 * (KERNEL_STACK_SIZE + PAGE_SIZE);
    let bottom: u64 = top - KERNEL_STACK_SIZE;
    (bottom, top)
}

/// Kernel stacks do not overlap, and a page lies between two of them.
pub proof fn law_kernel_stacks_apart(a: int, b: int)
    requires
        stack_fits(a),
        stack_fits(b),
        a < b,
    ensures
        TRAMPOLINE - b * 12288 + 4096 <= TRAMPOLINE - a * 12288 - 8192,
{
}

impl KernelStack {
    /// The address behind the stack, where it starts to grow from.
    pub fn get_top(&self) -> (r: u64)
        requires
            stack_fits(self.0 as int),
        ensures
            r == TRAMPOLINE - self.0 * 12288,
    {
        let (_bottom, top) = kernel_stack_position(self.0);
        top
    }
}

} // verus!
