//! The registers that are saved when a program enters the kernel.

use riscv::register::sstatus::{Sstatus, SPP};
use vstd::prelude::*;

use crate::mm::address::PhysPageNum;
use crate::mm::frame_allocator::{word_at, Memory};

verus! {

/// The saved registers of a program, and what the way into the kernel needs to know.
#[derive(Copy, Clone, Debug)]
pub struct TrapContext {
    /// The general registers.
    pub x: [u64; 32],
    /// The status register.
    pub sstatus: u64,
    /// Where the program goes on.
    pub sepc: u64,
    /// The control register value for the address space of the kernel.
    pub kernel_satp: u64,
    /// The top of the kernel stack of the program.
    pub kernel_sp: u64,
    /// Where the kernel handles the entry.
    pub trap_handler: u64,
}

/// The bits of the status register that are known, without the one that says where the processor
/// came from.
pub const STATUS_MASK: u64 = 0x8000_0003_000d_e662;

/// The value of the status register with which a return leads to a program. Calls
/// `riscv::register::sstatus::Sstatus::set_spp` on a value that `Sstatus::from_bits` made, and gives
/// its `bits`; the source keeps the known bits and clears bit 8. The machine is taken to have words of
/// 64 bits.
#[verifier::external_body]
fn status_for_user(bits: u64) -> (r: u64)
    ensures
        r == bits & STATUS_MASK,
{
    let mut sstatus = Sstatus::from_bits(bits as usize);
    sstatus.set_spp(SPP::User);
    sstatus.bits() as u64
}

impl TrapContext {
    /// The words of the context as they lie in memory.
    pub open spec fn words(&self) -> Seq<u64> {
        self.x@ + seq![
            self.sstatus,
            self.sepc,
            self.kernel_satp,
            self.kernel_sp,
            self.trap_handler,
        ]
    }

    /// The context lies at the start of a page.
    pub open spec fn lies_in(&self, mem: Map<int, Seq<u8>>, ppn: int) -> bool {
        forall|i: int| 0 <= i < 37 ==> #[trigger] word_at(mem, ppn, i) == self.words()[i]
    }

    /// Sets the stack pointer.
    pub fn set_sp(&mut self, sp: u64)
        ensures
            final(self).x@ == old(self).x@.update(2, sp),
            final(self).sstatus == old(self).sstatus,
            final(self).sepc == old(self).sepc,
            final(self).kernel_satp == old(self).kernel_satp,
            final(self).kernel_sp == old(self).kernel_sp,
            final(self).trap_handler == old(self).trap_handler,
    {
        self.x[2] = sp;
    }

    /// The context with which a program starts at `entry`, with its stack at `sp`. `sstatus` is what
    /// the status register holds.
    pub fn app_init_context(
        entry: u64,
        sp: u64,
        kernel_satp: u64,
        kernel_sp: u64,
        trap_handler: u64,
        sstatus: u64,
    ) -> (r: Self)
        ensures
            r.x@ == Seq::new(32, |i: int| 0u64).update(2, sp),
            r.sstatus == sstatus & STATUS_MASK,
            r.sepc == entry,
            r.kernel_satp == kernel_satp,
            r.kernel_sp == kernel_sp,
            r.trap_handler == trap_handler,
    {
        let mut cx: TrapContext = TrapContext {
            x: [0u64; 32],
            sstatus: status_for_user(sstatus),
            sepc: entry,
            kernel_satp,
            kernel_sp,
            trap_handler,
        };
        cx.set_sp(sp);
        assert(cx.x@ =~= Seq::new(32, |i: int| 0u64).update(2, sp));
        cx
    }

    /// The context at the start of a page.
    pub fn load(ppn: PhysPageNum, memory: &Memory) -> (r: Self)
        requires
            memory@.dom().contains(ppn.0 as int),
        ensures
            r.lies_in(memory@, ppn.0 as int),
    {
        let mut x: [u64; 32] = [0u64; 32];
        let mut i: usize = 0;
        while i < 32
            invariant
                i <= 32,
                memory@.dom().contains(ppn.0 as int),
                forall|j: int| 0 <= j < i ==> #[trigger] x@[j] == word_at(memory@, ppn.0 as int, j),
            decreases 32 - i,
        {
            x[i] = memory.read_word(ppn, i);
            i += 1;
        }
        TrapContext {
            x,
            sstatus: memory.read_word(ppn, 32),
            sepc: memory.read_word(ppn, 33),
            kernel_satp: memory.read_word(ppn, 34),
            kernel_sp: memory.read_word(ppn, 35),
            trap_handler: memory.read_word(ppn, 36),
        }
    }

    /// Puts the context at the start of a page.
    pub fn store(&self, ppn: PhysPageNum, memory: &mut Memory)
        requires
            old(memory)@.dom().contains(ppn.0 as int),
        ensures
            self.lies_in(final(memory)@, ppn.0 as int),
            final(memory)@ == old(memory)@.insert(ppn.0 as int, final(memory)@[ppn.0 as int]),
            forall|i: int|
                37 <= i < 512 ==> #[trigger] word_at(final(memory)@, ppn.0 as int, i) == word_at(
                    old(memory)@,
                    ppn.0 as int,
                    i,
                ),
            final(memory).free() == old(memory).free(),
            final(memory).limit() == old(memory).limit(),
            final(memory).next_frame() == old(memory).next_frame(),
            old(memory).wf() ==> final(memory).wf(),
    {
        let ghost p = ppn.0 as int;
        let mut i: usize = 0;
        assert(memory@ =~= old(memory)@.insert(p, memory@[p]));
        while i < 37
            invariant
                i <= 37,
                p == ppn.0,
                old(memory)@.dom().contains(p),
                memory@ == old(memory)@.insert(p, memory@[p]),
                forall|j: int| 0 <= j < i ==> #[trigger] word_at(memory@, p, j) == self.words()[j],
                forall|j: int|
                    37 <= j < 512 ==> #[trigger] word_at(memory@, p, j) == word_at(
                        old(memory)@,
                        p,
                        j,
                    ),
                memory.free() == old(memory).free(),
                memory.limit() == old(memory).limit(),
                memory.next_frame() == old(memory).next_frame(),
                old(memory).wf() ==> memory.wf(),
            decreases 37 - i,
        {
            let word: u64 = if i < 32 {
                self.x[i]
            } else if i == 32 {
                self.sstatus
            } else if i == 33 {
                self.sepc
            } else if i == 34 {
                self.kernel_satp
            } else if i == 35 {
                self.kernel_sp
            } else {
                self.trap_handler
            };
            assert(word == self.words()[i as int]);
            memory.write_word(ppn, i, word);
            assert(memory@ =~= old(memory)@.insert(p, memory@[p]));
            i += 1;
        }
    }
}

/// The context that is taken from a page is the one that was put there.
pub proof fn law_context_comes_back(
    put: TrapContext,
    got: TrapContext,
    mem: Map<int, Seq<u8>>,
    ppn: int,
)
    requires
        put.lies_in(mem, ppn),
        got.lies_in(mem, ppn),
    ensures
        got.words() == put.words(),
        got.x@ == put.x@,
        got.sstatus == put.sstatus,
        got.sepc == put.sepc,
        got.kernel_satp == put.kernel_satp,
        got.kernel_sp == put.kernel_sp,
        got.trap_handler == put.trap_handler,
{
    assert forall|i: int| 0 <= i < 37 implies #[trigger] got.words()[i] == put.words()[i] by {
        assert(word_at(mem, ppn, i) == put.words()[i]);
    }
    assert(got.words() =~= put.words());
    assert forall|i: int| 0 <= i < 32 implies #[trigger] got.x@[i] == put.x@[i] by {
        assert(got.words()[i] == put.words()[i]);
    }
    assert(got.x@ =~= put.x@);
    assert(got.words()[32] == put.words()[32]);
    assert(got.words()[33] == put.words()[33]);
    assert(got.words()[34] == put.words()[34]);
    assert(got.words()[35] == put.words()[35]);
    assert(got.words()[36] == put.words()[36]);
}

} // verus!
