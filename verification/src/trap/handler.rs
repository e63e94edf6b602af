//! What the kernel does when a program enters it.

use vstd::arithmetic::div_mod::{lemma_div_pos_is_pos, lemma_fundamental_div_mod, lemma_mod_bound};
use vstd::prelude::*;

use super::cause::{cause_of, read_cause, ExceptionKind, TrapCause};
use crate::easy_fs::block_dev::BlockDevice;
use crate::kernel::exit::exited;
use crate::kernel::sched::same_things;
use crate::kernel::state::{lemma_kept, same_but, Kernel, IDLE_PID};
use crate::kernel::user::lemma_pages_changed;
use crate::mm::address::{PhysPageNum, TRAMPOLINE, TRAP_CONTEXT_BASE};
use crate::mm::frame_allocator::word_at;
use crate::syscall::process::{active, cur, same_rest};
use crate::task::task::{
    lemma_trap_page, TaskControlBlock, TaskControlBlockInner, TaskStatus,
};

verus! {

/// What is to be done after the kernel was entered.
#[derive(Debug)]
pub enum TrapStep {
    /// The program asks for something: the number of the request, and its arguments. The answer goes
    /// to `finish_syscall`.
    Syscall(u64, [u64; 4]),
    /// The process of this number was ended.
    Killed(usize),
    /// The process of this number waits; the timer is to be set again.
    Suspended(usize),
    /// The kernel does not know what to do.
    Unsupported,
}

/// An exception that ends the process, with this exit code.
pub open spec fn deadly(cause: TrapCause) -> Option<i32> {
    match cause {
        TrapCause::Exception(ExceptionKind::StoreFault) => Some((-2) as i32),
        TrapCause::Exception(ExceptionKind::StorePageFault) => Some((-2) as i32),
        TrapCause::Exception(ExceptionKind::InstructionFault) => Some((-2) as i32),
        TrapCause::Exception(ExceptionKind::InstructionPageFault) => Some((-2) as i32),
        TrapCause::Exception(ExceptionKind::LoadFault) => Some((-2) as i32),
        TrapCause::Exception(ExceptionKind::LoadPageFault) => Some((-2) as i32),
        TrapCause::Exception(ExceptionKind::IllegalInstruction) => Some((-3) as i32),
        _ => None,
    }
}

/// The program asks for something.
pub open spec fn is_request(cause: TrapCause) -> bool {
    cause == TrapCause::Exception(ExceptionKind::UserEnvCall)
}

/// Where the saved registers of the process that runs lie.
pub open spec fn context_page<D: BlockDevice>(k: &Kernel<D>) -> int {
    k.inner(cur(k)).trap_cx_ppn.0 as int
}

/// A saved register of the process that runs: the general registers come first, then the status
/// register, then the place where the program goes on.
pub open spec fn saved<D: BlockDevice>(k: &Kernel<D>, i: int) -> u64 {
    word_at(k.shared.memory@, context_page(k), i)
}

/// One saved register of the process that runs has changed, and nothing else.
pub open spec fn saved_changed<D: BlockDevice>(
    k0: &Kernel<D>,
    k1: &Kernel<D>,
    i: int,
    value: u64,
) -> bool {
    let page = context_page(k0);
    &&& same_but(k0, k1, cur(k0))
    &&& k1.tasks@ == k0.tasks@
    &&& same_rest(k0, k1)
    &&& k1.shared.memory@ == k0.shared.memory@.insert(page, k1.shared.memory@[page])
    &&& forall|j: int|
        0 <= j < 512 ==> #[trigger] word_at(k1.shared.memory@, page, j) == (if j == i {
            value
        } else {
            word_at(k0.shared.memory@, page, j)
        })
}

impl<D: BlockDevice> Kernel<D> {
    /// Changes a saved register of the process that runs.
    fn set_saved(&mut self, i: usize, value: u64)
        requires
            active(old(self)),
            i < 37,
        ensures
            active(final(self)),
            saved_changed(old(self), final(self), i as int, value),
    {
        let ghost k0 = *self;
        let pid: usize = self.current_task().unwrap();
        let ghost p = pid as int;
        assert(k0.has(p));
        assert(k0.inner(p).task_status == TaskStatus::Running);
        let task: TaskControlBlock = self.take_task(pid);
        let ppn: PhysPageNum = task.inner.trap_cx_ppn;
        proof {
            lemma_trap_page(&k0.space(p), &k0.shared.memory, ppn.0 as int);
        }
        self.shared.memory.write_word(ppn, i, value);
        self.put_task(pid, task);
        proof {
            assert(self.tasks@ =~= k0.tasks@);
            assert(self.tasks@ =~= k0.tasks@.update(p, Some(self.task(p))));
            assert(self.shared.memory@.dom() =~= k0.shared.memory@.dom());
            lemma_pages_changed(&k0.space(p), &k0.shared.memory, &self.shared.memory);
            assert forall|fd: int| 0 <= fd < self.inner(p).fd_table@.len() implies self.file_ok(
                #[trigger] self.inner(p).fd_table@[fd],
            ) by {
                assert(k0.file_ok(k0.inner(p).fd_table@[fd]));
            }
            lemma_kept(&k0, self, p);
        }
    }

    /// Finds out why a program entered the kernel, and does what can be done at once. `scause` is
    /// what the cause register holds.
    pub fn trap_handler(&mut self, scause: u64, big_stride: i64) -> (r: TrapStep)
        requires
            active(old(self)),
            big_stride >= 0,
            is_request(cause_of(scause)) ==> saved(old(self), 33) + 4 <= u64::MAX,
            deadly(cause_of(scause)) is Some ==> cur(old(self)) != IDLE_PID,
            cause_of(scause) == TrapCause::SupervisorTimer ==> ({
                let inner = old(self).inner(cur(old(self)));
                inner.stride + big_stride as int / inner.priority as int <= i64::MAX
            }),
        ensures
            final(self).wf(),
            handled(old(self), final(self), cause_of(scause), big_stride, r),
            // what ends a program that fails
            scause == 1 || scause == 5 || scause == 7 || scause == 12 || scause == 13 || scause == 15
                ==> r == TrapStep::Killed(cur(old(self)) as usize) && final(self).inner(
                cur(old(self)),
            ).task_status == TaskStatus::Zombie && final(self).inner(cur(old(self))).exit_code == -2
                && final(self).processor.running() is None,
            scause == 2 ==> r == TrapStep::Killed(cur(old(self)) as usize) && final(self).inner(
                cur(old(self)),
            ).task_status == TaskStatus::Zombie && final(self).inner(cur(old(self))).exit_code == -3
                && final(self).processor.running() is None,
    {
        let cause: TrapCause = read_cause(scause);
        match cause {
            TrapCause::Exception(ExceptionKind::UserEnvCall) => {
                let cx = self.current_trap_cx();
                let ghost page = context_page(self);
                proof {
                    assert(cx.words()[33] == saved(self, 33));
                    assert(cx.words()[17] == saved(self, 17));
                    assert(cx.words()[10] == saved(self, 10));
                    assert(cx.words()[11] == saved(self, 11));
                    assert(cx.words()[12] == saved(self, 12));
                    assert(cx.words()[13] == saved(self, 13));
                }
                self.set_saved(33, cx.sepc + 4);
                let args: [u64; 4] = [cx.x[10], cx.x[11], cx.x[12], cx.x[13]];
                TrapStep::Syscall(cx.x[17], args)
            },
            TrapCause::Exception(ExceptionKind::StoreFault)
            | TrapCause::Exception(ExceptionKind::StorePageFault)
            | TrapCause::Exception(ExceptionKind::InstructionFault)
            | TrapCause::Exception(ExceptionKind::InstructionPageFault)
            | TrapCause::Exception(ExceptionKind::LoadFault)
            | TrapCause::Exception(ExceptionKind::LoadPageFault) => {
                TrapStep::Killed(self.exit_current_and_run_next(-2))
            },
            TrapCause::Exception(ExceptionKind::IllegalInstruction) => {
                TrapStep::Killed(self.exit_current_and_run_next(-3))
            },
            TrapCause::SupervisorTimer => TrapStep::Suspended(self.tick(big_stride)),
            _ => TrapStep::Unsupported,
        }
    }

    /// Gives the answer to a request to the program that asked.
    pub fn finish_syscall(&mut self, result: i64)
        requires
            active(old(self)),
        ensures
            active(final(self)),
            saved_changed(old(self), final(self), 10, result as u64),
    {
        self.set_saved(10, result as u64);
    }

    /// What the way back to the program needs: the address of the code that leaves the kernel, that
    /// of the saved registers, and the value of the control register for the address space.
    /// `alltraps` and `restore` are where the code that enters and leaves the kernel was linked.
    pub fn trap_return(&self, alltraps: u64, restore: u64) -> (r: (u64, u64, u64))
        requires
            active(self),
            alltraps <= restore < alltraps + 4096,
        ensures
            r.0 == TRAMPOLINE + (restore - alltraps),
            r.1 == TRAP_CONTEXT_BASE,
            r.2 == 0x8000_0000_0000_0000 + self.space(cur(self)).root(),
    {
        let restore_va: u64 = restore - alltraps + TRAMPOLINE;
        (restore_va, TRAP_CONTEXT_BASE, self.current_user_token())
    }
}

/// What the kernel has done for each cause.
pub open spec fn handled<D: BlockDevice>(
    k0: &Kernel<D>,
    k1: &Kernel<D>,
    cause: TrapCause,
    big_stride: i64,
    r: TrapStep,
) -> bool {
    let pid = cur(k0);
    if is_request(cause) {
        &&& r matches TrapStep::Syscall(id, args)
        &&& id == saved(k0, 17)
        &&& args@ == seq![saved(k0, 10), saved(k0, 11), saved(k0, 12), saved(k0, 13)]
        &&& saved_changed(k0, k1, 33, (saved(k0, 33) + 4) as u64)
    } else if deadly(cause) is Some {
        &&& r == TrapStep::Killed(pid as usize)
        &&& k1.processor.running() is None
        &&& k1.manager.queue() == k0.manager.queue()
        &&& exited(k0, k1, pid, deadly(cause)->0)
    } else if cause == TrapCause::SupervisorTimer {
        let t = k0.task(pid);
        let stride = t.inner.stride + big_stride as int / t.inner.priority as int;
        &&& r == TrapStep::Suspended(pid as usize)
        &&& same_things(k0, k1)
        &&& k1.processor.running() is None
        &&& k1.manager.queue() == k0.manager.queue().push(pid as usize)
        &&& k1.tasks@ == k0.tasks@.update(
            pid,
            Some(
                TaskControlBlock {
                    inner: TaskControlBlockInner {
                        stride: stride as i64,
                        task_status: TaskStatus::Ready,
                        ..t.inner
                    },
                    ..t
                },
            ),
        )
    } else {
        r == TrapStep::Unsupported && *k1 == *k0
    }
}

/// What becomes of a program that enters the kernel, by the number in the cause register. It is ended
/// with exit code -2 where it reads, writes or fetches what it must not: numbers 1, 5, 7, 12, 13 and
/// 15. It is ended with -3 at an instruction that there is not: number 2. Number 8 is a request: it is
/// named in register 17, its arguments are in registers 10 to 13, and the program will go on at the
/// next instruction, four bytes behind. The timer, number 5 with the highest bit set, sends it to
/// the end of the queue, and it has come further by the share of the big stride that its
/// priority leaves it. At all other numbers the kernel gives up, and nothing has changed.
#[verifier::rlimit(40)]
pub proof fn law_each_cause_has_its_answer<D: BlockDevice>(
    k0: &Kernel<D>,
    k1: &Kernel<D>,
    scause: u64,
    big_stride: i64,
    r: TrapStep,
)
    requires
        active(k0),
        big_stride >= 0,
        handled(k0, k1, cause_of(scause), big_stride, r),
        scause == 8 ==> saved(k0, 33) + 4 <= u64::MAX,
        scause == 0x8000_0000_0000_0005 ==> ({
            let inner = k0.inner(cur(k0));
            inner.stride + big_stride as int / inner.priority as int <= i64::MAX
        }),
    ensures
        // what ends a program that fails
        scause == 1 || scause == 5 || scause == 7 || scause == 12 || scause == 13 || scause == 15
            ==> r == TrapStep::Killed(cur(k0) as usize) && k1.inner(
            cur(k0),
        ).task_status == TaskStatus::Zombie && k1.inner(cur(k0)).exit_code == -2
            && k1.processor.running() is None,
        scause == 2 ==> r == TrapStep::Killed(cur(k0) as usize) && k1.inner(
            cur(k0),
        ).task_status == TaskStatus::Zombie && k1.inner(cur(k0)).exit_code == -3
            && k1.processor.running() is None,
        scause == 8 ==> {
            let page = k0.inner(cur(k0)).trap_cx_ppn.0 as int;
            let m0 = k0.shared.memory@;
            let m1 = k1.shared.memory@;
            &&& r matches TrapStep::Syscall(id, args)
            &&& id == word_at(m0, page, 17)
            &&& args@[0] == word_at(m0, page, 10)
            &&& args@[1] == word_at(m0, page, 11)
            &&& args@[2] == word_at(m0, page, 12)
            &&& args@[3] == word_at(m0, page, 13)
            &&& word_at(m1, page, 33) == word_at(m0, page, 33) + 4
            &&& forall|j: int|
                0 <= j < 512 && j != 33 ==> #[trigger] word_at(m1, page, j) == word_at(m0, page, j)
            &&& forall|q: int| q != page ==> #[trigger] m1[q] == m0[q]
            &&& k1.tasks@ == k0.tasks@
            &&& k1.processor == k0.processor
            &&& k1.manager == k0.manager
        },
        scause == 0x8000_0000_0000_0005 ==> {
            let t0 = k0.inner(cur(k0));
            let t1 = k1.inner(cur(k0));
            let step = t1.stride - t0.stride;
            &&& r == TrapStep::Suspended(cur(k0) as usize)
            &&& t1.task_status == TaskStatus::Ready
            &&& k1.processor.running() is None
            &&& k1.manager.queue() == k0.manager.queue().push(cur(k0) as usize)
            &&& step * t0.priority <= big_stride
            &&& big_stride < (step + 1) * t0.priority
            &&& t1.priority == t0.priority
            &&& k1.shared == k0.shared
            &&& forall|j: int| #[trigger]
                k0.has(j) && j != cur(k0) ==> k1.has(j) && k1.task(j) == k0.task(j)
        },
        scause != 1 && scause != 2 && scause != 5 && scause != 7 && scause != 8 && scause != 12
            && scause != 13 && scause != 15 && scause != 0x8000_0000_0000_0005 ==> r
            == TrapStep::Unsupported && *k1 == *k0,
{
    let pid = cur(k0);
    assert(k0.has(pid));
    let prio = k0.inner(pid).priority as int;
    lemma_fundamental_div_mod(big_stride as int, prio);
    lemma_div_pos_is_pos(big_stride as int, prio);
    lemma_mod_bound(big_stride as int, prio);
    let q = big_stride as int / prio;
    assert(q * prio == prio * q && (q + 1) * prio == prio * q + prio) by (nonlinear_arith);
    if scause == 8 {
        assert(context_page(k0) == k0.inner(pid).trap_cx_ppn.0 as int);
        assert forall|q: int| q != context_page(k0) implies #[trigger] k1.shared.memory@[q]
            == k0.shared.memory@[q] by {}
    }
    if scause == 0x8000_0000_0000_0005 {
        assert forall|j: int| #[trigger] k0.has(j) && j != pid implies k1.has(j) && k1.task(j)
            == k0.task(j) by {
            assert(k1.tasks@[j] == k0.tasks@[j]);
        }
    }
}

/// The handler does for each number in the cause register what it has to do: programs that fail are
/// ended with -2, or with -3 for an instruction that there is not; requests are passed on; the timer sends
/// the program to the end of the queue; all else is given up.
pub proof fn law_trap_handler<D: BlockDevice>(
    k0: Kernel<D>,
    k1: Kernel<D>,
    scause: u64,
    big_stride: i64,
    r: TrapStep,
)
    requires
        exists|k: &mut Kernel<D>| #[trigger]
            call_ensures(Kernel::<D>::trap_handler, (k, scause, big_stride), r) && *k == k0
                && *final(k) == k1,
        active(&k0),
        big_stride >= 0,
        scause == 8 ==> word_at(
            k0.shared.memory@,
            k0.inner(cur(&k0)).trap_cx_ppn.0 as int,
            33,
        ) + 4 <= u64::MAX,
        scause == 0x8000_0000_0000_0005 ==> ({
            let inner = k0.inner(cur(&k0));
            inner.stride + big_stride as int / inner.priority as int <= i64::MAX
        }),
    ensures
        // what ends a program that fails
        scause == 1 || scause == 5 || scause == 7 || scause == 12 || scause == 13 || scause == 15
            ==> r == TrapStep::Killed(cur(&k0) as usize) && k1.inner(
            cur(&k0),
        ).task_status == TaskStatus::Zombie && k1.inner(cur(&k0)).exit_code == -2
            && k1.processor.running() is None,
        scause == 2 ==> r == TrapStep::Killed(cur(&k0) as usize) && k1.inner(
            cur(&k0),
        ).task_status == TaskStatus::Zombie && k1.inner(cur(&k0)).exit_code == -3
            && k1.processor.running() is None,
        scause == 8 ==> {
            let page = k0.inner(cur(&k0)).trap_cx_ppn.0 as int;
            let m0 = k0.shared.memory@;
            let m1 = k1.shared.memory@;
            &&& r matches TrapStep::Syscall(id, args)
            &&& id == word_at(m0, page, 17)
            &&& args@[0] == word_at(m0, page, 10)
            &&& args@[1] == word_at(m0, page, 11)
            &&& args@[2] == word_at(m0, page, 12)
            &&& args@[3] == word_at(m0, page, 13)
            &&& word_at(m1, page, 33) == word_at(m0, page, 33) + 4
            &&& forall|j: int|
                0 <= j < 512 && j != 33 ==> #[trigger] word_at(m1, page, j) == word_at(m0, page, j)
            &&& forall|q: int| q != page ==> #[trigger] m1[q] == m0[q]
            &&& k1.tasks@ == k0.tasks@
            &&& k1.processor == k0.processor
            &&& k1.manager == k0.manager
        },
        scause == 0x8000_0000_0000_0005 ==> {
            let t0 = k0.inner(cur(&k0));
            let t1 = k1.inner(cur(&k0));
            let step = t1.stride - t0.stride;
            &&& r == TrapStep::Suspended(cur(&k0) as usize)
            &&& t1.task_status == TaskStatus::Ready
            &&& k1.processor.running() is None
            &&& k1.manager.queue() == k0.manager.queue().push(cur(&k0) as usize)
            &&& step * t0.priority <= big_stride
            &&& big_stride < (step + 1) * t0.priority
            &&& t1.priority == t0.priority
            &&& k1.shared == k0.shared
            &&& forall|j: int| #[trigger]
                k0.has(j) && j != cur(&k0) ==> k1.has(j) && k1.task(j) == k0.task(j)
        },
        scause != 1 && scause != 2 && scause != 5 && scause != 7 && scause != 8 && scause != 12
            && scause != 13 && scause != 15 && scause != 0x8000_0000_0000_0005 ==> r
            == TrapStep::Unsupported && k1 == k0,
{
    law_each_cause_has_its_answer(&k0, &k1, scause, big_stride, r);
}

/// The answer to a request goes to register 10 of the program that asked; its other registers and all
/// other memory stay as they are.
pub proof fn law_finish_syscall<D: BlockDevice>(k0: Kernel<D>, k1: Kernel<D>, result: i64)
    requires
        exists|k: &mut Kernel<D>| #[trigger]
            call_ensures(Kernel::<D>::finish_syscall, (k, result), ()) && *k == k0 && *final(k) == k1,
        active(&k0),
    ensures
        ({
            let page = k0.inner(cur(&k0)).trap_cx_ppn.0 as int;
            let m0 = k0.shared.memory@;
            let m1 = k1.shared.memory@;
            &&& word_at(m1, page, 10) == result as u64
            &&& forall|j: int|
                0 <= j < 512 && j != 10 ==> #[trigger] word_at(m1, page, j) == word_at(m0, page, j)
            &&& forall|q: int| q != page ==> #[trigger] m1[q] == m0[q]
            &&& k1.tasks@ == k0.tasks@
            &&& k1.processor == k0.processor
        }),
{
}

/// The way back to a program leads through the trampoline, the highest page, at the place of the code
/// that leaves the kernel; the saved registers are in the page below it, and the control register
/// gets the page table of the program.
pub proof fn law_trap_return<D: BlockDevice>(
    k: Kernel<D>,
    alltraps: u64,
    restore: u64,
    r: (u64, u64, u64),
)
    requires
        call_ensures(Kernel::<D>::trap_return, (&k, alltraps, restore), r),
        alltraps <= restore < alltraps + 4096,
    ensures
        r.0 - restore == 0xffff_ffff_ffff_f000 - alltraps,
        r.1 == 0xffff_ffff_ffff_e000,
        r.2 == 0x8000_0000_0000_0000 + k.inner(cur(&k)).memory_set.root(),
{
}

/// A part of the kernel in memory.
#[derive(Copy, Clone, PartialEq, Eq, Structural, Debug)]
pub enum KernelPart {
    Text,
    Rodata,
    Bss,
    Elsewhere,
}

/// Where the parts of the kernel lie that are told apart when an access fails.
#[derive(Copy, Clone, Debug)]
pub struct FaultMap {
    pub stext: u64,
    pub etext: u64,
    pub srodata: u64,
    pub erodata: u64,
    pub sbss: u64,
    pub ebss: u64,
}

/// The part of the kernel to which an access failed.
pub fn fault_place(stval: u64, parts: &FaultMap) -> (r: KernelPart)
    ensures
        r == (if parts.stext <= stval < parts.etext {
            KernelPart::Text
        } else if parts.srodata <= stval < parts.erodata {
            KernelPart::Rodata
        } else if parts.sbss <= stval < parts.ebss {
            KernelPart::Bss
        } else {
            KernelPart::Elsewhere
        }),
{
    if stval >= parts.stext && stval < parts.etext {
        KernelPart::Text
    } else if stval >= parts.srodata && stval < parts.erodata {
        KernelPart::Rodata
    } else if stval >= parts.sbss && stval < parts.ebss {
        KernelPart::Bss
    } else {
        KernelPart::Elsewhere
    }
}

/// A failed access is placed in the part of the kernel whose addresses it lies among.
pub proof fn law_fault_place(stval: u64, parts: &FaultMap, r: KernelPart)
    requires
        call_ensures(fault_place, (stval, parts), r),
    ensures
        r is Text <==> parts.stext <= stval < parts.etext,
        r is Rodata ==> parts.srodata <= stval < parts.erodata,
        r is Bss ==> parts.sbss <= stval < parts.ebss,
        r is Elsewhere <==> !(parts.stext <= stval < parts.etext) && !(parts.srodata <= stval
            < parts.erodata) && !(parts.sbss <= stval < parts.ebss),
{
}

} // verus!
