//! Processes.

use core::mem::swap;
use vstd::prelude::*;

use super::context::TaskContext;
use super::heap::{brk_moved, heap_at_brk, lemma_heap_area_kept};
use super::id::{stack_fits, KernelStack, PidHandle};
use super::shared::{
    lemma_bystander, lemma_only_again, lemma_only_built, lemma_only_page, lemma_only_then,
    lemma_shared_kept, only, Shared,
};
use crate::fs::file::{first_files, FileRef};
use crate::mm::address::{PhysPageNum, VirtAddr, VirtPageNum, TRAMPOLINE, TRAP_CONTEXT_BASE};
use crate::mm::elf::{entry_of, loadable, program_plans, segments_of, stack_top};
use crate::mm::frame_allocator::{word_at, Memory};
use crate::mm::map_area::{area_ok, frame_ok, lemma_valid_frames, pages, AreaView};
use crate::mm::memory_set::{
    area_at, can_append, can_unmap, lost_pages, MemorySet, TRAP_CONTEXT_VPN,
};
use crate::mm::page_table::{leaf, pte_ppn, PageTableEntry};
use crate::mm::plan::{lemma_fits, pieces_of};
use crate::mm::space::{
    built, built_but, complete, copies, cost_of, has_frame, lemma_built_but, lemma_frame_changed,
    lemma_hole_changed, piece_done, Piece,
};
use crate::mm::stray::{areas_only, lemma_areas_only_built};
use crate::trap::context::{TrapContext, STATUS_MASK};

verus! {

/// What a process is doing.
#[derive(Copy, Clone, PartialEq, Eq, Structural, Debug)]
pub enum TaskStatus {
    /// It is being made.
    UnInit,
    /// It can run.
    Ready,
    /// It runs.
    Running,
    /// It has ended.
    Zombie,
}

/// A process.
pub struct TaskControlBlock {
    /// Its number.
    pub pid: PidHandle,
    /// Its stack in the kernel.
    pub kernel_stack: KernelStack,
    /// What changes while it lives.
    pub inner: TaskControlBlockInner,
}

/// What changes of a process while it lives.
pub struct TaskControlBlockInner {
    /// How much it runs, compared with others.
    pub priority: i64,
    /// How far it has come.
    pub stride: i64,
    /// The physical page of its saved registers.
    pub trap_cx_ppn: PhysPageNum,
    /// The top of its stack when it was loaded.
    pub base_size: u64,
    /// Its registers in the kernel while it does not run.
    pub task_cx: TaskContext,
    /// What it is doing.
    pub task_status: TaskStatus,
    /// Its address space.
    pub memory_set: MemorySet,
    /// The process that made it, or took it over.
    pub parent: Option<usize>,
    /// The processes that it made or took over and has not waited for.
    pub children: Vec<usize>,
    /// What it said when it ended.
    pub exit_code: i32,
    /// Its open files.
    pub fd_table: Vec<Option<FileRef>>,
    /// Where its heap starts.
    pub heap_bottom: u64,
    /// Where its heap ends.
    pub program_brk: u64,
}

impl TaskControlBlockInner {
    /// The address space is in order, its areas map all that is mapped but the trampoline, and the page
    /// of the saved registers belongs to it.
    pub open spec fn loaded(&self, memory: &Memory) -> bool {
        &&& self.memory_set.wf(memory)
        &&& areas_only(&self.memory_set, memory)
        &&& has_frame(&self.memory_set, TRAP_CONTEXT_VPN as int, self.trap_cx_ppn.0 as int)
    }

    /// The saved registers.
    pub fn get_trap_cx(&self, memory: &Memory) -> (r: TrapContext)
        requires
            self.loaded(memory),
        ensures
            r.lies_in(memory@, self.trap_cx_ppn.0 as int),
    {
        proof {
            lemma_trap_page(&self.memory_set, memory, self.trap_cx_ppn.0 as int);
        }
        TrapContext::load(self.trap_cx_ppn, memory)
    }

    /// The value of the control register for the address space.
    pub fn get_user_token(&self) -> (r: u64)
        requires
            0 <= self.memory_set.root() < 0x1000_0000_0000,
        ensures
            r == 0x8000_0000_0000_0000 + self.memory_set.root(),
    {
        self.memory_set.token()
    }

    /// What the process is doing.
    pub fn get_status(&self) -> (r: TaskStatus)
        ensures
            r == self.task_status,
    {
        self.task_status
    }

    /// Whether the process has ended.
    pub fn is_zombie(&self) -> (r: bool)
        ensures
            r == (self.task_status == TaskStatus::Zombie),
    {
        self.get_status() == TaskStatus::Zombie
    }

    /// The lowest descriptor that is not in use; the list grows if all are.
    pub fn alloc_fd(&mut self) -> (r: usize)
        requires
            old(self).fd_table@.len() < usize::MAX,
        ensures
            r == free_fd(old(self).fd_table@),
            r <= old(self).fd_table@.len(),
            final(self).fd_table@ == (if r < old(self).fd_table@.len() {
                old(self).fd_table@
            } else {
                old(self).fd_table@.push(None)
            }),
            *final(self) == (TaskControlBlockInner { fd_table: final(self).fd_table, ..*old(self) }),
    {
        let mut fd: usize = 0;
        while fd < self.fd_table.len()
            invariant
                fd <= self.fd_table@.len(),
                *self == *old(self),
                forall|i: int| 0 <= i < fd ==> #[trigger] self.fd_table@[i] is Some,
            decreases self.fd_table@.len() - fd,
        {
            if self.fd_table[fd].is_none() {
                proof {
                    lemma_free_fd(self.fd_table@, fd as int);
                }
                return fd;
            }
            fd += 1;
        }
        proof {
            lemma_free_fd(self.fd_table@, fd as int);
        }
        self.fd_table.push(None);
        self.fd_table.len() - 1
    }
}

/// The lowest descriptor that is not in use, or the length of the list.
pub open spec fn free_fd(table: Seq<Option<FileRef>>) -> int
    decreases table.len(),
{
    if table.len() == 0 || table[0] is None {
        0
    } else {
        1 + free_fd(table.drop_first())
    }
}

proof fn lemma_free_fd(table: Seq<Option<FileRef>>, fd: int)
    requires
        0 <= fd <= table.len(),
        forall|i: int| 0 <= i < fd ==> #[trigger] table[i] is Some,
        fd == table.len() || table[fd] is None,
    ensures
        free_fd(table) == fd,
    decreases fd,
{
    if fd > 0 {
        assert(table[0] is Some);
        let t = table.drop_first();
        assert forall|i: int| 0 <= i < fd - 1 implies #[trigger] t[i] is Some by {
            assert(t[i] == table[i + 1]);
        }
        lemma_free_fd(t, fd - 1);
    }
}

/// The page of the saved registers is a page of memory that is taken and is no table.
pub proof fn lemma_trap_page(ms: &MemorySet, memory: &Memory, p: int)
    requires
        ms.wf(memory),
        has_frame(ms, TRAP_CONTEXT_VPN as int, p),
    ensures
        memory@.dom().contains(p),
        !memory.free().contains(p),
        ms.owned().contains(p),
        !ms.page_table.tables().contains(p),
{
    let v = TRAP_CONTEXT_VPN as int;
    let k = choose|k: int|
        0 <= k < ms.views().len() && (#[trigger] ms.views()[k]).frames.dom().contains(v)
            && ms.views()[k].frames[v] == p;
    assert(area_ok(ms.views()[k], &ms.page_table, memory));
    assert(frame_ok(ms.views()[k], v, &ms.page_table, memory));
    assert(ms.views()[k].owned().contains(p));
}

/// The saved registers in a page, as words.
pub open spec fn context_at(mem: Map<int, Seq<u8>>, ppn: int) -> Seq<u64> {
    Seq::new(37, |i: int| word_at(mem, ppn, i))
}

/// The saved registers with which a program starts, as words.
pub open spec fn start_words(
    entry: u64,
    sp: u64,
    kernel_satp: u64,
    kernel_sp: u64,
    trap_handler: u64,
    sstatus: u64,
) -> Seq<u64> {
    Seq::new(32, |i: int| 0u64).update(2, sp) + seq![
        sstatus & STATUS_MASK,
        entry,
        kernel_satp,
        kernel_sp,
        trap_handler,
    ]
}

/// The address behind kernel stack `id`.
pub open spec fn stack_end(id: int) -> int {
    TRAMPOLINE - id * 12288
}

/// A process can be made: there is a number for it and a place for its kernel stack.
pub open spec fn has_numbers(s: &Shared) -> bool {
    &&& s.pids.upcoming() < usize::MAX
    &&& s.has_stack_place()
}

/// A process can be made that runs a program file.
pub open spec fn can_start(s: &Shared, file: Seq<u8>) -> bool {
    &&& has_numbers(s)
    &&& loadable(file, s.memory.free().len() - s.stack_cost())
}

/// The process was just made. Its frames were free before.
pub open spec fn newborn(
    t: &TaskControlBlock,
    parent: Option<usize>,
    s0: &Shared,
    s: &Shared,
) -> bool {
    let inner = t.inner;
    &&& t.pid.0 == s0.pids.upcoming()
    &&& t.kernel_stack.0 == s0.kstacks.upcoming()
    &&& inner.priority == 16
    &&& inner.stride == 0
    &&& inner.task_cx.ra == s0.entry.trap_return
    &&& inner.task_cx.sp == stack_end(t.kernel_stack.0 as int)
    &&& inner.task_cx.s@ == Seq::new(12, |i: int| 0u64)
    &&& inner.task_status == TaskStatus::Ready
    &&& inner.parent == parent
    &&& inner.children@ == Seq::<usize>::empty()
    &&& inner.exit_code == 0
    &&& s.wf()
    &&& numbers_taken(s0, s, t.pid.0, t.kernel_stack.0)
    &&& only(
        &s0.memory,
        &s.memory,
        s0.kernel_space.owned(),
        s.kernel_space.owned().union(inner.memory_set.owned()),
    )
    &&& inner.memory_set.owned().subset_of(s0.memory.free())
    &&& inner.memory_set.owned().disjoint(s.kernel_space.owned())
}

/// The numbers of one process and of one kernel stack were handed out.
pub open spec fn numbers_taken(s0: &Shared, s: &Shared, pid: usize, kstack: usize) -> bool {
    &&& pid == s0.pids.upcoming()
    &&& !s0.pids.in_use(pid as int)
    &&& forall|id: int| #[trigger] s.pids.in_use(id) == (id == pid || s0.pids.in_use(id))
    &&& s.pids.handed_out_of(&s0.pids)
    &&& kstack == s0.kstacks.upcoming()
    &&& s.kstacks.handed_out_of(&s0.kstacks)
    &&& !s0.kstacks.in_use(kstack as int)
    &&& forall|id: int| #[trigger] s.kstacks.in_use(id) == (id == kstack || s0.kstacks.in_use(id))
    &&& s.entry == s0.entry
}

/// The process is about to start the program of a file.
pub open spec fn runs_file(
    inner: &TaskControlBlockInner,
    file: Seq<u8>,
    kstack: int,
    s: &Shared,
) -> bool {
    let segments = segments_of(file);
    &&& inner.loaded(&s.memory)
    &&& built_but(
        &inner.memory_set,
        pieces_of(program_plans(segments), file),
        s.entry.strampoline,
        &s.memory,
        TRAP_CONTEXT_VPN as int,
    )
    &&& context_at(s.memory@, inner.trap_cx_ppn.0 as int) == start_words(
        entry_of(file),
        stack_top(segments) as u64,
        (0x8000_0000_0000_0000 + s.kernel_space.root()) as u64,
        stack_end(kstack) as u64,
        s.entry.trap_handler,
        s.entry.sstatus,
    )
}

impl TaskControlBlock {
    /// The number of the process.
    pub fn getpid(&self) -> (r: usize)
        ensures
            r == self.pid.0,
    {
        self.pid.0
    }

    /// The value of the control register for the address space.
    pub fn get_user_token(&self) -> (r: u64)
        requires
            0 <= self.inner.memory_set.root() < 0x1000_0000_0000,
        ensures
            r == 0x8000_0000_0000_0000 + self.inner.memory_set.root(),
    {
        self.inner.get_user_token()
    }

    /// A process without a parent that is about to start the program of a file.
    pub fn new(elf_data: &[u8], shared: &mut Shared) -> (r: Self)
        requires
            old(shared).wf(),
            can_start(old(shared), elf_data@),
        ensures
            newborn(&r, None, old(shared), final(shared)),
            runs_file(&r.inner, elf_data@, r.kernel_stack.0 as int, final(shared)),
            r.inner.fd_table@ == first_files(),
            r.inner.base_size == stack_top(segments_of(elf_data@)),
            r.inner.heap_bottom == r.inner.base_size,
            r.inner.program_brk == r.inner.base_size,
    {
        Self::load(elf_data, None, shared)
    }

    /// A child that is about to start the program of a file.
    pub fn spawn(&mut self, elf_data: &[u8], shared: &mut Shared) -> (r: Self)
        requires
            old(shared).wf(),
            can_start(old(shared), elf_data@),
        ensures
            newborn(&r, Some(old(self).pid.0), old(shared), final(shared)),
            runs_file(&r.inner, elf_data@, r.kernel_stack.0 as int, final(shared)),
            r.inner.fd_table@ == first_files(),
            r.inner.base_size == stack_top(segments_of(elf_data@)),
            r.inner.heap_bottom == r.inner.base_size,
            r.inner.program_brk == r.inner.base_size,
            with_child(old(self), final(self), r.pid.0),
    {
        let child: TaskControlBlock = Self::load(elf_data, Some(self.pid.0), shared);
        self.inner.children.push(child.pid.0);
        child
    }

    /// A process that is about to start the program of a file.
    fn load(elf_data: &[u8], parent: Option<usize>, shared: &mut Shared) -> (r: Self)
        requires
            old(shared).wf(),
            can_start(old(shared), elf_data@),
        ensures
            newborn(&r, parent, old(shared), final(shared)),
            runs_file(&r.inner, elf_data@, r.kernel_stack.0 as int, final(shared)),
            r.inner.fd_table@ == first_files(),
            r.inner.base_size == stack_top(segments_of(elf_data@)),
            r.inner.heap_bottom == r.inner.base_size,
            r.inner.program_brk == r.inner.base_size,
    {
        let ghost s0 = *shared;
        let ghost file = elf_data@;
        let ghost plans = program_plans(segments_of(file));
        let ghost pieces = pieces_of(plans, file);
        proof {
            lemma_fits(
                plans,
                file,
                s0.memory.free().len() - s0.stack_cost(),
                s0.memory.free().len() as int,
            );
        }
        let strampoline: u64 = shared.entry.strampoline;
        let (memory_set, user_sp, entry_point) = MemorySet::from_elf(
            elf_data,
            strampoline,
            &mut shared.memory,
        );
        let ghost s1 = *shared;
        proof {
            lemma_only_built(&memory_set, pieces, strampoline, &s0.memory, &s1.memory);
            lemma_shared_kept(&s0, &s1, Set::empty(), memory_set.owned());
            lemma_built_but(
                &memory_set,
                pieces,
                strampoline,
                &s0.memory,
                &s1.memory,
                TRAP_CONTEXT_VPN as int,
            );
            assert(piece_done(&memory_set, pieces, pieces.len() - 1, &s1.memory));
            lemma_program_trap_page(&memory_set, file, &s1.memory);
        }
        let trap_cx_ppn: PhysPageNum = Self::trap_page(&memory_set, &shared.memory);
        let pid: PidHandle = shared.pid_alloc();
        let ghost s2 = *shared;
        let kernel_stack: KernelStack = shared.kstack_alloc();
        let kernel_stack_top: u64 = kernel_stack.get_top();
        let ghost s3 = *shared;
        let ghost p = trap_cx_ppn.0 as int;
        proof {
            lemma_bystander(
                &memory_set,
                &s2.memory,
                &s3.memory,
                s2.kernel_space.owned(),
                s3.kernel_space.owned(),
            );
            lemma_trap_page(&memory_set, &s3.memory, p);
            shared.kernel_space.lemma_wf(&shared.memory);
        }
        let cx: TrapContext = TrapContext::app_init_context(
            entry_point,
            user_sp,
            shared.kernel_space.token(),
            kernel_stack_top,
            shared.entry.trap_handler,
            shared.entry.sstatus,
        );
        cx.store(trap_cx_ppn, &mut shared.memory);
        let ghost s4 = *shared;
        let mut fd_table: Vec<Option<FileRef>> = Vec::new();
        fd_table.push(Some(FileRef::Stdin));
        fd_table.push(Some(FileRef::Stdout));
        fd_table.push(Some(FileRef::Stdout));
        proof {
            assert(fd_table@ =~= first_files());
            lemma_placed(&memory_set, pieces, &s0, &s1, &s3, &s4, p);
            assert(context_at(s4.memory@, p) =~= cx.words());
            assert(context_at(s4.memory@, p) =~= start_words(
                entry_point,
                user_sp,
                (0x8000_0000_0000_0000 + s4.kernel_space.root()) as u64,
                kernel_stack_top,
                s4.entry.trap_handler,
                s4.entry.sstatus,
            ));
        }
        TaskControlBlock {
            pid,
            kernel_stack,
            inner: TaskControlBlockInner {
                priority: 16,
                stride: 0,
                trap_cx_ppn,
                base_size: user_sp,
                task_cx: TaskContext::goto_trap_return(kernel_stack_top, shared.entry.trap_return),
                task_status: TaskStatus::Ready,
                memory_set,
                parent,
                children: Vec::new(),
                exit_code: 0,
                fd_table,
                heap_bottom: user_sp,
                program_brk: user_sp,
            },
        }
    }

    /// Replaces the program by that of a file. What the old one had is given back.
    pub fn exec(&mut self, elf_data: &[u8], shared: &mut Shared)
        requires
            old(shared).wf(),
            old(self).inner.memory_set.wf(&old(shared).memory),
            old(self).inner.memory_set.owned().disjoint(old(shared).kernel_space.owned()),
            stack_fits(old(self).kernel_stack.0 as int),
            loadable(elf_data@, old(shared).memory.free().len() as int),
        ensures
            final(shared).wf(),
            runs_file(
                &final(self).inner,
                elf_data@,
                old(self).kernel_stack.0 as int,
                final(shared),
            ),
            *final(self) == (TaskControlBlock {
                inner: TaskControlBlockInner {
                    memory_set: final(self).inner.memory_set,
                    trap_cx_ppn: final(self).inner.trap_cx_ppn,
                    ..old(self).inner
                },
                ..*old(self)
            }),
            final(shared).kernel_space == old(shared).kernel_space,
            final(shared).pids == old(shared).pids,
            final(shared).kstacks == old(shared).kstacks,
            final(shared).entry == old(shared).entry,
            final(self).inner.memory_set.owned().subset_of(old(shared).memory.free()),
            only(
                &old(shared).memory,
                &final(shared).memory,
                old(self).inner.memory_set.owned(),
                final(self).inner.memory_set.owned(),
            ),
    {
        let ghost s0 = *shared;
        let ghost file = elf_data@;
        let ghost old_ms = self.inner.memory_set;
        let ghost pieces = pieces_of(program_plans(segments_of(file)), file);
        let strampoline: u64 = shared.entry.strampoline;
        let (memory_set, user_sp, entry_point) = MemorySet::from_elf(
            elf_data,
            strampoline,
            &mut shared.memory,
        );
        let ghost s1 = *shared;
        proof {
            lemma_only_built(&memory_set, pieces, strampoline, &s0.memory, &s1.memory);
            lemma_shared_kept(&s0, &s1, Set::empty(), memory_set.owned());
            lemma_built_but(
                &memory_set,
                pieces,
                strampoline,
                &s0.memory,
                &s1.memory,
                TRAP_CONTEXT_VPN as int,
            );
            assert(piece_done(&memory_set, pieces, pieces.len() - 1, &s1.memory));
            lemma_program_trap_page(&memory_set, file, &s1.memory);
            lemma_bystander(&old_ms, &s0.memory, &s1.memory, Set::empty(), memory_set.owned());
        }
        let trap_cx_ppn: PhysPageNum = Self::trap_page(&memory_set, &shared.memory);
        let ghost p = trap_cx_ppn.0 as int;
        let ghost ms = memory_set;
        let mut other: MemorySet = memory_set;
        swap(&mut self.inner.memory_set, &mut other);
        self.inner.trap_cx_ppn = trap_cx_ppn;
        other.release(&mut shared.memory);
        let ghost s2 = *shared;
        proof {
            assert(s2.memory.free().union(Set::empty()) =~= s1.memory.free().union(old_ms.owned()));
            assert(only(&s1.memory, &s2.memory, old_ms.owned(), Set::empty()));
            lemma_shared_kept(&s1, &s2, old_ms.owned(), Set::empty());
            lemma_bystander(&ms, &s1.memory, &s2.memory, old_ms.owned(), Set::empty());
            lemma_hole_changed(
                &ms,
                pieces,
                strampoline,
                &s1.memory,
                &s2.memory,
                TRAP_CONTEXT_VPN as int,
                p,
            );
            lemma_trap_page(&ms, &s2.memory, p);
            shared.kernel_space.lemma_wf(&shared.memory);
        }
        let kernel_stack_top: u64 = self.kernel_stack.get_top();
        let cx: TrapContext = TrapContext::app_init_context(
            entry_point,
            user_sp,
            shared.kernel_space.token(),
            kernel_stack_top,
            shared.entry.trap_handler,
            shared.entry.sstatus,
        );
        cx.store(trap_cx_ppn, &mut shared.memory);
        let ghost s3 = *shared;
        proof {
            lemma_frame_changed(ms, s2.memory, s3.memory, p);
            lemma_only_page(&ms, &s2.memory, &s3.memory, p);
            lemma_shared_kept(&s2, &s3, ms.owned(), ms.owned());
            lemma_hole_changed(
                &ms,
                pieces,
                strampoline,
                &s2.memory,
                &s3.memory,
                TRAP_CONTEXT_VPN as int,
                p,
            );
            lemma_areas_only_built(
                &ms,
                pieces,
                strampoline,
                &s3.memory,
                TRAP_CONTEXT_VPN as int,
            );
            lemma_only_then(
                &s0.memory,
                &s1.memory,
                &s2.memory,
                Set::empty(),
                ms.owned(),
                old_ms.owned(),
                Set::empty(),
            );
            assert(Set::<int>::empty().union(old_ms.owned()) =~= old_ms.owned());
            assert(ms.owned().union(Set::empty()) =~= ms.owned());
            lemma_only_again(
                &s0.memory,
                &s2.memory,
                &s3.memory,
                old_ms.owned(),
                ms.owned(),
                ms.owned(),
            );
            assert(context_at(s3.memory@, p) =~= cx.words());
            assert(context_at(s3.memory@, p) =~= start_words(
                entry_point,
                user_sp,
                (0x8000_0000_0000_0000 + s3.kernel_space.root()) as u64,
                kernel_stack_top,
                s3.entry.trap_handler,
                s3.entry.sstatus,
            ));
        }
    }

    /// A child with a copy of the address space and the same open files. When it runs, it goes on
    /// where its parent is.
    pub fn fork(&mut self, shared: &mut Shared) -> (r: Self)
        requires
            old(shared).wf(),
            old(self).inner.loaded(&old(shared).memory),
            old(self).inner.memory_set.owned().disjoint(old(shared).kernel_space.owned()),
            can_copy(&old(self).inner.memory_set, old(shared)),
        ensures
            newborn(&r, Some(old(self).pid.0), old(shared), final(shared)),
            copied(
                &r.inner,
                &old(self).inner,
                r.kernel_stack.0 as int,
                &old(shared).memory,
                final(shared),
            ),
            r.inner.fd_table@ == old(self).inner.fd_table@,
            r.inner.base_size == old(self).inner.base_size,
            r.inner.heap_bottom == old(self).inner.heap_bottom,
            r.inner.program_brk == old(self).inner.program_brk,
            with_child(old(self), final(self), r.pid.0),
    {
        let ghost s0 = *shared;
        let ghost parent_ms = self.inner.memory_set;
        let ghost pieces = copies(&self.inner.memory_set, &s0.memory);
        let ghost hole = TRAP_CONTEXT_VPN as int;
        let strampoline: u64 = shared.entry.strampoline;
        let memory_set: MemorySet = MemorySet::from_existed_user(
            &self.inner.memory_set,
            strampoline,
            &mut shared.memory,
        );
        let ghost s1 = *shared;
        proof {
            lemma_only_built(&memory_set, pieces, strampoline, &s0.memory, &s1.memory);
            lemma_shared_kept(&s0, &s1, Set::empty(), memory_set.owned());
            lemma_built_but(&memory_set, pieces, strampoline, &s0.memory, &s1.memory, hole);
            lemma_copied_trap_page(
                &memory_set,
                &parent_ms,
                strampoline,
                &s0.memory,
                &s1.memory,
                self.inner.trap_cx_ppn.0 as int,
            );
        }
        let trap_cx_ppn: PhysPageNum = Self::trap_page(&memory_set, &shared.memory);
        let ghost p = trap_cx_ppn.0 as int;
        let pid: PidHandle = shared.pid_alloc();
        let ghost s2 = *shared;
        let kernel_stack: KernelStack = shared.kstack_alloc();
        let kernel_stack_top: u64 = kernel_stack.get_top();
        let ghost s3 = *shared;
        proof {
            lemma_bystander(
                &memory_set,
                &s2.memory,
                &s3.memory,
                s2.kernel_space.owned(),
                s3.kernel_space.owned(),
            );
            lemma_trap_page(&memory_set, &s3.memory, p);
        }
        let mut fd_table: Vec<Option<FileRef>> = Vec::new();
        let mut i: usize = 0;
        while i < self.inner.fd_table.len()
            invariant
                i <= self.inner.fd_table@.len(),
                fd_table@ == self.inner.fd_table@.take(i as int),
            decreases self.inner.fd_table@.len() - i,
        {
            let file: Option<FileRef> = self.inner.fd_table[i];
            fd_table.push(file);
            i += 1;
            assert(fd_table@ =~= self.inner.fd_table@.take(i as int));
        }
        assert(fd_table@ =~= self.inner.fd_table@);
        self.inner.children.push(pid.0);
        // the saved registers name the kernel stack
        shared.memory.write_word(trap_cx_ppn, 35, kernel_stack_top);
        proof {
            lemma_placed(&memory_set, pieces, &s0, &s1, &s3, shared, p);
        }
        TaskControlBlock {
            pid,
            kernel_stack,
            inner: TaskControlBlockInner {
                priority: 16,
                stride: 0,
                trap_cx_ppn,
                base_size: self.inner.base_size,
                task_cx: TaskContext::goto_trap_return(kernel_stack_top, shared.entry.trap_return),
                task_status: TaskStatus::Ready,
                memory_set,
                parent: Some(self.pid.0),
                children: Vec::new(),
                exit_code: 0,
                fd_table,
                heap_bottom: self.inner.heap_bottom,
                program_brk: self.inner.program_brk,
            },
        }
    }

    /// Moves the end of the heap by `size` bytes. Returns where it was; `None`, and nothing changes,
    /// if it would lie before the start of the heap or there is no area for the heap.
    pub fn change_program_brk(&mut self, size: i32, memory: &mut Memory) -> (r: Option<u64>)
        requires
            old(self).inner.memory_set.wf(old(memory)),
            old(self).inner.heap_bottom <= i64::MAX,
            old(self).inner.program_brk + 0x8000_0000 <= i64::MAX,
            can_move_brk(&old(self).inner, size as int, old(memory)),
        ensures
            final(self).inner.memory_set.wf(final(memory)),
            brk_moved(
                &old(self).inner,
                &final(self).inner,
                size as int,
                r,
                old(memory),
                final(memory),
            ),
            r is Some ==> heap_at_brk(&final(self).inner),
            *final(self) == (TaskControlBlock { inner: final(self).inner, ..*old(self) }),
    {
        let ghost inner0 = self.inner;
        let ghost m0 = *memory;
        let heap_bottom: u64 = self.inner.heap_bottom;
        let old_break: u64 = self.inner.program_brk;
        let new_brk: i64 = old_break as i64 + size as i64;
        if new_brk < heap_bottom as i64 {
            return None;
        }
        let start: VirtAddr = VirtAddr(heap_bottom);
        let end: VirtAddr = VirtAddr(new_brk as u64);
        let result: bool = if size < 0 {
            self.inner.memory_set.shrink_to(start, end, memory)
        } else {
            self.inner.memory_set.append_to(start, end, memory)
        };
        if result {
            self.inner.program_brk = new_brk as u64;
            proof {
                lemma_heap_area_kept(
                    &inner0,
                    &self.inner,
                    size as int,
                    Some(old_break),
                    &m0,
                    memory,
                );
            }
            Some(old_break)
        } else {
            None
        }
    }

    /// Gives back everything that a process has.
    pub fn release(self, shared: &mut Shared)
        requires
            old(shared).wf(),
            self.inner.memory_set.wf(&old(shared).memory),
            self.inner.memory_set.owned().disjoint(old(shared).kernel_space.owned()),
            old(shared).pids.in_use(self.pid.0 as int),
            old(shared).kstacks.in_use(self.kernel_stack.0 as int),
        ensures
            final(shared).wf(),
            final(shared).pids.next() == old(shared).pids.next(),
            final(shared).pids.returned() == old(shared).pids.returned().push(self.pid.0),
            final(shared).kstacks.next() == old(shared).kstacks.next(),
            final(shared).kstacks.returned() == old(shared).kstacks.returned().push(
                self.kernel_stack.0,
            ),
            forall|id: int| #[trigger]
                final(shared).pids.in_use(id) == (id != self.pid.0 && old(shared).pids.in_use(id)),
            forall|id: int| #[trigger]
                final(shared).kstacks.in_use(id) == (id != self.kernel_stack.0 && old(
                    shared,
                ).kstacks.in_use(id)),
            final(shared).entry == old(shared).entry,
            only(
                &old(shared).memory,
                &final(shared).memory,
                old(shared).kernel_space.owned().union(self.inner.memory_set.owned()),
                final(shared).kernel_space.owned(),
            ),
            self.inner.memory_set.owned().subset_of(final(shared).memory.free()),
    {
        let ghost s0 = *shared;
        let TaskControlBlock { pid, kernel_stack, inner } = self;
        let ghost mine = inner.memory_set.owned();
        shared.pids.dealloc(pid.0);
        inner.memory_set.release(&mut shared.memory);
        let ghost s1 = *shared;
        proof {
            assert(s1.memory.free().union(Set::empty()) =~= s0.memory.free().union(mine));
            assert(only(&s0.memory, &s1.memory, mine, Set::empty()));
            lemma_shared_kept(&s0, &s1, mine, Set::empty());
        }
        shared.kstack_dealloc(kernel_stack);
        proof {
            lemma_only_then(
                &s0.memory,
                &s1.memory,
                &shared.memory,
                mine,
                Set::empty(),
                s1.kernel_space.owned(),
                shared.kernel_space.owned(),
            );
            assert(mine.union(s0.kernel_space.owned()) =~= s0.kernel_space.owned().union(mine));
            assert(Set::<int>::empty().union(shared.kernel_space.owned())
                =~= shared.kernel_space.owned());
        }
    }

    /// The physical page of the saved registers.
    fn trap_page(memory_set: &MemorySet, memory: &Memory) -> (r: PhysPageNum)
        requires
            memory_set.wf(memory),
            exists|p: int| has_frame(memory_set, TRAP_CONTEXT_VPN as int, p),
        ensures
            has_frame(memory_set, TRAP_CONTEXT_VPN as int, r.0 as int),
    {
        let va: VirtAddr = VirtAddr::new(TRAP_CONTEXT_BASE);
        let vpn: VirtPageNum = va.floor();
        proof {
            let v = TRAP_CONTEXT_VPN as int;
            assert(vpn.0 == v);
            let p = choose|p: int| has_frame(memory_set, v, p);
            let k = choose|k: int|
                0 <= k < memory_set.views().len() && (
                #[trigger] memory_set.views()[k]).frames.dom().contains(v)
                    && memory_set.views()[k].frames[v] == p;
            let a = memory_set.views()[k];
            assert(area_ok(a, &memory_set.page_table, memory));
            lemma_valid_frames(a, &memory_set.page_table, memory);
            assert(a.frames.dom().contains(v));
            assert(pte_ppn(leaf(memory@, memory_set.root(), v)) == p);
        }
        let pte: Option<PageTableEntry> = memory_set.translate(vpn, memory);
        pte.unwrap().ppn()
    }
}

/// The process has one child more.
pub open spec fn with_child(t: &TaskControlBlock, t2: &TaskControlBlock, child: usize) -> bool {
    &&& t2.inner.children@ == t.inner.children@.push(child)
    &&& *t2 == (TaskControlBlock {
        inner: TaskControlBlockInner { children: t2.inner.children, ..t.inner },
        ..*t
    })
}

/// An address space was built, a kernel stack was mapped, and the page of the saved registers was
/// filled.
proof fn lemma_placed(
    ms: &MemorySet,
    pieces: Seq<Piece>,
    s0: &Shared,
    s1: &Shared,
    s3: &Shared,
    s4: &Shared,
    p: int,
)
    requires
        s0.wf(),
        built_but(ms, pieces, s0.entry.strampoline, &s1.memory, TRAP_CONTEXT_VPN as int),
        only(&s0.memory, &s1.memory, Set::empty(), ms.owned()),
        ms.owned().subset_of(s0.memory.free()),
        s1.kernel_space == s0.kernel_space,
        s3.wf(),
        only(&s1.memory, &s3.memory, s1.kernel_space.owned(), s3.kernel_space.owned()),
        has_frame(ms, TRAP_CONTEXT_VPN as int, p),
        s4.kernel_space == s3.kernel_space,
        s4.pids == s3.pids,
        s4.kstacks == s3.kstacks,
        s4.entry == s3.entry,
        s4.memory.wf(),
        s4.memory.free() == s3.memory.free(),
        s4.memory.limit() == s3.memory.limit(),
        s4.memory@ == s3.memory@.insert(p, s4.memory@[p]),
    ensures
        s4.wf(),
        built_but(ms, pieces, s0.entry.strampoline, &s4.memory, TRAP_CONTEXT_VPN as int),
        areas_only(ms, &s4.memory),
        only(
            &s0.memory,
            &s4.memory,
            s0.kernel_space.owned(),
            s4.kernel_space.owned().union(ms.owned()),
        ),
        ms.owned().disjoint(s4.kernel_space.owned()),
{
    s0.kernel_space.lemma_wf(&s0.memory);
    assert(ms.owned().disjoint(s1.kernel_space.owned()));
    lemma_bystander(
        ms,
        &s1.memory,
        &s3.memory,
        s1.kernel_space.owned(),
        s3.kernel_space.owned(),
    );
    lemma_hole_changed(
        ms,
        pieces,
        s0.entry.strampoline,
        &s1.memory,
        &s3.memory,
        TRAP_CONTEXT_VPN as int,
        p,
    );
    lemma_trap_page(ms, &s3.memory, p);
    lemma_frame_changed(*ms, s3.memory, s4.memory, p);
    lemma_only_page(ms, &s3.memory, &s4.memory, p);
    lemma_shared_kept(s3, s4, ms.owned(), ms.owned());
    lemma_hole_changed(
        ms,
        pieces,
        s0.entry.strampoline,
        &s3.memory,
        &s4.memory,
        TRAP_CONTEXT_VPN as int,
        p,
    );
    lemma_areas_only_built(
        ms,
        pieces,
        s0.entry.strampoline,
        &s4.memory,
        TRAP_CONTEXT_VPN as int,
    );
    lemma_only_then(
        &s0.memory,
        &s1.memory,
        &s3.memory,
        Set::empty(),
        ms.owned(),
        s1.kernel_space.owned(),
        s3.kernel_space.owned(),
    );
    let mine = s3.kernel_space.owned().union(ms.owned());
    assert(Set::<int>::empty().union(s0.kernel_space.owned()) =~= s0.kernel_space.owned());
    assert(ms.owned().union(s3.kernel_space.owned()) =~= mine);
    assert(only(&s3.memory, &s4.memory, mine, mine));
    lemma_only_again(
        &s0.memory,
        &s3.memory,
        &s4.memory,
        s0.kernel_space.owned(),
        mine,
        mine,
    );
}

/// The last area of a program is the page of the saved registers.
proof fn lemma_program_trap_page(ms: &MemorySet, file: Seq<u8>, memory: &Memory)
    requires
        ms.wf(memory),
        ({
            let pieces = pieces_of(program_plans(segments_of(file)), file);
            let k = pieces.len() - 1;
            ms.views().len() == pieces.len() && piece_done(ms, pieces, k, memory)
        }),
    ensures
        exists|p: int| has_frame(ms, TRAP_CONTEXT_VPN as int, p),
{
    let plans = program_plans(segments_of(file));
    let pieces = pieces_of(plans, file);
    let k = pieces.len() - 1;
    let v = TRAP_CONTEXT_VPN as int;
    let a = ms.views()[k];
    assert(plans[k].start == TRAP_CONTEXT_BASE && plans[k].end == TRAMPOLINE);
    assert(pieces[k].area == plans[k].area());
    assert(a.start == v && a.end == v + 1 && a.framed);
    assert(a.frames.dom().contains(v));
    assert(has_frame(ms, v, a.frames[v]));
}

/// A process can be made with a copy of this address space.
pub open spec fn can_copy(ms: &MemorySet, s: &Shared) -> bool {
    &&& has_numbers(s)
    &&& complete(ms)
    &&& cost_of(copies(ms, &s.memory)) + s.stack_cost() <= s.memory.free().len()
}

/// The process has a copy of what its parent had in `m0`; only the saved registers name another
/// kernel stack.
pub open spec fn copied(
    inner: &TaskControlBlockInner,
    parent: &TaskControlBlockInner,
    kstack: int,
    m0: &Memory,
    s: &Shared,
) -> bool {
    &&& inner.loaded(&s.memory)
    &&& built_but(
        &inner.memory_set,
        copies(&parent.memory_set, m0),
        s.entry.strampoline,
        &s.memory,
        TRAP_CONTEXT_VPN as int,
    )
    &&& forall|i: int|
        0 <= i < 512 ==> #[trigger] word_at(s.memory@, inner.trap_cx_ppn.0 as int, i) == (if i
            == 35 {
            stack_end(kstack) as u64
        } else {
            word_at(m0@, parent.trap_cx_ppn.0 as int, i)
        })
}

/// The copy of an address space has a page for the saved registers, and it holds what the page of
/// the first one holds.
proof fn lemma_copied_trap_page(
    ms: &MemorySet,
    parent: &MemorySet,
    strampoline: u64,
    m0: &Memory,
    m: &Memory,
    p0: int,
)
    requires
        parent.wf(m0),
        complete(parent),
        has_frame(parent, TRAP_CONTEXT_VPN as int, p0),
        built(ms, copies(parent, m0), strampoline, m0, m),
    ensures
        exists|p: int| has_frame(ms, TRAP_CONTEXT_VPN as int, p),
        forall|p: int| #[trigger]
            has_frame(ms, TRAP_CONTEXT_VPN as int, p) ==> m@[p] == m0@[p0],
{
    let pieces = copies(parent, m0);
    let v = TRAP_CONTEXT_VPN as int;
    let k = choose|k: int|
        0 <= k < parent.views().len() && (#[trigger] parent.views()[k]).frames.dom().contains(v)
            && parent.views()[k].frames[v] == p0;
    let a = parent.views()[k];
    let b = ms.views()[k];
    assert(area_ok(a, &parent.page_table, m0));
    assert(piece_done(ms, pieces, k, m));
    assert(b.frames.dom().contains(v));
    assert(has_frame(ms, v, b.frames[v]));
    assert((pieces[k].content)(v - a.start) == m0@[p0]);
    assert forall|p: int| #[trigger] has_frame(ms, v, p) implies m@[p] == m0@[p0] by {
        let j = choose|j: int|
            0 <= j < ms.views().len() && (#[trigger] ms.views()[j]).frames.dom().contains(v)
                && ms.views()[j].frames[v] == p;
        let c = ms.views()[j];
        assert(area_ok(b, &ms.page_table, m));
        assert(area_ok(c, &ms.page_table, m));
        lemma_valid_frames(b, &ms.page_table, m);
        lemma_valid_frames(c, &ms.page_table, m);
        assert(c.frames[v] == b.frames[v]);
    }
}

/// The end of the heap can be moved by `size` bytes, if it does not end up before the start of the
/// heap and there is an area for the heap.
pub open spec fn can_move_brk(inner: &TaskControlBlockInner, size: int, memory: &Memory) -> bool {
    let ms = inner.memory_set;
    let brk = inner.program_brk + size;
    let k = area_at(ms.views(), inner.heap_bottom as int / 4096);
    let end = (brk + 4095) / 4096;
    brk >= inner.heap_bottom && k < ms.views().len() ==> if size < 0 {
        &&& ms.views()[k].start <= end <= ms.views()[k].end
        &&& can_unmap(&ms, k, end, ms.views()[k].end, memory)
    } else {
        can_append(&ms, k, end, memory)
    }
}

/// Area `k` was cut to end at page `end`, and the frames of the other pages were given back; nothing
/// else that was there has changed.
pub open spec fn shrunk(
    ms: &MemorySet,
    ms2: &MemorySet,
    k: int,
    end: int,
    memory: &Memory,
    memory2: &Memory,
) -> bool {
    let a = ms.views()[k];
    &&& ms2.views() == ms.views().update(
        k,
        (AreaView { end, frames: a.frames.remove_keys(pages(end, a.end)), ..a }),
    )
    &&& lost_pages(ms, ms2, end, a.end, memory, memory2)
}

} // verus!
