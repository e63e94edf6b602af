//! The state of the kernel and what always holds of it.

use core::mem::swap;
use vstd::prelude::*;

use crate::easy_fs::block_dev::BlockDevice;
use crate::easy_fs::efs::EasyFileSystem;
use crate::fs::file::FileRef;
use crate::fs::inode::{rooted, OSInode};
use crate::mm::frame_allocator::Memory;
use crate::mm::memory_set::MemorySet;
use crate::task::manager::TaskManager;
use crate::task::processor::Processor;
use crate::task::shared::{lemma_bystander, lemma_shared_kept, only, Shared};
use crate::task::task::{TaskControlBlock, TaskControlBlockInner, TaskStatus};

verus! {

/// The number of the first process. It is there for ever, and takes over the children of processes
/// that end.
pub const IDLE_PID: usize = 0;

/// The kernel: the processes by their numbers, the ready ones, the processor, the files.
pub struct Kernel<D: BlockDevice> {
    pub shared: Shared,
    pub tasks: Vec<Option<TaskControlBlock>>,
    pub manager: TaskManager,
    pub processor: Processor,
    pub fs: EasyFileSystem<D>,
    /// The open regular files.
    pub open_files: Vec<OSInode>,
}

impl<D: BlockDevice> Kernel<D> {
    /// There is a process of that number.
    pub open spec fn has(&self, pid: int) -> bool {
        0 <= pid <= usize::MAX && pid < self.tasks@.len() && self.tasks@[pid] is Some
    }

    /// The process of that number.
    pub open spec fn task(&self, pid: int) -> TaskControlBlock {
        self.tasks@[pid]->0
    }

    /// The changing part of the process of that number.
    pub open spec fn inner(&self, pid: int) -> TaskControlBlockInner {
        self.task(pid).inner
    }

    /// The address space of the process of that number.
    pub open spec fn space(&self, pid: int) -> MemorySet {
        self.task(pid).inner.memory_set
    }

    /// The address spaces are in order, and no two of them share a frame.
    pub open spec fn spaces_ok(&self) -> bool {
        &&& self.shared.wf()
        &&& forall|pid: int| #[trigger]
            self.has(pid) ==> {
                &&& self.space(pid).wf(&self.shared.memory)
                &&& self.space(pid).owned().disjoint(self.shared.kernel_space.owned())
                &&& self.inner(pid).task_status != TaskStatus::Zombie ==> self.inner(pid).loaded(
                    &self.shared.memory,
                )
            }
        &&& forall|i: int, j: int| #[trigger]
            self.has(i) && #[trigger] self.has(j) && i != j ==> self.space(i).owned().disjoint(
                self.space(j).owned(),
            )
    }

    /// The numbers of the processes and of their kernel stacks are those that are handed out.
    pub open spec fn numbers_ok(&self) -> bool {
        &&& self.tasks@.len() == self.shared.pids.next()
        &&& forall|pid: int| #[trigger] self.has(pid) == self.shared.pids.in_use(pid)
        &&& forall|pid: int| #[trigger]
            self.has(pid) ==> self.task(pid).pid.0 == pid && self.shared.kstacks.in_use(
                self.task(pid).kernel_stack.0 as int,
            )
        &&& forall|i: int, j: int| #[trigger]
            self.has(i) && #[trigger] self.has(j) && i != j ==> self.task(i).kernel_stack.0
                != self.task(j).kernel_stack.0
    }

    /// `c` is one of the children of `p`.
    pub open spec fn is_child(&self, p: int, c: int) -> bool {
        &&& 0 <= c <= usize::MAX
        &&& self.inner(p).children@.contains(c as usize)
    }

    /// Parents and children know each other, and every process but the first has a parent.
    pub open spec fn family_ok(&self) -> bool {
        &&& self.has(IDLE_PID as int)
        &&& self.inner(IDLE_PID as int).parent is None
        &&& self.inner(IDLE_PID as int).task_status != TaskStatus::Zombie
        &&& forall|p: int, c: int|
            self.has(p) && #[trigger] self.is_child(p, c) ==> self.has(c) && self.inner(c).parent
                == Some(p as usize)
        &&& forall|p: int| #[trigger]
            self.has(p) ==> self.inner(p).children@.no_duplicates() && self.inner(p).parent != Some(
                p as usize,
            )
        &&& forall|c: int| #[trigger]
            self.has(c) && c != IDLE_PID ==> {
                &&& self.inner(c).parent is Some
                &&& self.has(self.inner(c).parent->0 as int)
                &&& self.is_child(self.inner(c).parent->0 as int, c)
            }
        &&& forall|p: int| #[trigger]
            self.has(p) && self.inner(p).task_status == TaskStatus::Zombie
                ==> self.inner(p).children@.len() == 0
    }

    /// The ready processes are those in the queue, the running process is the one that runs.
    pub open spec fn queue_ok(&self) -> bool {
        let queue = self.manager.queue();
        &&& queue.no_duplicates()
        &&& forall|pid: int| #[trigger]
            self.has(pid) ==> {
                &&& (self.inner(pid).task_status == TaskStatus::Ready) == queue.contains(
                    pid as usize,
                )
                &&& (self.inner(pid).task_status == TaskStatus::Running) == (
                self.processor.running() == Some(pid as usize))
                &&& self.inner(pid).task_status != TaskStatus::UnInit
            }
        &&& forall|i: int| 0 <= i < queue.len() ==> self.has(#[trigger] queue[i] as int)
        &&& self.processor.running() matches Some(pid) ==> self.has(pid as int)
    }

    /// The file system is in order, and every descriptor of a regular file leads to an open file.
    pub open spec fn files_ok(&self) -> bool {
        &&& rooted(&self.fs)
        &&& self.handles_ok()
        &&& forall|pid: int, fd: int|
            #![trigger self.inner(pid).fd_table@[fd]]
            self.has(pid) && 0 <= fd < self.inner(pid).fd_table@.len() ==> self.file_ok(
                self.inner(pid).fd_table@[fd],
            )
    }

    /// Every open file has an inode of the disk.
    pub open spec fn handles_ok(&self) -> bool {
        forall|h: int|
            0 <= h < self.open_files@.len() ==> (#[trigger] self.open_files@[h]).inode.valid(&self.fs)
    }

    /// A descriptor leads to an open file.
    pub open spec fn file_ok(&self, file: Option<FileRef>) -> bool {
        file matches Some(FileRef::Inode(h)) ==> h < self.open_files@.len()
    }

    /// Every process runs at least as much as the least important one may.
    pub open spec fn priorities_ok(&self) -> bool {
        forall|pid: int| #[trigger] self.has(pid) ==> self.inner(pid).priority >= 2
    }

    /// Everything is in order.
    pub open spec fn wf(&self) -> bool {
        &&& self.spaces_ok()
        &&& self.numbers_ok()
        &&& self.family_ok()
        &&& self.queue_ok()
        &&& self.files_ok()
        &&& self.priorities_ok()
    }

    /// Takes a process out of its place.
    pub(crate) fn take_task(&mut self, pid: usize) -> (r: TaskControlBlock)
        requires
            old(self).has(pid as int),
        ensures
            r == old(self).task(pid as int),
            final(self).tasks@ == old(self).tasks@.update(pid as int, None),
            final(self).shared == old(self).shared,
            final(self).manager == old(self).manager,
            final(self).processor == old(self).processor,
            final(self).fs == old(self).fs,
            final(self).open_files == old(self).open_files,
    {
        let mut slot: Option<TaskControlBlock> = None;
        swap(&mut self.tasks[pid], &mut slot);
        slot.unwrap()
    }

    /// Puts a process into its place.
    pub(crate) fn put_task(&mut self, pid: usize, task: TaskControlBlock)
        requires
            pid < old(self).tasks@.len(),
        ensures
            final(self).tasks@ == old(self).tasks@.update(pid as int, Some(task)),
            final(self).shared == old(self).shared,
            final(self).manager == old(self).manager,
            final(self).processor == old(self).processor,
            final(self).fs == old(self).fs,
            final(self).open_files == old(self).open_files,
    {
        self.tasks[pid] = Some(task);
    }
}

/// The kernels differ in what one process and its memory hold, and nowhere else.
pub open spec fn same_but<D: BlockDevice>(k0: &Kernel<D>, k1: &Kernel<D>, pid: int) -> bool {
    &&& k1.tasks@ == k0.tasks@.update(pid, Some(k1.task(pid)))
    &&& k1.shared.kernel_space == k0.shared.kernel_space
    &&& k1.shared.pids == k0.shared.pids
    &&& k1.shared.kstacks == k0.shared.kstacks
    &&& k1.shared.entry == k0.shared.entry
    &&& only(
        &k0.shared.memory,
        &k1.shared.memory,
        k0.space(pid).owned(),
        k1.space(pid).owned(),
    )
}

/// The process has the same memory and does the same.
pub open spec fn same_space(t0: &TaskControlBlock, t1: &TaskControlBlock) -> bool {
    &&& t1.inner.memory_set == t0.inner.memory_set
    &&& t1.inner.trap_cx_ppn == t0.inner.trap_cx_ppn
    &&& t1.inner.task_status == t0.inner.task_status
}

/// The address spaces stay in order when one of them changes.
pub proof fn lemma_spaces_kept<D: BlockDevice>(k0: &Kernel<D>, k1: &Kernel<D>, pid: int)
    requires
        k0.spaces_ok(),
        k0.has(pid),
        k1.shared.kernel_space == k0.shared.kernel_space,
        k1.shared.pids == k0.shared.pids,
        k1.shared.kstacks == k0.shared.kstacks,
        k1.shared.entry == k0.shared.entry,
        only(
            &k0.shared.memory,
            &k1.shared.memory,
            k0.space(pid).owned(),
            k1.space(pid).owned(),
        ),
        forall|j: int| #[trigger] k1.has(j) == k0.has(j),
        forall|j: int| #[trigger] k1.has(j) && j != pid ==> same_space(&k0.task(j), &k1.task(j)),
        k1.space(pid).wf(&k1.shared.memory),
        k1.inner(pid).task_status != TaskStatus::Zombie ==> k1.inner(pid).loaded(
            &k1.shared.memory,
        ),
    ensures
        k1.spaces_ok(),
{
    let a = k0.space(pid).owned();
    let b = k1.space(pid).owned();
    lemma_shared_kept(&k0.shared, &k1.shared, a, b);
    assert forall|j: int| #[trigger] k1.has(j) implies {
        &&& k1.space(j).wf(&k1.shared.memory)
        &&& k1.space(j).owned().disjoint(k1.shared.kernel_space.owned())
        &&& k1.inner(j).task_status != TaskStatus::Zombie ==> k1.inner(j).loaded(
            &k1.shared.memory,
        )
        &&& j != pid ==> k1.space(j).owned().disjoint(b)
    } by {
        assert(k0.has(j));
        if j != pid {
            assert(k0.has(pid));
            lemma_bystander(&k0.space(j), &k0.shared.memory, &k1.shared.memory, a, b);
        }
    }
    assert forall|i: int, j: int| #[trigger]
        k1.has(i) && #[trigger] k1.has(j) && i != j implies k1.space(i).owned().disjoint(
        k1.space(j).owned(),
    ) by {
        assert(k0.has(i) && k0.has(j));
    }
}

/// Nothing has changed.
pub proof fn lemma_only_same(ms: &MemorySet, m: &Memory)
    requires
        m.wf(),
    ensures
        only(m, m, ms.owned(), ms.owned()),
{
}

/// The process is the same one, does the same and has the same relatives.
pub open spec fn same_person(t0: &TaskControlBlock, t1: &TaskControlBlock) -> bool {
    &&& t1.pid == t0.pid
    &&& t1.kernel_stack == t0.kernel_stack
    &&& t1.inner.task_status == t0.inner.task_status
    &&& t1.inner.parent == t0.inner.parent
    &&& t1.inner.children@ == t0.inner.children@
}

/// The process has the same relatives, and lives or has ended as before.
pub open spec fn same_relatives(t0: &TaskControlBlock, t1: &TaskControlBlock) -> bool {
    &&& (t1.inner.task_status == TaskStatus::Zombie) == (t0.inner.task_status == TaskStatus::Zombie)
    &&& t1.inner.parent == t0.inner.parent
    &&& t1.inner.children@ == t0.inner.children@
}

/// The kernel stays in order when a process changes its memory or its files.
pub proof fn lemma_kept<D: BlockDevice>(k0: &Kernel<D>, k1: &Kernel<D>, pid: int)
    requires
        k0.wf(),
        k0.has(pid),
        same_but(k0, k1, pid),
        k1.space(pid).wf(&k1.shared.memory),
        k1.inner(pid).task_status != TaskStatus::Zombie ==> k1.inner(pid).loaded(
            &k1.shared.memory,
        ),
        same_person(&k0.task(pid), &k1.task(pid)),
        k1.inner(pid).priority >= 2,
        k1.manager.queue() == k0.manager.queue(),
        k1.processor.running() == k0.processor.running(),
        rooted(&k1.fs),
        k1.handles_ok(),
        k1.open_files@.len() >= k0.open_files@.len(),
        forall|fd: int|
            0 <= fd < k1.inner(pid).fd_table@.len() ==> k1.file_ok(
                #[trigger] k1.inner(pid).fd_table@[fd],
            ),
    ensures
        k1.wf(),
{
    assert forall|j: int| #[trigger] k1.has(j) == k0.has(j) by {}
    assert forall|j: int| #[trigger] k1.has(j) && j != pid implies same_space(
        &k0.task(j),
        &k1.task(j),
    ) by {
        assert(k0.has(j));
    }
    lemma_spaces_kept(k0, k1, pid);
    assert forall|j: int| #[trigger] k1.has(j) implies same_person(&k0.task(j), &k1.task(j)) by {
        assert(k0.has(j));
    }
    assert forall|j: int| #[trigger] k1.has(j) == k1.shared.pids.in_use(j) by {
        assert(k1.has(j) == k0.has(j));
    }
    assert(k1.numbers_ok()) by {
        assert forall|i: int, j: int| #[trigger]
            k1.has(i) && #[trigger] k1.has(j) && i != j implies k1.task(i).kernel_stack.0
            != k1.task(j).kernel_stack.0 by {
            assert(k0.has(i) && k0.has(j));
        }
    }
    assert forall|j: int| #[trigger] k1.has(j) implies same_relatives(
        &k0.task(j),
        &k1.task(j),
    ) by {}
    lemma_family_kept(k0, k1);
    assert(k1.priorities_ok()) by {
        assert forall|j: int| #[trigger] k1.has(j) implies k1.inner(j).priority >= 2 by {
            assert(k0.has(j));
        }
    }
    assert(k1.queue_ok()) by {
        let queue = k1.manager.queue();
        assert forall|i: int| 0 <= i < queue.len() implies k1.has(#[trigger] queue[i] as int) by {
            assert(k0.has(queue[i] as int));
        }
        assert forall|j: int| #[trigger] k1.has(j) implies {
            &&& (k1.inner(j).task_status == TaskStatus::Ready) == queue.contains(j as usize)
            &&& (k1.inner(j).task_status == TaskStatus::Running) == (k1.processor.running() == Some(
                j as usize,
            ))
            &&& k1.inner(j).task_status != TaskStatus::UnInit
        } by {
            assert(k0.has(j));
        }
    }
    assert forall|j: int, fd: int|
        #![trigger k1.inner(j).fd_table@[fd]]
        k1.has(j) && 0 <= fd < k1.inner(j).fd_table@.len() implies k1.file_ok(
        k1.inner(j).fd_table@[fd],
    ) by {
        if j != pid {
            assert(k0.has(j));
            assert(k0.file_ok(k0.inner(j).fd_table@[fd]));
        }
    }
}

/// Families stay in order when nobody changes relatives.
pub proof fn lemma_family_kept<D: BlockDevice>(k0: &Kernel<D>, k1: &Kernel<D>)
    requires
        k0.family_ok(),
        forall|j: int| #[trigger] k1.has(j) == k0.has(j),
        forall|j: int| #[trigger] k1.has(j) ==> same_relatives(&k0.task(j), &k1.task(j)),
    ensures
        k1.family_ok(),
{
    assert(k1.has(0) && k0.has(0));
    assert forall|p: int, c: int| k1.has(p) && #[trigger] k1.is_child(p, c) implies k1.has(c)
        && k1.inner(c).parent == Some(p as usize) by {
        assert(k0.has(p) && k0.is_child(p, c));
        assert(k1.has(c));
    }
    assert forall|c: int| #[trigger] k1.has(c) && c != IDLE_PID implies {
        &&& k1.inner(c).parent is Some
        &&& k1.has(k1.inner(c).parent->0 as int)
        &&& k1.is_child(k1.inner(c).parent->0 as int, c)
    } by {
        assert(k0.has(c));
        let p = k0.inner(c).parent->0 as int;
        assert(k0.has(p) && k0.is_child(p, c));
        assert(k1.has(p));
    }
    assert forall|p: int| #[trigger] k1.has(p) implies k1.inner(p).children@.no_duplicates()
        && k1.inner(p).parent != Some(p as usize) by {
        assert(k0.has(p));
    }
    assert forall|p: int| #[trigger]
        k1.has(p) && k1.inner(p).task_status == TaskStatus::Zombie implies k1.inner(
        p,
    ).children@.len() == 0 by {
        assert(k0.has(p));
    }
}

} // verus!
