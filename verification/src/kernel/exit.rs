//! How a process ends.

use core::mem::swap;
use vstd::prelude::*;

use super::state::{lemma_spaces_kept, same_space, Kernel, IDLE_PID};
use crate::easy_fs::block_dev::BlockDevice;
use crate::fs::file::FileRef;
use crate::mm::map_area::AreaView;
use crate::task::shared::only;
use crate::task::task::{TaskControlBlock, TaskControlBlockInner, TaskStatus};

verus! {

/// The process with another parent.
pub open spec fn with_parent(t: TaskControlBlock, parent: usize) -> TaskControlBlock {
    TaskControlBlock { inner: TaskControlBlockInner { parent: Some(parent), ..t.inner }, ..t }
}

/// A process that has ended: its files are closed, its children are gone, and of its memory only the
/// page table is left.
pub open spec fn ended(t0: &TaskControlBlock, t1: &TaskControlBlock, exit_code: i32) -> bool {
    let ms0 = t0.inner.memory_set;
    let ms1 = t1.inner.memory_set;
    &&& t1.inner.children@ == Seq::<usize>::empty()
    &&& t1.inner.fd_table@ == Seq::<Option<FileRef>>::empty()
    &&& ms1.page_table == ms0.page_table
    &&& ms1.views() == Seq::<AreaView>::empty()
    &&& ms1.owned() == ms0.page_table.tables()
    &&& *t1 == (TaskControlBlock {
        inner: TaskControlBlockInner {
            task_status: TaskStatus::Zombie,
            exit_code,
            children: t1.inner.children,
            fd_table: t1.inner.fd_table,
            memory_set: ms1,
            ..t0.inner
        },
        ..*t0
    })
}

/// Process `pid` has ended. The first process has taken over its children, behind those that it had;
/// nothing else has changed.
pub open spec fn exited<D: BlockDevice>(
    k0: &Kernel<D>,
    k1: &Kernel<D>,
    pid: int,
    exit_code: i32,
) -> bool {
    let children = k0.inner(pid).children@;
    &&& k1.tasks@.len() == k0.tasks@.len()
    &&& forall|j: int| #[trigger] k1.has(j) == k0.has(j)
    &&& ended(&k0.task(pid), &k1.task(pid), exit_code)
    &&& forall|j: int| #[trigger]
        k1.has(j) && j != pid && j != IDLE_PID ==> k1.task(j) == (if k0.is_child(pid, j) {
            with_parent(k0.task(j), IDLE_PID)
        } else {
            k0.task(j)
        })
    &&& k1.inner(IDLE_PID as int).children@ == k0.inner(IDLE_PID as int).children@ + children
    &&& k1.task(IDLE_PID as int) == (TaskControlBlock {
        inner: TaskControlBlockInner {
            children: k1.inner(IDLE_PID as int).children,
            ..k0.inner(IDLE_PID as int)
        },
        ..k0.task(IDLE_PID as int)
    })
    // the frames of the areas are free
    &&& k1.shared.memory@ == k0.shared.memory@
    &&& k1.shared.memory.free() == k0.shared.memory.free().union(
        k0.space(pid).owned().difference(k0.space(pid).page_table.tables()),
    )
    &&& k1.shared.kernel_space == k0.shared.kernel_space
    &&& k1.shared.pids == k0.shared.pids
    &&& k1.shared.kstacks == k0.shared.kstacks
    &&& k1.shared.entry == k0.shared.entry
    &&& k1.fs == k0.fs
    &&& k1.open_files == k0.open_files
}

impl<D: BlockDevice> Kernel<D> {
    /// Ends the process that runs, which is not the first one. Returns its number.
    pub fn exit_current_and_run_next(&mut self, exit_code: i32) -> (r: usize)
        requires
            old(self).wf(),
            old(self).processor.running() is Some,
            old(self).processor.running() != Some(IDLE_PID),
        ensures
            final(self).wf(),
            old(self).processor.running() == Some(r),
            final(self).processor.running() is None,
            final(self).manager.queue() == old(self).manager.queue(),
            exited(old(self), final(self), r as int, exit_code),
    {
        let ghost k0 = *self;
        let pid: usize = self.take_current_task().unwrap();
        let ghost p = pid as int;
        assert(k0.has(p));
        assert(k0.inner(p).task_status == TaskStatus::Running);
        let mut task: TaskControlBlock = self.take_task(pid);
        let ghost t0 = task;
        let mut children: Vec<usize> = Vec::new();
        swap(&mut task.inner.children, &mut children);
        let ghost moved = children@;
        assert(moved == k0.inner(p).children@);
        task.inner.task_status = TaskStatus::Zombie;
        task.inner.exit_code = exit_code;
        task.inner.memory_set.recycle_data_pages(&mut self.shared.memory);
        task.inner.fd_table.clear();
        let ghost m1 = self.shared.memory;
        let ghost ms1 = task.inner.memory_set;
        proof {
            k0.space(p).lemma_wf(&k0.shared.memory);
            assert(m1.free().union(ms1.owned()) =~= k0.shared.memory.free().union(
                k0.space(p).owned(),
            ));
            assert(only(&k0.shared.memory, &m1, k0.space(p).owned(), ms1.owned()));
        }
        let mut i: usize = 0;
        while i < children.len()
            invariant
                i <= moved.len(),
                moved == children@,
                moved == k0.inner(p).children@,
                k0.wf(),
                k0.has(p),
                p == pid,
                pid != IDLE_PID,
                self.tasks@.len() == k0.tasks@.len(),
                self.tasks@[p] is None,
                forall|j: int|
                    0 <= j < self.tasks@.len() && j != p ==> #[trigger] self.tasks@[j] == (if k0.has(
                        j,
                    ) && moved.take(i as int).contains(j as usize) {
                        Some(with_parent(k0.task(j), IDLE_PID))
                    } else {
                        k0.tasks@[j]
                    }),
                self.shared.memory == m1,
                self.shared.kernel_space == k0.shared.kernel_space,
                self.shared.pids == k0.shared.pids,
                self.shared.kstacks == k0.shared.kstacks,
                self.shared.entry == k0.shared.entry,
                self.manager == k0.manager,
                self.processor.running() is None,
                self.fs == k0.fs,
                self.open_files == k0.open_files,
            decreases moved.len() - i,
        {
            let c: usize = children[i];
            let ghost before = self.tasks@;
            let ghost seen = moved.take(i as int);
            let ghost seen2 = moved.take(i + 1);
            proof {
                assert(moved.contains(moved[i as int]));
                assert(k0.is_child(p, c as int));
                assert(k0.has(c as int));
                assert(c != pid);
                assert(c != IDLE_PID);
                assert(!seen.contains(c)) by {
                    if seen.contains(c) {
                        let a = seen.index_of(c);
                        assert(moved[a] == moved[i as int]);
                    }
                }
                assert(before[c as int] == k0.tasks@[c as int]);
            }
            let mut child: TaskControlBlock = self.take_task(c);
            child.inner.parent = Some(IDLE_PID);
            self.put_task(c, child);
            proof {
                assert forall|j: int|
                    0 <= j < self.tasks@.len() && j != p implies #[trigger] self.tasks@[j] == (
                if k0.has(j) && seen2.contains(j as usize) {
                    Some(with_parent(k0.task(j), IDLE_PID))
                } else {
                    k0.tasks@[j]
                }) by {
                    lemma_taken_more(moved, i as int);
                    if j == c {
                        assert(seen2.contains(c));
                    } else if k0.has(j) {
                        assert(j as usize != c);
                        assert(seen2.contains(j as usize) == seen.contains(j as usize));
                        assert(self.tasks@[j] == before[j]);
                    }
                }
            }
            i += 1;
        }
        assert(moved.take(i as int) =~= moved);
        proof {
            assert(k0.has(0));
            assert(!moved.contains(IDLE_PID)) by {
                if moved.contains(IDLE_PID) {
                    assert(k0.is_child(p, 0));
                }
            }
        }
        let mut init: TaskControlBlock = self.take_task(IDLE_PID);
        init.inner.children.append(&mut children);
        self.put_task(IDLE_PID, init);
        self.put_task(pid, task);
        proof {
            lemma_exited(&k0, self, p, exit_code);
        }
        pid
    }
}

proof fn lemma_taken_more(list: Seq<usize>, i: int)
    requires
        0 <= i < list.len(),
    ensures
        list.take(i + 1).contains(list[i]),
        forall|x: usize| #[trigger]
            list.take(i + 1).contains(x) == (x == list[i] || list.take(i).contains(x)),
{
    let a = list.take(i);
    let b = list.take(i + 1);
    assert(b[i] == list[i]);
    assert forall|x: usize| #[trigger] b.contains(x) == (x == list[i] || a.contains(x)) by {
        if a.contains(x) {
            assert(b[a.index_of(x)] == x);
        }
        if b.contains(x) {
            let j = b.index_of(x);
            if j < i {
                assert(a[j] == x);
            }
        }
    }
}

/// The kernel is in order when a process has ended.
proof fn lemma_exited<D: BlockDevice>(k0: &Kernel<D>, k1: &Kernel<D>, pid: int, exit_code: i32)
    requires
        k0.wf(),
        k0.has(pid),
        k0.processor.running() == Some(pid as usize),
        pid != IDLE_PID,
        k1.processor.running() is None,
        k1.manager.queue() == k0.manager.queue(),
        exited(k0, k1, pid, exit_code),
        k1.space(pid).wf(&k1.shared.memory),
        only(
            &k0.shared.memory,
            &k1.shared.memory,
            k0.space(pid).owned(),
            k1.space(pid).owned(),
        ),
    ensures
        k1.wf(),
{
    let init = IDLE_PID as int;
    let children = k0.inner(pid).children@;
    assert(k0.has(init));
    assert forall|j: int| #[trigger] k1.has(j) && j != pid implies {
        &&& same_space(&k0.task(j), &k1.task(j))
        &&& k1.task(j).pid == k0.task(j).pid
        &&& k1.task(j).kernel_stack == k0.task(j).kernel_stack
        &&& k1.inner(j).fd_table == k0.inner(j).fd_table
    } by {}
    lemma_spaces_kept(k0, k1, pid);
    assert(k1.numbers_ok()) by {
        assert forall|j: int| #[trigger] k1.has(j) == k1.shared.pids.in_use(j) by {
            assert(k1.has(j) == k0.has(j));
        }
        assert forall|i: int, j: int| #[trigger]
            k1.has(i) && #[trigger] k1.has(j) && i != j implies k1.task(i).kernel_stack.0
            != k1.task(j).kernel_stack.0 by {
            assert(k0.has(i) && k0.has(j));
        }
        assert forall|j: int| #[trigger] k1.has(j) implies k1.task(j).pid.0 == j
            && k1.shared.kstacks.in_use(k1.task(j).kernel_stack.0 as int) by {
            assert(k0.has(j));
        }
    }
    lemma_exited_family(k0, k1, pid, exit_code);
    assert(k1.priorities_ok()) by {
        assert forall|j: int| #[trigger] k1.has(j) implies k1.inner(j).priority >= 2 by {
            assert(k0.has(j));
        }
    }
    assert(k1.queue_ok()) by {
        let queue = k1.manager.queue();
        assert forall|i: int| 0 <= i < queue.len() implies k1.has(#[trigger] queue[i] as int) by {
            assert(k0.has(queue[i] as int));
        }
        assert forall|j: int| #[trigger] k1.has(j) implies {
            &&& (k1.inner(j).task_status == TaskStatus::Ready) == queue.contains(j as usize)
            &&& (k1.inner(j).task_status == TaskStatus::Running) == (k1.processor.running() == Some(
                j as usize,
            ))
            &&& k1.inner(j).task_status != TaskStatus::UnInit
        } by {
            assert(k0.has(j));
        }
    }
    assert forall|j: int, fd: int|
        #![trigger k1.inner(j).fd_table@[fd]]
        k1.has(j) && 0 <= fd < k1.inner(j).fd_table@.len() implies k1.file_ok(
        k1.inner(j).fd_table@[fd],
    ) by {
        assert(k0.has(j));
        assert(k0.file_ok(k0.inner(j).fd_table@[fd]));
    }
}

/// Families are in order when a process has ended.
proof fn lemma_exited_family<D: BlockDevice>(
    k0: &Kernel<D>,
    k1: &Kernel<D>,
    pid: int,
    exit_code: i32,
)
    requires
        k0.family_ok(),
        k0.has(pid),
        pid != IDLE_PID,
        exited(k0, k1, pid, exit_code),
    ensures
        k1.family_ok(),
{
    let init = IDLE_PID as int;
    let children = k0.inner(pid).children@;
    let old_children = k0.inner(init).children@;
    let new_children = k1.inner(init).children@;
    assert(k0.has(init) && k1.has(init));
    assert forall|x: usize| #[trigger] new_children.contains(x) == (old_children.contains(x)
        || children.contains(x)) by {
        if old_children.contains(x) {
            assert(new_children[old_children.index_of(x)] == x);
        }
        if children.contains(x) {
            assert(new_children[old_children.len() + children.index_of(x)] == x);
        }
        if new_children.contains(x) {
            let i = new_children.index_of(x);
            if i < old_children.len() {
                assert(old_children[i] == x);
            } else {
                assert(children[i - old_children.len()] == x);
            }
        }
    }
    assert forall|p: int| #[trigger] k1.has(p) implies k1.inner(p).children@.no_duplicates()
        && k1.inner(p).parent != Some(p as usize) by {
        assert(k0.has(p));
        if p == init {
            assert forall|i: int, j: int|
                0 <= i < new_children.len() && 0 <= j < new_children.len() && i
                    != j implies new_children[i] != new_children[j] by {
                let x = new_children[i];
                let y = new_children[j];
                if x == y && i < old_children.len() && j >= old_children.len() {
                    assert(children[j - old_children.len()] == x);
                    assert(k0.is_child(init, x as int) && k0.is_child(pid, x as int));
                }
                if x == y && j < old_children.len() && i >= old_children.len() {
                    assert(children[i - old_children.len()] == x);
                    assert(old_children[j] == x);
                    assert(k0.is_child(init, x as int) && k0.is_child(pid, x as int));
                }
            }
        } else if k0.is_child(pid, p) {
            assert(k0.has(pid));
        }
    }
    assert forall|p: int, c: int| k1.has(p) && #[trigger] k1.is_child(p, c) implies k1.has(c)
        && k1.inner(c).parent == Some(p as usize) by {
        if p == init {
            assert(k0.is_child(init, c) || k0.is_child(pid, c));
            assert(k0.has(c));
            assert(k1.has(c));
            if k0.is_child(init, c) {
                assert(!k0.is_child(pid, c));
            }
        } else if p != pid {
            assert(k0.has(p) && k0.is_child(p, c));
            assert(k1.has(c));
            assert(!k0.is_child(pid, c));
        }
    }
    assert forall|c: int| #[trigger] k1.has(c) && c != IDLE_PID implies {
        &&& k1.inner(c).parent is Some
        &&& k1.has(k1.inner(c).parent->0 as int)
        &&& k1.is_child(k1.inner(c).parent->0 as int, c)
    } by {
        assert(k0.has(c));
        let p = k0.inner(c).parent->0 as int;
        assert(k0.has(p) && k0.is_child(p, c));
        if p == pid {
            assert(children.contains(c as usize));
            assert(new_children.contains(c as usize));
            assert(c != pid);
        } else {
            assert(!k0.is_child(pid, c));
            assert(k1.has(p));
            if p == init {
                assert(new_children.contains(c as usize));
            }
        }
    }
    assert forall|p: int| #[trigger]
        k1.has(p) && k1.inner(p).task_status == TaskStatus::Zombie implies k1.inner(
        p,
    ).children@.len() == 0 by {
        assert(k0.has(p));
    }
}

} // verus!
