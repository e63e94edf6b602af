//! How a process comes to be.

use vstd::prelude::*;

use super::sched::lemma_added;
use super::state::{Kernel, IDLE_PID};
use crate::easy_fs::block_dev::BlockDevice;
use crate::fs::inode::rooted;
use crate::task::shared::lemma_bystander;
use crate::task::task::{newborn, with_child, TaskControlBlock, TaskStatus};

verus! {

/// The processes with one more at a place that was empty, or behind the last one.
pub open spec fn with_task(
    tasks: Seq<Option<TaskControlBlock>>,
    pid: int,
    task: TaskControlBlock,
) -> Seq<Option<TaskControlBlock>> {
    if pid < tasks.len() {
        tasks.update(pid, Some(task))
    } else {
        tasks.push(Some(task))
    }
}

/// `child` is a new process, the last child of `parent`, and waits in the queue; nothing else has
/// changed but memory and the numbers.
pub open spec fn born<D: BlockDevice>(
    k0: &Kernel<D>,
    k1: &Kernel<D>,
    parent: int,
    child: &TaskControlBlock,
) -> bool {
    let c = child.pid.0;
    &&& k1.tasks@ == with_task(
        k0.tasks@.update(parent, Some(k1.task(parent))),
        c as int,
        *child,
    )
    &&& with_child(&k0.task(parent), &k1.task(parent), c)
    &&& k1.manager.queue() == k0.manager.queue().push(c)
    &&& k1.processor.running() == k0.processor.running()
}

impl<D: BlockDevice> Kernel<D> {
    /// Puts a new process into its place.
    pub(crate) fn place_task(&mut self, pid: usize, task: TaskControlBlock)
        requires
            pid <= old(self).tasks@.len(),
        ensures
            final(self).tasks@ == with_task(old(self).tasks@, pid as int, task),
            final(self).shared == old(self).shared,
            final(self).manager == old(self).manager,
            final(self).processor == old(self).processor,
            final(self).fs == old(self).fs,
            final(self).open_files == old(self).open_files,
    {
        if pid < self.tasks.len() {
            self.tasks[pid] = Some(task);
        } else {
            self.tasks.push(Some(task));
        }
    }
}

/// The kernel is in order with a new process.
pub proof fn lemma_born<D: BlockDevice>(
    k0: &Kernel<D>,
    k1: &Kernel<D>,
    parent: int,
    child: &TaskControlBlock,
)
    requires
        k0.wf(),
        k0.has(parent),
        k0.inner(parent).task_status != TaskStatus::Zombie,
        newborn(child, Some(parent as usize), &k0.shared, &k1.shared),
        child.inner.loaded(&k1.shared.memory),
        born(k0, k1, parent, child),
        rooted(&k1.fs),
        k1.handles_ok(),
        k1.open_files@.len() >= k0.open_files@.len(),
        forall|fd: int|
            0 <= fd < child.inner.fd_table@.len() ==> k1.file_ok(
                #[trigger] child.inner.fd_table@[fd],
            ),
    ensures
        k1.wf(),
{
    let c = child.pid.0 as int;
    let own0 = k0.shared.kernel_space.owned();
    let own1 = k1.shared.kernel_space.owned().union(child.inner.memory_set.owned());
    assert(!k0.shared.pids.in_use(c));
    assert(!k0.has(c));
    assert(c <= k0.tasks@.len()) by {
        let returned = k0.shared.pids.returned();
        if returned.len() > 0 {
            assert(returned[returned.len() - 1] < k0.shared.pids.next());
        }
    }
    assert(k1.has(c) && k1.task(c) == *child);
    assert forall|j: int| #[trigger] k1.has(j) == (j == c || k0.has(j)) by {}
    assert forall|j: int| #[trigger] k1.has(j) && j != c && j != parent implies k1.task(j)
        == k0.task(j) by {}
    // the address spaces
    assert forall|j: int| #[trigger] k1.has(j) implies {
        &&& k1.space(j).wf(&k1.shared.memory)
        &&& k1.space(j).owned().disjoint(k1.shared.kernel_space.owned())
        &&& k1.inner(j).task_status != TaskStatus::Zombie ==> k1.inner(j).loaded(
            &k1.shared.memory,
        )
        &&& j != c ==> k1.space(j).owned().disjoint(child.inner.memory_set.owned())
    } by {
        if j != c {
            assert(k0.has(j));
            assert(k1.space(j) == k0.space(j));
            lemma_bystander(&k0.space(j), &k0.shared.memory, &k1.shared.memory, own0, own1);
        }
    }
    assert forall|i: int, j: int| #[trigger]
        k1.has(i) && #[trigger] k1.has(j) && i != j implies k1.space(i).owned().disjoint(
        k1.space(j).owned(),
    ) by {
        if i != c && j != c {
            assert(k0.has(i) && k0.has(j));
        }
    }
    assert(k1.spaces_ok());
    assert(k1.numbers_ok()) by {
        assert forall|j: int| #[trigger] k1.has(j) == k1.shared.pids.in_use(j) by {
            assert(k0.has(j) == k0.shared.pids.in_use(j));
        }
        assert forall|j: int| #[trigger] k1.has(j) implies k1.task(j).pid.0 == j
            && k1.shared.kstacks.in_use(k1.task(j).kernel_stack.0 as int) by {
            if j != c {
                assert(k0.has(j));
            }
        }
        assert forall|i: int, j: int| #[trigger]
            k1.has(i) && #[trigger] k1.has(j) && i != j implies k1.task(i).kernel_stack.0
            != k1.task(j).kernel_stack.0 by {
            if i != c {
                assert(k0.has(i));
            }
            if j != c {
                assert(k0.has(j));
            }
        }
    }
    lemma_born_family(k0, k1, parent, child);
    assert(k1.priorities_ok()) by {
        assert forall|j: int| #[trigger] k1.has(j) implies k1.inner(j).priority >= 2 by {
            assert(k0.has(j) || k1.inner(j).priority == 16);
        }
    }
    assert(k1.queue_ok()) by {
        let queue = k0.manager.queue();
        let longer = k1.manager.queue();
        assert(!queue.contains(c as usize)) by {
            if queue.contains(c as usize) {
                assert(k0.has(queue[queue.index_of(c as usize)] as int));
            }
        }
        lemma_added(queue, c as usize);
        assert forall|i: int| 0 <= i < longer.len() implies k1.has(#[trigger] longer[i] as int) by {
            if i < queue.len() {
                assert(k0.has(queue[i] as int));
            }
        }
        assert forall|j: int| #[trigger] k1.has(j) implies {
            &&& (k1.inner(j).task_status == TaskStatus::Ready) == longer.contains(j as usize)
            &&& (k1.inner(j).task_status == TaskStatus::Running) == (k1.processor.running() == Some(
                j as usize,
            ))
            &&& k1.inner(j).task_status != TaskStatus::UnInit
        } by {
            assert(longer.contains(j as usize) == (j as usize == c as usize || queue.contains(
                j as usize,
            )));
            if j != c {
                assert(k0.has(j));
            } else if k1.processor.running() == Some(c as usize) {
                assert(k0.has(c));
            }
        }
    }
    assert forall|j: int, fd: int|
        #![trigger k1.inner(j).fd_table@[fd]]
        k1.has(j) && 0 <= fd < k1.inner(j).fd_table@.len() implies k1.file_ok(
        k1.inner(j).fd_table@[fd],
    ) by {
        if j != c {
            assert(k0.has(j));
            assert(k0.file_ok(k0.inner(j).fd_table@[fd]));
        }
    }
}

/// Families are in order with a new process.
proof fn lemma_born_family<D: BlockDevice>(
    k0: &Kernel<D>,
    k1: &Kernel<D>,
    parent: int,
    child: &TaskControlBlock,
)
    requires
        k0.family_ok(),
        k0.has(parent),
        k0.inner(parent).task_status != TaskStatus::Zombie,
        !k0.has(child.pid.0 as int),
        forall|j: int| #[trigger] k1.has(j) == (j == child.pid.0 || k0.has(j)),
        forall|j: int| #[trigger]
            k1.has(j) && j != child.pid.0 && j != parent ==> k1.task(j) == k0.task(j),
        k1.task(child.pid.0 as int) == *child,
        with_child(&k0.task(parent), &k1.task(parent), child.pid.0),
        child.inner.parent == Some(parent as usize),
        child.inner.children@ == Seq::<usize>::empty(),
        child.inner.task_status == TaskStatus::Ready,
    ensures
        k1.family_ok(),
{
    let c = child.pid.0 as int;
    let children = k0.inner(parent).children@;
    assert(k0.has(0) && k1.has(0));
    assert(!children.contains(c as usize)) by {
        if children.contains(c as usize) {
            assert(k0.is_child(parent, c));
        }
    }
    lemma_added(children, c as usize);
    assert forall|p: int| #[trigger] k1.has(p) implies k1.inner(p).children@.no_duplicates()
        && k1.inner(p).parent != Some(p as usize) by {
        if p != c {
            assert(k0.has(p));
        }
    }
    assert forall|p: int, x: int| k1.has(p) && #[trigger] k1.is_child(p, x) implies k1.has(x)
        && k1.inner(x).parent == Some(p as usize) by {
        if p == parent {
            if x != c {
                assert(children.push(c as usize).contains(x as usize));
                assert(k0.is_child(parent, x));
                assert(k0.has(x));
                assert(k1.has(x));
            }
        } else if p != c {
            assert(k0.has(p) && k0.is_child(p, x));
            assert(k0.has(x));
            assert(k1.has(x));
        }
    }
    assert forall|x: int| #[trigger] k1.has(x) && x != IDLE_PID implies {
        &&& k1.inner(x).parent is Some
        &&& k1.has(k1.inner(x).parent->0 as int)
        &&& k1.is_child(k1.inner(x).parent->0 as int, x)
    } by {
        if x == c {
            assert(k1.has(parent));
            assert(children.push(c as usize).contains(c as usize));
        } else {
            assert(k0.has(x));
            let p = k0.inner(x).parent->0 as int;
            assert(k0.has(p) && k0.is_child(p, x));
            assert(k1.has(p));
            if p == parent {
                assert(children.push(c as usize).contains(x as usize));
            }
        }
    }
    assert forall|p: int| #[trigger]
        k1.has(p) && k1.inner(p).task_status == TaskStatus::Zombie implies k1.inner(
        p,
    ).children@.len() == 0 by {
        assert(k0.has(p));
    }
}

} // verus!
