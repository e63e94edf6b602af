//! Which process runs, and how processes stop running.

use vstd::prelude::*;

use super::state::{
    lemma_family_kept, lemma_kept, lemma_only_same, lemma_spaces_kept, same_relatives, Kernel,
};
use crate::easy_fs::block_dev::BlockDevice;
use crate::task::manager::{law_least_place, least_place};
use crate::task::task::{TaskControlBlock, TaskControlBlockInner, TaskStatus};
use crate::trap::context::TrapContext;

verus! {

/// The strides of the ready processes, in the order of the queue.
pub open spec fn strides_of<D: BlockDevice>(k: &Kernel<D>) -> Seq<i64> {
    k.manager.queue().map_values(|pid: usize| k.inner(pid as int).stride)
}

/// Nothing but the processes, the queue and the processor has changed.
pub open spec fn same_things<D: BlockDevice>(k0: &Kernel<D>, k1: &Kernel<D>) -> bool {
    &&& k1.shared == k0.shared
    &&& k1.fs == k0.fs
    &&& k1.open_files == k0.open_files
}

/// The process with another status.
pub open spec fn with_status(t: TaskControlBlock, status: TaskStatus) -> TaskControlBlock {
    TaskControlBlock { inner: TaskControlBlockInner { task_status: status, ..t.inner }, ..t }
}

impl<D: BlockDevice> Kernel<D> {
    /// The process that runs.
    pub fn current_task(&self) -> (r: Option<usize>)
        ensures
            r == self.processor.running(),
    {
        self.processor.current()
    }

    /// Takes the process that runs from the processor.
    pub fn take_current_task(&mut self) -> (r: Option<usize>)
        ensures
            r == old(self).processor.running(),
            final(self).processor.running() is None,
            final(self).processor.idle() == old(self).processor.idle(),
            final(self).tasks == old(self).tasks,
            final(self).manager == old(self).manager,
            same_things(old(self), final(self)),
    {
        self.processor.take_current()
    }

    /// The value of the control register for the address space of the process that runs.
    pub fn current_user_token(&self) -> (r: u64)
        requires
            self.wf(),
            self.processor.running() is Some,
        ensures
            r == 0x8000_0000_0000_0000 + self.space(self.processor.running()->0 as int).root(),
    {
        let pid: usize = self.processor.current().unwrap();
        proof {
            assert(self.has(pid as int));
            self.space(pid as int).lemma_wf(&self.shared.memory);
        }
        match &self.tasks[pid] {
            Some(task) => task.get_user_token(),
            None => 0,
        }
    }

    /// The saved registers of the process that runs.
    pub fn current_trap_cx(&self) -> (r: TrapContext)
        requires
            self.wf(),
            self.processor.running() is Some,
        ensures
            r.lies_in(
                self.shared.memory@,
                self.inner(self.processor.running()->0 as int).trap_cx_ppn.0 as int,
            ),
    {
        let pid: usize = self.processor.current().unwrap();
        assert(self.has(pid as int));
        assert(self.inner(pid as int).task_status == TaskStatus::Running);
        let task: &TaskControlBlock = self.tasks[pid].as_ref().unwrap();
        task.inner.get_trap_cx(&self.shared.memory)
    }

    /// Puts a process at the end of the queue.
    pub fn add_task(&mut self, pid: usize)
        ensures
            final(self).manager.queue() == old(self).manager.queue().push(pid),
            final(self).tasks == old(self).tasks,
            final(self).processor == old(self).processor,
            same_things(old(self), final(self)),
    {
        self.manager.add(pid);
    }

    /// Takes the first of the ready processes with the smallest stride out of the queue.
    pub fn fetch_task(&mut self) -> (r: Option<usize>)
        requires
            old(self).queue_ok(),
        ensures
            ({
                let queue = old(self).manager.queue();
                let k = least_place(strides_of(old(self)));
                match r {
                    Some(pid) => queue.len() > 0 && pid == queue[k] && final(self).manager.queue()
                        == queue.remove(k),
                    None => queue.len() == 0 && final(self).manager.queue() == queue,
                }
            }),
            final(self).tasks == old(self).tasks,
            final(self).processor == old(self).processor,
            same_things(old(self), final(self)),
    {
        let ghost queue = self.manager.queue();
        let mut strides: Vec<i64> = Vec::new();
        let mut i: usize = 0;
        let n: usize = self.manager.len();
        while i < n
            invariant
                *self == *old(self),
                self.queue_ok(),
                queue == self.manager.queue(),
                n == queue.len(),
                i <= n,
                strides@ == strides_of(self).take(i as int),
            decreases n - i,
        {
            let pid: usize = self.manager.get(i);
            assert(self.has(queue[i as int] as int));
            match &self.tasks[pid] {
                Some(task) => strides.push(task.inner.stride),
                None => {},
            }
            i += 1;
            assert(strides@ =~= strides_of(self).take(i as int));
        }
        assert(strides@ =~= strides_of(self));
        self.manager.fetch(&strides)
    }

    /// One round of the loop that looks for the next process: it is the first of the ready processes
    /// with the smallest stride, and it runs then. `None` if no process is ready.
    pub fn run_tasks(&mut self) -> (r: Option<usize>)
        requires
            old(self).wf(),
            old(self).processor.running() is None,
        ensures
            final(self).wf(),
            same_things(old(self), final(self)),
            final(self).processor.running() == r,
            ({
                let queue = old(self).manager.queue();
                let k = least_place(strides_of(old(self)));
                match r {
                    Some(pid) => {
                        &&& queue.len() > 0
                        &&& pid == queue[k]
                        &&& final(self).manager.queue() == queue.remove(k)
                        &&& final(self).tasks@ == old(self).tasks@.update(
                            pid as int,
                            Some(with_status(old(self).task(pid as int), TaskStatus::Running)),
                        )
                    },
                    None => {
                        &&& queue.len() == 0
                        &&& final(self).manager.queue() == queue
                        &&& final(self).tasks == old(self).tasks
                    },
                }
            }),
    {
        let ghost k0 = *self;
        let ghost queue = self.manager.queue();
        let ghost k = least_place(strides_of(self));
        match self.fetch_task() {
            Some(pid) => {
                proof {
                    law_least_place(strides_of(&k0));
                    assert(k0.has(queue[k] as int));
                }
                let mut task: TaskControlBlock = self.take_task(pid);
                task.inner.task_status = TaskStatus::Running;
                self.put_task(pid, task);
                self.processor.set_current(pid);
                proof {
                    assert(self.tasks@ =~= k0.tasks@.update(
                        pid as int,
                        Some(with_status(k0.task(pid as int), TaskStatus::Running)),
                    ));
                    lemma_status_changed(&k0, self, pid as int);
                    lemma_taken(queue, k);
                    assert(self.queue_ok()) by {
                        lemma_running(&k0, self, pid, k);
                    }
                }
                Some(pid)
            },
            None => {
                proof {
                    lemma_family_kept(&k0, self);
                }
                None
            },
        }
    }

    /// Lets the process that runs wait in the queue. Returns its number.
    pub fn suspend_current_and_run_next(&mut self) -> (r: usize)
        requires
            old(self).wf(),
            old(self).processor.running() is Some,
        ensures
            final(self).wf(),
            same_things(old(self), final(self)),
            old(self).processor.running() == Some(r),
            final(self).processor.running() is None,
            final(self).manager.queue() == old(self).manager.queue().push(r),
            final(self).tasks@ == old(self).tasks@.update(
                r as int,
                Some(with_status(old(self).task(r as int), TaskStatus::Ready)),
            ),
    {
        let ghost k0 = *self;
        let pid: usize = self.take_current_task().unwrap();
        assert(k0.has(pid as int));
        let mut task: TaskControlBlock = self.take_task(pid);
        task.inner.task_status = TaskStatus::Ready;
        self.put_task(pid, task);
        self.add_task(pid);
        proof {
            assert(self.tasks@ =~= k0.tasks@.update(
                pid as int,
                Some(with_status(k0.task(pid as int), TaskStatus::Ready)),
            ));
            assert(k0.inner(pid as int).task_status == TaskStatus::Running);
            lemma_status_changed(&k0, self, pid as int);
            lemma_waiting(&k0, self, pid);
        }
        pid
    }

    /// The time slice of the process that runs is over: it has come further by its share of
    /// `big_stride`, and waits in the queue. Returns its number.
    pub fn tick(&mut self, big_stride: i64) -> (r: usize)
        requires
            old(self).wf(),
            old(self).processor.running() is Some,
            big_stride >= 0,
            ({
                let inner = old(self).inner(old(self).processor.running()->0 as int);
                inner.stride + big_stride as int / inner.priority as int <= i64::MAX
            }),
        ensures
            final(self).wf(),
            same_things(old(self), final(self)),
            old(self).processor.running() == Some(r),
            final(self).processor.running() is None,
            final(self).manager.queue() == old(self).manager.queue().push(r),
            ({
                let t = old(self).task(r as int);
                let stride = t.inner.stride + big_stride as int / t.inner.priority as int;
                final(self).tasks@ == old(self).tasks@.update(
                    r as int,
                    Some(
                        TaskControlBlock {
                            inner: TaskControlBlockInner {
                                stride: stride as i64,
                                task_status: TaskStatus::Ready,
                                ..t.inner
                            },
                            ..t
                        },
                    ),
                )
            }),
    {
        let ghost k0 = *self;
        let pid: usize = self.processor.current().unwrap();
        let ghost p = pid as int;
        assert(k0.has(p));
        let mut task: TaskControlBlock = self.take_task(pid);
        let prio: i64 = task.inner.priority;
        proof {
            vstd::arithmetic::div_mod::lemma_div_pos_is_pos(big_stride as int, prio as int);
        }
        let step: i64 = share(big_stride, prio);
        task.inner.stride = task.inner.stride + step;
        self.put_task(pid, task);
        proof {
            lemma_only_same(&k0.space(p), &k0.shared.memory);
            assert(self.tasks@ =~= k0.tasks@.update(p, Some(self.task(p))));
            assert(k0.inner(p).task_status == TaskStatus::Running);
            assert forall|fd: int| 0 <= fd < self.inner(p).fd_table@.len() implies self.file_ok(
                #[trigger] self.inner(p).fd_table@[fd],
            ) by {
                assert(k0.file_ok(k0.inner(p).fd_table@[fd]));
            }
            lemma_kept(&k0, self, p);
        }
        self.suspend_current_and_run_next();
        assert(self.tasks@ =~= k0.tasks@.update(p, Some(self.task(p))));
        pid
    }
}

/// The share of a process in the big stride.
fn share(big_stride: i64, prio: i64) -> (r: i64)
    requires
        big_stride >= 0,
        prio >= 2,
    ensures
        r == big_stride as int / prio as int,
        0 <= r,
{
    proof {
        vstd::arithmetic::div_mod::lemma_div_pos_is_pos(big_stride as int, prio as int);
    }
    (big_stride as u64 / prio as u64) as i64
}

/// The strides lie close together: no two of them are further apart than `reach`.
pub open spec fn close(strides: Seq<int>, reach: int) -> bool {
    forall|i: int, j: int|
        0 <= i < strides.len() && 0 <= j < strides.len() ==> #[trigger] strides[i]
            - #[trigger] strides[j] <= reach
}

/// Where all priorities are at least 2, the strides of a fixed set of processes never get further
/// apart than half of the big stride: the process that runs is one with the smallest stride, and it
/// comes further by at most that much.
pub proof fn law_strides_stay_close(strides: Seq<int>, k: int, big_stride: int, prio: int)
    requires
        big_stride >= 0,
        prio >= 2,
        0 <= k < strides.len(),
        close(strides, big_stride / 2),
        forall|i: int| 0 <= i < strides.len() ==> strides[k] <= #[trigger] strides[i],
    ensures
        close(strides.update(k, strides[k] + big_stride / prio), big_stride / 2),
{
    let next = strides.update(k, strides[k] + big_stride / prio);
    vstd::arithmetic::div_mod::lemma_div_is_ordered_by_denominator(big_stride, 2, prio);
    vstd::arithmetic::div_mod::lemma_div_pos_is_pos(big_stride, prio);
    assert forall|i: int, j: int| 0 <= i < next.len() && 0 <= j < next.len() implies #[trigger] next[i]
        - #[trigger] next[j] <= big_stride / 2 by {
        assert(strides[i] - strides[j] <= big_stride / 2);
        assert(strides[k] <= strides[i] && strides[k] <= strides[j]);
    }
}

/// The process that runs next has the smallest stride of all that are ready.
pub proof fn law_next_is_least<D: BlockDevice>(k: &Kernel<D>, pid: usize)
    requires
        k.wf(),
        k.manager.queue().len() > 0,
        pid == k.manager.queue()[least_place(strides_of(k))],
    ensures
        forall|j: int| #[trigger]
            k.has(j) && k.inner(j).task_status == TaskStatus::Ready ==> k.inner(pid as int).stride
                <= k.inner(j).stride,
{
    let queue = k.manager.queue();
    let strides = strides_of(k);
    law_least_place(strides);
    assert forall|j: int| #[trigger]
        k.has(j) && k.inner(j).task_status == TaskStatus::Ready implies k.inner(pid as int).stride
        <= k.inner(j).stride by {
        let i = queue.index_of(j as usize);
        assert(queue.contains(j as usize));
        assert(strides[i] == k.inner(j).stride);
        assert(strides[least_place(strides)] == k.inner(pid as int).stride);
    }
}

/// The next process is one of those that have come least far, and of these the one that has waited
/// longest: no process that is ready has a smaller stride, and none before it in the queue has the
/// same. It runs then, and the others wait in the order in which they waited. If no process is ready,
/// none runs.
pub proof fn law_run_tasks<D: BlockDevice>(k0: Kernel<D>, k1: Kernel<D>, r: Option<usize>)
    requires
        exists|k: &mut Kernel<D>| #[trigger]
            call_ensures(Kernel::<D>::run_tasks, (k,), r) && *k == k0 && *final(k) == k1,
        k0.wf(),
    ensures
        k1.processor.running() == r,
        r is None <==> forall|j: int| #[trigger]
            k0.has(j) ==> k0.inner(j).task_status != TaskStatus::Ready,
        r matches Some(pid) ==> {
            &&& k0.has(pid as int)
            &&& k0.inner(pid as int).task_status == TaskStatus::Ready
            &&& k1.inner(pid as int).task_status == TaskStatus::Running
            &&& k1.inner(pid as int).stride == k0.inner(pid as int).stride
            &&& forall|j: int| #[trigger]
                k0.has(j) && k0.inner(j).task_status == TaskStatus::Ready ==> k0.inner(
                    pid as int,
                ).stride <= k0.inner(j).stride
            &&& exists|p: int|
                0 <= p < k0.manager.queue().len() && k0.manager.queue()[p] == pid
                    && k1.manager.queue() == #[trigger] k0.manager.queue().remove(p) && forall|q: int|
                    0 <= q < p ==> k0.inner(pid as int).stride < k0.inner(
                        #[trigger] k0.manager.queue()[q] as int,
                    ).stride
            &&& forall|j: int| #[trigger]
                k0.has(j) && j != pid ==> k1.has(j) && k1.task(j) == k0.task(j)
        },
        k1.shared == k0.shared,
{
    let queue = k0.manager.queue();
    let strides = strides_of(&k0);
    if let Some(pid) = r {
        law_least_place(strides);
        law_next_is_least(&k0, pid);
        let p = least_place(strides);
        assert(k0.has(queue[p] as int));
        assert(queue.contains(queue[p]));
        assert forall|q: int| 0 <= q < p implies k0.inner(pid as int).stride < k0.inner(
            #[trigger] queue[q] as int,
        ).stride by {
            assert(strides[q] == k0.inner(queue[q] as int).stride);
            assert(strides[p] == k0.inner(pid as int).stride);
        }
        assert(k1.manager.queue() == queue.remove(p));
    } else {
        assert forall|j: int| #[trigger] k0.has(j) implies k0.inner(j).task_status
            != TaskStatus::Ready by {
            assert(!queue.contains(j as usize));
        }
    }
}

/// A process whose time is over has come further by the share of the big stride that its priority
/// leaves it, the whole part of their quotient, and is ready behind all others.
pub proof fn law_tick<D: BlockDevice>(k0: Kernel<D>, k1: Kernel<D>, big_stride: i64, r: usize)
    requires
        exists|k: &mut Kernel<D>| #[trigger]
            call_ensures(Kernel::<D>::tick, (k, big_stride), r) && *k == k0 && *final(k) == k1,
        k0.wf(),
        k0.processor.running() is Some,
        big_stride >= 0,
        ({
            let inner = k0.inner(k0.processor.running()->0 as int);
            inner.stride + big_stride as int / inner.priority as int <= i64::MAX
        }),
    ensures
        k0.processor.running() == Some(r),
        k1.processor.running() is None,
        k1.manager.queue() == k0.manager.queue().push(r),
        k1.inner(r as int).task_status == TaskStatus::Ready,
        ({
            let step = k1.inner(r as int).stride - k0.inner(r as int).stride;
            let prio = k0.inner(r as int).priority;
            step * prio <= big_stride < (step + 1) * prio
        }),
{
    assert(k0.has(r as int));
    let prio = k0.inner(r as int).priority as int;
    let q = big_stride as int / prio;
    vstd::arithmetic::div_mod::lemma_fundamental_div_mod(big_stride as int, prio);
    vstd::arithmetic::div_mod::lemma_div_pos_is_pos(big_stride as int, prio);
    vstd::arithmetic::div_mod::lemma_mod_bound(big_stride as int, prio);
    assert(q * prio == prio * q && (q + 1) * prio == prio * q + prio) by (nonlinear_arith);
}

/// Without the element at a place a list without duplicates does not have it any more.
pub proof fn lemma_taken(list: Seq<usize>, k: int)
    requires
        list.no_duplicates(),
        0 <= k < list.len(),
    ensures
        list.remove(k).no_duplicates(),
        !list.remove(k).contains(list[k]),
        forall|x: usize| x != list[k] ==> #[trigger] list.remove(k).contains(x) == list.contains(x),
{
    let t = list.remove(k);
    assert forall|x: usize| x != list[k] implies #[trigger] t.contains(x) == list.contains(x) by {
        if list.contains(x) {
            let i = list.index_of(x);
            if i < k {
                assert(t[i] == x);
            } else {
                assert(t[i - 1] == x);
            }
        }
        if t.contains(x) {
            let i = t.index_of(x);
            if i < k {
                assert(list[i] == x);
            } else {
                assert(list[i + 1] == x);
            }
        }
    }
}

/// The status of a process has changed; everything but the queue is as before.
pub proof fn lemma_status_changed<D: BlockDevice>(k0: &Kernel<D>, k1: &Kernel<D>, pid: int)
    requires
        k0.wf(),
        k0.has(pid),
        k0.inner(pid).task_status != TaskStatus::Zombie,
        k1.inner(pid).task_status != TaskStatus::Zombie,
        k1.tasks@ == k0.tasks@.update(
            pid,
            Some(with_status(k0.task(pid), k1.inner(pid).task_status)),
        ),
        same_things(k0, k1),
    ensures
        k1.spaces_ok(),
        k1.numbers_ok(),
        k1.family_ok(),
        k1.files_ok(),
        k1.priorities_ok(),
        forall|j: int| #[trigger] k1.has(j) == k0.has(j),
{
    assert forall|j: int| #[trigger] k1.has(j) == k0.has(j) by {}
    assert forall|j: int| #[trigger] k1.has(j) && j != pid implies k1.task(j) == k0.task(j) by {}
    lemma_only_same(&k0.space(pid), &k0.shared.memory);
    lemma_spaces_kept(k0, k1, pid);
    assert forall|j: int| #[trigger] k1.has(j) implies same_relatives(
        &k0.task(j),
        &k1.task(j),
    ) by {
        assert(k0.has(j));
    }
    lemma_family_kept(k0, k1);
    assert(k1.priorities_ok()) by {
        assert forall|j: int| #[trigger] k1.has(j) implies k1.inner(j).priority >= 2 by {
            assert(k0.has(j));
        }
    }
    assert(k1.numbers_ok()) by {
        assert forall|j: int| #[trigger] k1.has(j) == k1.shared.pids.in_use(j) by {
            assert(k1.has(j) == k0.has(j));
        }
        assert forall|i: int, j: int| #[trigger]
            k1.has(i) && #[trigger] k1.has(j) && i != j implies k1.task(i).kernel_stack.0
            != k1.task(j).kernel_stack.0 by {
            assert(k0.has(i) && k0.has(j));
        }
    }
    assert forall|j: int, fd: int|
        #![trigger k1.inner(j).fd_table@[fd]]
        k1.has(j) && 0 <= fd < k1.inner(j).fd_table@.len() implies k1.file_ok(
        k1.inner(j).fd_table@[fd],
    ) by {
        assert(k0.has(j));
        assert(k0.file_ok(k0.inner(j).fd_table@[fd]));
    }
}

/// The process that was taken out of the queue runs.
proof fn lemma_running<D: BlockDevice>(k0: &Kernel<D>, k1: &Kernel<D>, pid: usize, k: int)
    requires
        k0.queue_ok(),
        k0.processor.running() is None,
        k0.has(pid as int),
        0 <= k < k0.manager.queue().len(),
        k0.manager.queue()[k] == pid,
        k1.manager.queue() == k0.manager.queue().remove(k),
        k1.processor.running() == Some(pid),
        k1.tasks@ == k0.tasks@.update(
            pid as int,
            Some(with_status(k0.task(pid as int), TaskStatus::Running)),
        ),
    ensures
        k1.queue_ok(),
{
    let queue = k0.manager.queue();
    let rest = k1.manager.queue();
    lemma_taken(queue, k);
    assert forall|i: int| 0 <= i < rest.len() implies k1.has(#[trigger] rest[i] as int) by {
        let i0 = if i < k {
            i
        } else {
            i + 1
        };
        assert(rest[i] == queue[i0]);
        assert(k0.has(queue[i0] as int));
    }
    assert forall|j: int| #[trigger] k1.has(j) implies {
        &&& (k1.inner(j).task_status == TaskStatus::Ready) == rest.contains(j as usize)
        &&& (k1.inner(j).task_status == TaskStatus::Running) == (k1.processor.running() == Some(
            j as usize,
        ))
        &&& k1.inner(j).task_status != TaskStatus::UnInit
    } by {
        assert(k0.has(j));
        if j != pid {
            assert(j as usize != pid);
            assert(rest.contains(j as usize) == queue.contains(j as usize));
        }
    }
}

/// The process that ran waits in the queue.
proof fn lemma_waiting<D: BlockDevice>(k0: &Kernel<D>, k1: &Kernel<D>, pid: usize)
    requires
        k0.queue_ok(),
        k0.processor.running() == Some(pid),
        k1.manager.queue() == k0.manager.queue().push(pid),
        k1.processor.running() is None,
        k1.tasks@ == k0.tasks@.update(
            pid as int,
            Some(with_status(k0.task(pid as int), TaskStatus::Ready)),
        ),
    ensures
        k1.queue_ok(),
{
    let queue = k0.manager.queue();
    let longer = k1.manager.queue();
    assert(k0.has(pid as int));
    assert(!queue.contains(pid));
    lemma_added(queue, pid);
    assert forall|i: int| 0 <= i < longer.len() implies k1.has(#[trigger] longer[i] as int) by {
        if i < queue.len() {
            assert(k0.has(queue[i] as int));
        }
    }
    assert forall|j: int| #[trigger] k1.has(j) implies {
        &&& (k1.inner(j).task_status == TaskStatus::Ready) == longer.contains(j as usize)
        &&& (k1.inner(j).task_status == TaskStatus::Running) == (k1.processor.running() == Some(
            j as usize,
        ))
        &&& k1.inner(j).task_status != TaskStatus::UnInit
    } by {
        assert(k0.has(j));
        assert(longer.contains(j as usize) == (j as usize == pid || queue.contains(j as usize)));
    }
}

/// A list without duplicates with a new element at its end.
pub proof fn lemma_added(list: Seq<usize>, x: usize)
    requires
        list.no_duplicates(),
        !list.contains(x),
    ensures
        list.push(x).no_duplicates(),
        forall|y: usize| #[trigger] list.push(x).contains(y) == (y == x || list.contains(y)),
{
    let longer = list.push(x);
    assert forall|y: usize| #[trigger] longer.contains(y) == (y == x || list.contains(y)) by {
        if list.contains(y) {
            assert(longer[list.index_of(y)] == y);
        }
        if longer.contains(y) {
            let i = longer.index_of(y);
            if i < list.len() {
                assert(list[i] == y);
            }
        }
        assert(longer[list.len() as int] == x);
    }
    assert forall|i: int, j: int| 0 <= i < longer.len() && 0 <= j < longer.len() && i
        != j implies longer[i] != longer[j] by {
        if j == list.len() {
            assert(list.contains(list[i]));
        }
        if i == list.len() {
            assert(list.contains(list[j]));
        }
    }
}

} // verus!
