//! What processes can ask about processes, memory and time.

use vstd::bytes::{lemma_auto_spec_u64_to_from_le_bytes, spec_u64_to_le_bytes};
use vstd::prelude::*;
use vstd::string::StringSliceAdditionalSpecFns;

use crate::bytes::write_u64;
use crate::easy_fs::block_dev::BlockDevice;
use crate::easy_fs::efs::EasyFileSystem;
use crate::fs::file::first_files;
use crate::fs::inode::{file_named, lemma_named, open_file, rooted, OSInode, OpenFlags, OPEN_RDONLY};
use crate::kernel::birth::{born, lemma_born};
use crate::kernel::exit::exited;
use crate::kernel::sched::{same_things, with_status};
use crate::kernel::state::{lemma_kept, lemma_only_same, same_but, Kernel, IDLE_PID};
use crate::kernel::user::{
    buffer_cells, buffer_ok, lemma_buffer_written, name_at, text_ok, user_buffer, user_text,
};
use crate::mm::address::{va_of, PAGE_SIZE, VPN_COUNT};
use crate::mm::elf::{loadable, segments_of, stack_top};
use crate::mm::frame_allocator::{word_at, Memory};
use crate::mm::map_area::{area_ok, AreaView};
use crate::mm::memory_set::{
    appended, area_at, first_unheld, held, lost_pages, mmap_area, pushed, without_pages, MemorySet,
    TRAMPOLINE_VPN, TRAP_CONTEXT_VPN,
};
use crate::mm::page_table::{leaf, pte_valid};
use crate::mm::space::{built_but, copies, has_frame, lemma_frame_changed, lemma_hole_changed};
use crate::mm::stray::{
    areas_only, lemma_areas_only_appended, lemma_areas_only_built, lemma_areas_only_lost,
    lemma_areas_only_pushed, lemma_areas_only_same, lemma_areas_only_without, lemma_held,
};
use crate::mm::user::{put_bytes, UserBuffer};
use crate::task::heap::{
    heap_at_brk, heap_usable, law_heap_can_be_read_and_written, law_moved_heap_stays_usable, lemma_found,
};
use crate::task::id::stack_fits;
use crate::task::shared::{
    lemma_only_again, lemma_only_appended, lemma_only_lost, lemma_only_page, lemma_only_pushed,
    lemma_shared_kept, only,
};
use crate::task::task::{
    can_copy, can_move_brk, can_start, lemma_trap_page, newborn, runs_file, shrunk, stack_end,
    TaskControlBlock, TaskControlBlockInner, TaskStatus,
};

verus! {

/// The kernel is in order and runs a process.
pub open spec fn active<D: BlockDevice>(k: &Kernel<D>) -> bool {
    &&& k.wf()
    &&& k.processor.running() is Some
}

/// The number of the process that runs.
pub open spec fn cur<D: BlockDevice>(k: &Kernel<D>) -> int {
    k.processor.running()->0 as int
}

/// Everything that is not memory or a process is as before.
pub open spec fn same_rest<D: BlockDevice>(k0: &Kernel<D>, k1: &Kernel<D>) -> bool {
    &&& k1.manager == k0.manager
    &&& k1.processor == k0.processor
    &&& k1.fs == k0.fs
    &&& k1.open_files == k0.open_files
}

/// The process that runs has changed as said, and nothing else but memory.
pub open spec fn changed<D: BlockDevice>(
    k0: &Kernel<D>,
    k1: &Kernel<D>,
    t: TaskControlBlock,
) -> bool {
    &&& same_but(k0, k1, cur(k0))
    &&& k1.task(cur(k0)) == t
    &&& same_rest(k0, k1)
}

/// Ends the process that runs, which is not the first one. Returns its number.
pub fn sys_exit<D: BlockDevice>(exit_code: i32, kernel: &mut Kernel<D>) -> (r: usize)
    requires
        active(old(kernel)),
        cur(old(kernel)) != IDLE_PID,
    ensures
        final(kernel).wf(),
        r == cur(old(kernel)),
        final(kernel).processor.running() is None,
        final(kernel).manager.queue() == old(kernel).manager.queue(),
        exited(old(kernel), final(kernel), r as int, exit_code),
{
    kernel.exit_current_and_run_next(exit_code)
}

/// Lets the process that runs wait in the queue.
pub fn sys_yield<D: BlockDevice>(kernel: &mut Kernel<D>) -> (r: i64)
    requires
        active(old(kernel)),
    ensures
        r == 0,
        final(kernel).wf(),
        same_things(old(kernel), final(kernel)),
        final(kernel).processor.running() is None,
        final(kernel).manager.queue() == old(kernel).manager.queue().push(
            cur(old(kernel)) as usize,
        ),
        final(kernel).tasks@ == old(kernel).tasks@.update(
            cur(old(kernel)),
            Some(with_status(old(kernel).task(cur(old(kernel))), TaskStatus::Ready)),
        ),
{
    kernel.suspend_current_and_run_next();
    0
}

/// The number of the process that runs.
pub fn sys_getpid<D: BlockDevice>(kernel: &Kernel<D>) -> (r: i64)
    requires
        active(kernel),
    ensures
        r == cur(kernel) as i64,
{
    let pid: usize = kernel.current_task().unwrap();
    pid as i64
}

/// Sets how much the process that runs is to run. Returns -1 for less than 2.
pub fn sys_set_priority<D: BlockDevice>(prio: i64, kernel: &mut Kernel<D>) -> (r: i64)
    requires
        active(old(kernel)),
    ensures
        final(kernel).wf(),
        r == (if prio < 2 {
            -1int
        } else {
            prio as int
        }),
        prio < 2 ==> *final(kernel) == *old(kernel),
        prio >= 2 ==> changed(
            old(kernel),
            final(kernel),
            (TaskControlBlock {
                inner: TaskControlBlockInner { priority: prio, ..old(kernel).inner(cur(old(kernel))) },
                ..old(kernel).task(cur(old(kernel)))
            }),
        ) && final(kernel).shared == old(kernel).shared,
{
    if prio < 2 {
        return -1;
    }
    let ghost k0 = *kernel;
    let pid: usize = kernel.current_task().unwrap();
    assert(k0.has(pid as int));
    let mut task: TaskControlBlock = kernel.take_task(pid);
    task.inner.priority = prio;
    kernel.put_task(pid, task);
    proof {
        lemma_only_same(&k0.space(pid as int), &k0.shared.memory);
        assert(kernel.tasks@ =~= k0.tasks@.update(pid as int, Some(kernel.task(pid as int))));
        assert forall|fd: int|
            0 <= fd < kernel.inner(pid as int).fd_table@.len() implies kernel.file_ok(
            #[trigger] kernel.inner(pid as int).fd_table@[fd],
        ) by {
            assert(k0.file_ok(k0.inner(pid as int).fd_table@[fd]));
        }
        lemma_kept(&k0, kernel, pid as int);
    }
    prio
}

/// The process that runs with another address space.
pub open spec fn with_space(t: TaskControlBlock, ms: MemorySet) -> TaskControlBlock {
    TaskControlBlock { inner: TaskControlBlockInner { memory_set: ms, ..t.inner }, ..t }
}

/// The kernel is in order when the memory of the process that runs has changed.
proof fn lemma_space_changed<D: BlockDevice>(k0: &Kernel<D>, k1: &Kernel<D>)
    requires
        active(k0),
        k1.tasks@ == k0.tasks@.update(cur(k0), Some(k1.task(cur(k0)))),
        k1.shared.kernel_space == k0.shared.kernel_space,
        k1.shared.pids == k0.shared.pids,
        k1.shared.kstacks == k0.shared.kstacks,
        k1.shared.entry == k0.shared.entry,
        k1.task(cur(k0)) == (TaskControlBlock {
            inner: TaskControlBlockInner {
                memory_set: k1.space(cur(k0)),
                program_brk: k1.inner(cur(k0)).program_brk,
                ..k0.inner(cur(k0))
            },
            ..k0.task(cur(k0))
        }),
        same_rest(k0, k1),
        k1.space(cur(k0)).wf(&k1.shared.memory),
        areas_only(&k1.space(cur(k0)), &k1.shared.memory),
        has_frame(
            &k1.space(cur(k0)),
            TRAP_CONTEXT_VPN as int,
            k0.inner(cur(k0)).trap_cx_ppn.0 as int,
        ),
        only(
            &k0.shared.memory,
            &k1.shared.memory,
            k0.space(cur(k0)).owned(),
            k1.space(cur(k0)).owned(),
        ),
    ensures
        k1.wf(),
        changed(k0, k1, k1.task(cur(k0))),
{
    let pid = cur(k0);
    assert(k0.has(pid));
    assert forall|fd: int| 0 <= fd < k1.inner(pid).fd_table@.len() implies k1.file_ok(
        #[trigger] k1.inner(pid).fd_table@[fd],
    ) by {
        assert(k0.file_ok(k0.inner(pid).fd_table@[fd]));
    }
    lemma_kept(k0, k1, pid);
}

/// The request for memory makes sense: it starts at a page and asks for something.
pub open spec fn mmap_sensible(start: u64, prot: u64) -> bool {
    start % 4096 == 0 && 1 <= prot <= 7
}

/// There is no page mapped in the range, and there are frames for it.
pub open spec fn mmap_possible(ms: &MemorySet, memory: &Memory, area: AreaView) -> bool {
    &&& !exists|v: int|
        area.start <= v < area.end && pte_valid(#[trigger] leaf(memory@, ms.root(), v))
    &&& ms.shape(memory).cost(true, area.start, area.end) <= memory.free().len()
}

/// Maps the pages of `[start, start + len)` to fresh frames. Bit 0 of `prot` allows to read them,
/// bit 1 to write, bit 2 to execute. Returns -1, and changes nothing, if `start` is not the start of
/// a page, if other bits of `prot` are set or none of them, if one of the pages is mapped, or if
/// there are not enough frames.
pub fn sys_mmap<D: BlockDevice>(start: u64, len: u64, prot: u64, kernel: &mut Kernel<D>) -> (r: i64)
    requires
        active(old(kernel)),
        mmap_sensible(start, prot) ==> {
            &&& start + len <= u64::MAX
            &&& va_of(start) / 4096 <= (va_of((start + len) as u64) + 4095) / 4096
        },
    ensures
        final(kernel).wf(),
        ({
            let k0 = *old(kernel);
            let k1 = *final(kernel);
            let area = mmap_area(start, len, prot);
            if mmap_sensible(start, prot) && mmap_possible(
                &k0.space(cur(&k0)),
                &k0.shared.memory,
                area,
            ) {
                &&& r == 0
                &&& changed(&k0, &k1, with_space(k0.task(cur(&k0)), k1.space(cur(&k0))))
                &&& pushed(
                    &k0.space(cur(&k0)),
                    &k1.space(cur(&k0)),
                    area,
                    Seq::empty(),
                    &k0.shared.memory,
                    &k1.shared.memory,
                )
            } else {
                &&& r == -1
                &&& k1.tasks@ == k0.tasks@
                &&& k1.shared == k0.shared
                &&& same_rest(&k0, &k1)
            }
        }),
        r == 0 ==> start % 4096 == 0 && 1 <= prot <= 7 && forall|v: int|
            va_of(start) / 4096 <= v < (va_of((start + len) as u64) + 4095) / 4096 ==> {
                let e = #[trigger] leaf(
                    final(kernel).shared.memory@,
                    final(kernel).space(cur(old(kernel))).root(),
                    v,
                );
                &&& e % 2 == 1
                &&& e / 2 % 2 == prot % 2
                &&& e / 4 % 2 == prot / 2 % 2
                &&& e / 8 % 2 == prot / 4 % 2
                &&& e / 16 % 2 == 1
            },
{
    assert(prot & !7u64 == 0 <==> prot < 8) by (bit_vector);
    assert(prot & 7u64 == prot % 8) by (bit_vector);
    if start % PAGE_SIZE != 0 || prot & !7u64 != 0 || prot & 7 == 0 {
        return -1;
    }
    let ghost k0 = *kernel;
    let pid: usize = kernel.current_task().unwrap();
    assert(k0.has(pid as int));
    let mut task: TaskControlBlock = kernel.take_task(pid);
    let res: i64 = task.inner.memory_set.map(start, len, prot, &mut kernel.shared.memory);
    kernel.put_task(pid, task);
    proof {
        let p = pid as int;
        let ms0 = k0.space(p);
        let ms1 = kernel.space(p);
        let ppn = k0.inner(p).trap_cx_ppn.0 as int;
        assert(k0.inner(p).task_status == TaskStatus::Running);
        assert(kernel.tasks@ =~= k0.tasks@.update(p, Some(kernel.task(p))));
        if res == 0 {
            lemma_only_pushed(
                &ms0,
                &ms1,
                mmap_area(start, len, prot),
                Seq::empty(),
                &k0.shared.memory,
                &kernel.shared.memory,
            );
            assert(has_frame(&ms1, TRAP_CONTEXT_VPN as int, ppn)) by {
                let k = choose|k: int|
                    0 <= k < ms0.views().len() && (
                    #[trigger] ms0.views()[k]).frames.dom().contains(TRAP_CONTEXT_VPN as int)
                        && ms0.views()[k].frames[TRAP_CONTEXT_VPN as int] == ppn;
                assert(ms1.views()[k] == ms0.views()[k]);
            }
            lemma_areas_only_pushed(
                &ms0,
                &ms1,
                mmap_area(start, len, prot),
                Seq::empty(),
                &k0.shared.memory,
                &kernel.shared.memory,
            );
        } else {
            lemma_only_same(&ms0, &k0.shared.memory);
            assert(kernel.tasks@ =~= k0.tasks@);
        }
        lemma_space_changed(&k0, kernel);
    }
    res
}

/// Unmaps the pages of `[start, start + len)`, one after the other, and gives back their frames.
/// Returns 0 if `start` is the start of a page and all pages were mapped, the trampoline not among
/// them; the other pages keep their mapping. Returns -1 if `start` is not the start of a page, or at
/// the first page that is not mapped or is the trampoline; the pages before it are unmapped then. The
/// page of the saved registers is not among the pages.
pub fn sys_munmap<D: BlockDevice>(start: u64, len: u64, kernel: &mut Kernel<D>) -> (r: i64)
    requires
        active(old(kernel)),
        start % 4096 == 0 ==> {
            let from = va_of(start) / 4096;
            let to = (va_of((start + len) as u64) + 4095) / 4096;
            &&& start + len <= u64::MAX
            &&& from <= to
            &&& !(from <= TRAP_CONTEXT_VPN < to)
        },
    ensures
        final(kernel).wf(),
        ({
            let k0 = *old(kernel);
            let k1 = *final(kernel);
            let ms0 = k0.space(cur(&k0));
            let ms1 = k1.space(cur(&k0));
            let from = va_of(start) / 4096;
            let to = (va_of((start + len) as u64) + 4095) / 4096;
            let stop = first_unheld(&ms0, &k0.shared.memory, from, to);
            if start % 4096 == 0 {
                &&& r == (if stop == to {
                    0int
                } else {
                    -1
                })
                &&& changed(&k0, &k1, with_space(k0.task(cur(&k0)), ms1))
                &&& ms1.views() == without_pages(ms0.views(), from, stop)
                &&& lost_pages(
                    &ms0,
                    &ms1,
                    from,
                    stop,
                    &k0.shared.memory,
                    &k1.shared.memory,
                )
            } else {
                r == -1 && k1 == k0
            }
        }),
        ({
            let k0 = *old(kernel);
            let k1 = *final(kernel);
            let ms0 = k0.space(cur(&k0));
            let ms1 = k1.space(cur(&k0));
            let from = va_of(start) / 4096;
            let to = (va_of((start + len) as u64) + 4095) / 4096;
            &&& r == 0 <==> start % 4096 == 0 && forall|v: int|
                from <= v < to ==> pte_valid(#[trigger] leaf(k0.shared.memory@, ms0.root(), v)) && v
                    != TRAMPOLINE_VPN
            &&& r == 0 ==> forall|v: int|
                0 <= v < VPN_COUNT ==> #[trigger] leaf(k1.shared.memory@, ms1.root(), v) == (if from
                    <= v < to {
                    0
                } else {
                    leaf(k0.shared.memory@, ms0.root(), v)
                })
        }),
{
    if start % PAGE_SIZE != 0 {
        return -1;
    }
    let ghost k0 = *kernel;
    let pid: usize = kernel.current_task().unwrap();
    assert(k0.has(pid as int));
    let mut task: TaskControlBlock = kernel.take_task(pid);
    let res: i64 = task.inner.memory_set.munmap(start, len, &mut kernel.shared.memory);
    kernel.put_task(pid, task);
    proof {
        let p = pid as int;
        let ms0 = k0.space(p);
        let ms1 = kernel.space(p);
        let ppn = k0.inner(p).trap_cx_ppn.0 as int;
        let from = va_of(start) / 4096;
        let to = (va_of((start + len) as u64) + 4095) / 4096;
        let stop = first_unheld(&ms0, &k0.shared.memory, from, to);
        lemma_first_unheld(&ms0, &k0.shared.memory, from, to);
        assert(k0.inner(p).task_status == TaskStatus::Running);
        assert(kernel.tasks@ =~= k0.tasks@.update(p, Some(kernel.task(p))));
        lemma_only_lost(&ms0, &ms1, from, stop, &k0.shared.memory, &kernel.shared.memory);
        assert(has_frame(&ms1, TRAP_CONTEXT_VPN as int, ppn)) by {
            let v = TRAP_CONTEXT_VPN as int;
            let k = choose|k: int|
                0 <= k < ms0.views().len() && (#[trigger] ms0.views()[k]).frames.dom().contains(v)
                    && ms0.views()[k].frames[v] == ppn;
            assert(ms1.views()[k].frames.dom().contains(v));
            assert(ms1.views()[k].frames[v] == ppn);
        }
        assert forall|v: int| from <= v < stop implies pte_valid(
            #[trigger] leaf(k0.shared.memory@, ms0.root(), v),
        ) && v != TRAMPOLINE_VPN by {
            assert(held(&ms0, &k0.shared.memory, v));
            lemma_held(&ms0, &k0.shared.memory, v);
        }
        if stop < to {
            lemma_held(&ms0, &k0.shared.memory, stop);
        }
        lemma_areas_only_without(&ms0, &ms1, from, stop, &k0.shared.memory, &kernel.shared.memory);
        lemma_space_changed(&k0, kernel);
    }
    res
}

/// The first page that is not mapped lies in the range or at its end.
proof fn lemma_first_unheld(ms: &MemorySet, memory: &Memory, from: int, to: int)
    requires
        from <= to,
    ensures
        from <= first_unheld(ms, memory, from, to) <= to,
        forall|v: int|
            from <= v < first_unheld(ms, memory, from, to) ==> #[trigger] held(ms, memory, v),
        first_unheld(ms, memory, from, to) < to ==> !held(
            ms,
            memory,
            first_unheld(ms, memory, from, to),
        ),
    decreases to - from,
{
    if from < to && held(ms, memory, from) {
        lemma_first_unheld(ms, memory, from + 1, to);
    }
}

/// The end of the heap of a process can be moved by `size` bytes without touching the page of the
/// saved registers.
pub open spec fn can_sbrk(inner: &TaskControlBlockInner, size: int, memory: &Memory) -> bool {
    let views = inner.memory_set.views();
    let h = area_at(views, inner.heap_bottom as int / 4096);
    &&& inner.heap_bottom <= i64::MAX
    &&& inner.program_brk + 0x8000_0000 <= i64::MAX
    &&& can_move_brk(inner, size, memory)
    &&& size < 0 && h < views.len() ==> views[h].end <= TRAP_CONTEXT_VPN
}

/// Moves the end of the heap by `size` bytes. Returns where it was; -1, and nothing changes, if it
/// would lie before the start of the heap or there is no area for the heap.
pub fn sys_sbrk<D: BlockDevice>(size: i32, kernel: &mut Kernel<D>) -> (r: i64)
    requires
        active(old(kernel)),
        can_sbrk(
            &old(kernel).inner(cur(old(kernel))),
            size as int,
            &old(kernel).shared.memory,
        ),
    ensures
        final(kernel).wf(),
        ({
            let k0 = *old(kernel);
            let k1 = *final(kernel);
            let inner = k0.inner(cur(&k0));
            let ms0 = inner.memory_set;
            let ms1 = k1.space(cur(&k0));
            let brk = inner.program_brk + size;
            let h = area_at(ms0.views(), inner.heap_bottom as int / 4096);
            let end = (brk + 4095) / 4096;
            if brk >= inner.heap_bottom && h < ms0.views().len() {
                &&& r == inner.program_brk
                &&& heap_at_brk(&k1.inner(cur(&k0)))
                &&& changed(
                    &k0,
                    &k1,
                    (TaskControlBlock {
                        inner: TaskControlBlockInner {
                            memory_set: ms1,
                            program_brk: brk as u64,
                            ..inner
                        },
                        ..k0.task(cur(&k0))
                    }),
                )
                &&& heap_usable(&inner) ==> heap_usable(&k1.inner(cur(&k0))) && forall|v: int|
                    inner.heap_bottom as int / 4096 <= v < end ==> {
                        let e = #[trigger] leaf(k1.shared.memory@, ms1.root(), v);
                        &&& e % 2 == 1
                        &&& e / 2 % 2 == 1
                        &&& e / 4 % 2 == 1
                        &&& e / 8 % 2 == 0
                        &&& e / 16 % 2 == 1
                    }
                &&& if size < 0 {
                    shrunk(&ms0, &ms1, h, end, &k0.shared.memory, &k1.shared.memory)
                } else {
                    appended(&ms0, &ms1, h, end, &k0.shared.memory, &k1.shared.memory)
                }
            } else {
                &&& r == -1
                &&& changed(&k0, &k1, with_space(k0.task(cur(&k0)), ms1))
                &&& ms1.views() == ms0.views()
                &&& ms1.page_table == ms0.page_table
                &&& k1.shared.memory == k0.shared.memory
            }
        }),
{
    let ghost k0 = *kernel;
    let pid: usize = kernel.current_task().unwrap();
    assert(k0.has(pid as int));
    let mut task: TaskControlBlock = kernel.take_task(pid);
    let res: Option<u64> = task.change_program_brk(size, &mut kernel.shared.memory);
    kernel.put_task(pid, task);
    proof {
        let p = pid as int;
        let inner = k0.inner(p);
        let ms0 = k0.space(p);
        let ms1 = kernel.space(p);
        let ppn = inner.trap_cx_ppn.0 as int;
        let v = TRAP_CONTEXT_VPN as int;
        let h = area_at(ms0.views(), inner.heap_bottom as int / 4096);
        let end = (inner.program_brk + size + 4095) / 4096;
        assert(inner.task_status == TaskStatus::Running);
        assert(kernel.tasks@ =~= k0.tasks@.update(p, Some(kernel.task(p))));
        let k = choose|k: int|
            0 <= k < ms0.views().len() && (#[trigger] ms0.views()[k]).frames.dom().contains(v)
                && ms0.views()[k].frames[v] == ppn;
        assert(ms0.views()[k].frames.dom().contains(v));
        lemma_found(ms0.views(), inner.heap_bottom as int / 4096);
        if res is None {
            assert(ms1.views()[k] == ms0.views()[k]);
            assert(ms1.owned() =~= ms0.owned());
            lemma_only_same(&ms0, &k0.shared.memory);
            lemma_areas_only_same(&ms0, &ms1, &k0.shared.memory);
        } else if size < 0 {
            lemma_areas_only_lost(
                &ms0,
                &ms1,
                end,
                ms0.views()[h].end,
                &k0.shared.memory,
                &kernel.shared.memory,
            );
            lemma_only_lost(
                &ms0,
                &ms1,
                end,
                ms0.views()[h].end,
                &k0.shared.memory,
                &kernel.shared.memory,
            );
            assert(ms1.views()[k].frames.dom().contains(v) && ms1.views()[k].frames[v] == ppn);
        } else {
            lemma_only_appended(
                &ms0,
                &ms1,
                h,
                end,
                &k0.shared.memory,
                &kernel.shared.memory,
            );
            assert(ms1.views()[k].frames[v] == ppn);
            assert(ms1.views()[k].frames.dom().contains(v)) by {
                if k == h {
                    assert(area_ok(ms0.views()[k], &ms0.page_table, &k0.shared.memory));
                }
            }
            assert(ms0.views()[h].start <= ms0.views()[h].end) by {
                assert(area_ok(ms0.views()[h], &ms0.page_table, &k0.shared.memory));
            }
            lemma_areas_only_appended(
                &ms0,
                &ms1,
                h,
                end,
                &k0.shared.memory,
                &kernel.shared.memory,
            );
        }
        assert(has_frame(&ms1, v, ppn));
        lemma_space_changed(&k0, kernel);
        if heap_usable(&inner) {
            law_moved_heap_stays_usable(
                &inner,
                &kernel.inner(p),
                size as int,
                res,
                &k0.shared.memory,
                &kernel.shared.memory,
            );
            law_heap_can_be_read_and_written(&kernel.inner(p), &kernel.shared.memory);
        }
    }
    match res {
        Some(old_brk) => old_brk as i64,
        None => -1,
    }
}

/// The time as a process gets it.
#[derive(Copy, Clone, Debug)]
pub struct TimeVal {
    pub sec: u64,
    pub usec: u64,
}

impl TimeVal {
    /// The bytes of the record in the memory of a process.
    pub open spec fn bytes(&self) -> Seq<u8> {
        spec_u64_to_le_bytes(self.sec) + spec_u64_to_le_bytes(self.usec)
    }

    /// The bytes of the record in the memory of a process.
    pub fn as_bytes(&self) -> (r: [u8; 16])
        ensures
            r@ == self.bytes(),
    {
        let mut r: [u8; 16] = [0u8; 16];
        proof {
            lemma_auto_spec_u64_to_from_le_bytes();
        }
        write_u64(&mut r, 0, self.sec);
        write_u64(&mut r, 8, self.usec);
        assert(r@ =~= self.bytes());
        r
    }
}

/// Stores the time, of which `us` microseconds have passed, at `ts`. The record may lie in two pages.
pub fn sys_get_time<D: BlockDevice>(ts: u64, us: u64, kernel: &mut Kernel<D>) -> (r: i64)
    requires
        active(old(kernel)),
        buffer_ok(&old(kernel).space(cur(old(kernel))), ts, 16),
    ensures
        r == 0,
        final(kernel).wf(),
        changed(old(kernel), final(kernel), old(kernel).task(cur(old(kernel)))),
        ({
            let k0 = *old(kernel);
            let time = TimeVal {
                sec: (us as int / 1_000_000) as u64,
                usec: (us as int % 1_000_000) as u64,
            };
            final(kernel).shared.memory@ == put_bytes(
                k0.shared.memory@,
                buffer_cells(&k0.space(cur(&k0)), &k0.shared.memory, ts, 16),
                time.bytes(),
                16,
            )
        }),
{
    let ghost k0 = *kernel;
    let pid: usize = kernel.current_task().unwrap();
    let ghost p = pid as int;
    assert(k0.has(p));
    assert(k0.inner(p).task_status == TaskStatus::Running);
    let task: TaskControlBlock = kernel.take_task(pid);
    let buf: UserBuffer = user_buffer(&task.inner.memory_set, ts, 16, &kernel.shared.memory);
    let time: TimeVal = TimeVal { sec: us / 1_000_000, usec: us % 1_000_000 };
    let bytes: [u8; 16] = time.as_bytes();
    buf.scatter(bytes.as_slice(), &mut kernel.shared.memory);
    kernel.put_task(pid, task);
    proof {
        assert(kernel.tasks@ =~= k0.tasks@.update(p, Some(kernel.task(p))));
        lemma_buffer_written(
            &k0.space(p),
            &k0.shared.memory,
            &kernel.shared.memory,
            ts,
            16,
            time.bytes(),
            16,
        );
        lemma_space_changed(&k0, kernel);
    }
    0
}

/// The child has a copy of what its parent had in `m0`. Its saved registers name its own kernel
/// stack, and its call returns 0.
pub open spec fn forked(
    inner: &TaskControlBlockInner,
    parent: &TaskControlBlockInner,
    kstack: int,
    m0: &Memory,
    strampoline: u64,
    m: &Memory,
) -> bool {
    &&& built_but(
        &inner.memory_set,
        copies(&parent.memory_set, m0),
        strampoline,
        m,
        TRAP_CONTEXT_VPN as int,
    )
    &&& forall|i: int|
        0 <= i < 512 ==> #[trigger] word_at(m@, inner.trap_cx_ppn.0 as int, i) == (if i == 35 {
            stack_end(kstack) as u64
        } else if i == 10 {
            0
        } else {
            word_at(m0@, parent.trap_cx_ppn.0 as int, i)
        })
    &&& inner.fd_table@ == parent.fd_table@
    &&& inner.base_size == parent.base_size
    &&& inner.heap_bottom == parent.heap_bottom
    &&& inner.program_brk == parent.program_brk
}

/// Makes a child that is a copy of the process that runs. The parent gets the number of the child;
/// when the child runs, it gets 0.
pub fn sys_fork<D: BlockDevice>(kernel: &mut Kernel<D>) -> (r: i64)
    requires
        active(old(kernel)),
        can_copy(&old(kernel).space(cur(old(kernel))), &old(kernel).shared),
    ensures
        final(kernel).wf(),
        ({
            let k0 = *old(kernel);
            let k1 = *final(kernel);
            let c = k0.shared.pids.upcoming();
            let child = k1.task(c);
            &&& r == c as i64
            &&& k1.has(c)
            &&& newborn(&child, Some(cur(&k0) as usize), &k0.shared, &k1.shared)
            &&& born(&k0, &k1, cur(&k0), &child)
            &&& forked(
                &child.inner,
                &k0.inner(cur(&k0)),
                child.kernel_stack.0 as int,
                &k0.shared.memory,
                k0.shared.entry.strampoline,
                &k1.shared.memory,
            )
        }),
        final(kernel).fs == old(kernel).fs,
        final(kernel).open_files == old(kernel).open_files,
{
    let ghost k0 = *kernel;
    let pid: usize = kernel.current_task().unwrap();
    let ghost p = pid as int;
    assert(k0.has(p));
    assert(k0.inner(p).task_status == TaskStatus::Running);
    let mut task: TaskControlBlock = kernel.take_task(pid);
    let child: TaskControlBlock = task.fork(&mut kernel.shared);
    let ghost s1 = kernel.shared;
    let ghost ms = child.inner.memory_set;
    let ghost ppn = child.inner.trap_cx_ppn.0 as int;
    proof {
        lemma_trap_page(&ms, &s1.memory, ppn);
    }
    kernel.shared.memory.write_word(child.inner.trap_cx_ppn, 10, 0);
    let ghost s2 = kernel.shared;
    proof {
        lemma_frame_changed(ms, s1.memory, s2.memory, ppn);
        lemma_only_page(&ms, &s1.memory, &s2.memory, ppn);
        lemma_shared_kept(&s1, &s2, ms.owned(), ms.owned());
        lemma_hole_changed(
            &ms,
            copies(&k0.space(p), &k0.shared.memory),
            s1.entry.strampoline,
            &s1.memory,
            &s2.memory,
            TRAP_CONTEXT_VPN as int,
            ppn,
        );
        lemma_areas_only_built(
            &ms,
            copies(&k0.space(p), &k0.shared.memory),
            s1.entry.strampoline,
            &s2.memory,
            TRAP_CONTEXT_VPN as int,
        );
        let mine = s1.kernel_space.owned().union(ms.owned());
        assert(only(&s1.memory, &s2.memory, mine, mine));
        lemma_only_again(
            &k0.shared.memory,
            &s1.memory,
            &s2.memory,
            k0.shared.kernel_space.owned(),
            mine,
            mine,
        );
    }
    let new_pid: usize = child.pid.0;
    let ghost newcomer = child;
    kernel.put_task(pid, task);
    proof {
        lemma_upcoming(&k0);
    }
    kernel.place_task(new_pid, child);
    kernel.add_task(new_pid);
    proof {
        assert(newborn(&newcomer, Some(pid), &k0.shared, &kernel.shared));
        assert(kernel.task(p) == task) by {
            assert(new_pid != pid);
        }
        assert(k0.tasks@.update(p, None).update(p, Some(task)) =~= k0.tasks@.update(p, Some(task)));
        assert(kernel.task(new_pid as int) == newcomer);
        assert forall|fd: int| 0 <= fd < newcomer.inner.fd_table@.len() implies kernel.file_ok(
            #[trigger] newcomer.inner.fd_table@[fd],
        ) by {
            assert(k0.file_ok(k0.inner(p).fd_table@[fd]));
        }
        lemma_born(&k0, kernel, p, &newcomer);
    }
    new_pid as i64
}

/// The number of the next process leads to an empty place, or behind the last one.
proof fn lemma_upcoming<D: BlockDevice>(k: &Kernel<D>)
    requires
        k.numbers_ok(),
        k.shared.pids.wf(),
    ensures
        0 <= k.shared.pids.upcoming() <= k.tasks@.len(),
        !k.has(k.shared.pids.upcoming()),
{
    let returned = k.shared.pids.returned();
    if returned.len() > 0 {
        let n = returned.len() - 1;
        assert(returned[n] < k.shared.pids.next());
        assert(returned.contains(returned[n]));
    }
    assert(k.has(k.shared.pids.upcoming()) == k.shared.pids.in_use(k.shared.pids.upcoming()));
}

/// The number of the file whose name the process that runs has at `path`.
pub open spec fn file_at<D: BlockDevice>(k: &Kernel<D>, path: u64) -> Option<int> {
    file_named(&k.fs, name_at(&k.space(cur(k)), &k.shared.memory, path))
}

/// What that file holds.
pub open spec fn content_at<D: BlockDevice>(k: &Kernel<D>, path: u64) -> Seq<u8> {
    k.fs.files()[file_at(k, path)->0].content
}

/// The file system is as before.
pub open spec fn same_disk<D: BlockDevice>(k0: &Kernel<D>, k1: &Kernel<D>) -> bool {
    &&& rooted(&k1.fs)
    &&& k1.fs.same_shape(&k0.fs)
    &&& k1.fs.disk() == k0.fs.disk()
    &&& k1.open_files == k0.open_files
}

/// What a file holds; `None` if there is no file of that name.
pub(crate) fn read_file<D: BlockDevice>(name: &str, fs: &mut EasyFileSystem<D>) -> (r: Option<Vec<u8>>)
    requires
        rooted(old(fs)),
    ensures
        rooted(final(fs)),
        final(fs).same_shape(old(fs)),
        final(fs).disk() == old(fs).disk(),
        match file_named(old(fs), name.spec_bytes()) {
            Some(id) => r matches Some(data) && data@ == old(fs).files()[id].content,
            None => r is None,
        },
{
    assert(0u32 & 0x200u32 == 0 && 0u32 & 0x400u32 == 0) by (bit_vector);
    let flags: OpenFlags = OpenFlags { bits: OPEN_RDONLY };
    proof {
        lemma_named(fs.files(), name.spec_bytes());
    }
    match open_file(name, flags, fs) {
        Some(file) => {
            let mut file: OSInode = file;
            let ghost content = file.file(fs).content;
            let data: Vec<u8> = file.read_all(fs);
            assert(data@ =~= content);
            Some(data)
        },
        None => None,
    }
}

/// Replaces the program of the process that runs by that of the file whose name is at `path`.
/// Returns -1 if there is no such file.
pub fn sys_exec<D: BlockDevice>(path: u64, kernel: &mut Kernel<D>) -> (r: i64)
    requires
        active(old(kernel)),
        text_ok(&old(kernel).space(cur(old(kernel))), &old(kernel).shared.memory, path),
        file_at(old(kernel), path) is Some ==> loadable(
            content_at(old(kernel), path),
            old(kernel).shared.memory.free().len() as int,
        ),
    ensures
        final(kernel).wf(),
        same_disk(old(kernel), final(kernel)),
        final(kernel).manager == old(kernel).manager,
        final(kernel).processor == old(kernel).processor,
        ({
            let k0 = *old(kernel);
            let k1 = *final(kernel);
            let pid = cur(&k0);
            if file_at(&k0, path) is Some {
                &&& r == 0
                &&& same_but(&k0, &k1, pid)
                &&& k1.task(pid) == (TaskControlBlock {
                    inner: TaskControlBlockInner {
                        memory_set: k1.space(pid),
                        trap_cx_ppn: k1.inner(pid).trap_cx_ppn,
                        ..k0.inner(pid)
                    },
                    ..k0.task(pid)
                })
                &&& runs_file(
                    &k1.inner(pid),
                    content_at(&k0, path),
                    k0.task(pid).kernel_stack.0 as int,
                    &k1.shared,
                )
            } else {
                &&& r == -1
                &&& k1.tasks@ == k0.tasks@
                &&& k1.shared == k0.shared
            }
        }),
{
    let ghost k0 = *kernel;
    let pid: usize = kernel.current_task().unwrap();
    let ghost p = pid as int;
    assert(k0.has(p));
    assert(k0.inner(p).task_status == TaskStatus::Running);
    let mut task: TaskControlBlock = kernel.take_task(pid);
    let name: String = user_text(&task.inner.memory_set, path, &kernel.shared.memory);
    let data: Option<Vec<u8>> = read_file(name.as_str(), &mut kernel.fs);
    match data {
        Some(all_data) => {
            proof {
                lemma_stack_of(&k0, p);
            }
            task.exec(all_data.as_slice(), &mut kernel.shared);
            kernel.put_task(pid, task);
            proof {
                assert(kernel.tasks@ =~= k0.tasks@.update(p, Some(kernel.task(p))));
                assert forall|fd: int|
                    0 <= fd < kernel.inner(p).fd_table@.len() implies kernel.file_ok(
                    #[trigger] kernel.inner(p).fd_table@[fd],
                ) by {
                    assert(k0.file_ok(k0.inner(p).fd_table@[fd]));
                }
                lemma_kept(&k0, kernel, p);
            }
            0
        },
        None => {
            kernel.put_task(pid, task);
            proof {
                assert(kernel.tasks@ =~= k0.tasks@);
                assert(kernel.tasks@ =~= k0.tasks@.update(p, Some(kernel.task(p))));
                lemma_only_same(&k0.space(p), &k0.shared.memory);
                assert forall|fd: int|
                    0 <= fd < kernel.inner(p).fd_table@.len() implies kernel.file_ok(
                    #[trigger] kernel.inner(p).fd_table@[fd],
                ) by {
                    assert(k0.file_ok(k0.inner(p).fd_table@[fd]));
                }
                lemma_kept(&k0, kernel, p);
            }
            -1
        },
    }
}

/// The kernel stack of a process has a place.
proof fn lemma_stack_of<D: BlockDevice>(k: &Kernel<D>, pid: int)
    requires
        k.wf(),
        k.has(pid),
    ensures
        stack_fits(k.task(pid).kernel_stack.0 as int),
{
    assert(k.shared.kstacks.in_use(k.task(pid).kernel_stack.0 as int));
}

/// Makes a child that runs the program of the file whose name is at `path`. Returns the number of
/// the child; -1 if there is no such file.
pub fn sys_spawn<D: BlockDevice>(path: u64, kernel: &mut Kernel<D>) -> (r: i64)
    requires
        active(old(kernel)),
        text_ok(&old(kernel).space(cur(old(kernel))), &old(kernel).shared.memory, path),
        file_at(old(kernel), path) is Some ==> can_start(
            &old(kernel).shared,
            content_at(old(kernel), path),
        ),
    ensures
        final(kernel).wf(),
        same_disk(old(kernel), final(kernel)),
        ({
            let k0 = *old(kernel);
            let k1 = *final(kernel);
            let c = k0.shared.pids.upcoming();
            let child = k1.task(c);
            if file_at(&k0, path) is Some {
                &&& r == c as i64
                &&& k1.has(c)
                &&& newborn(&child, Some(cur(&k0) as usize), &k0.shared, &k1.shared)
                &&& born(&k0, &k1, cur(&k0), &child)
                &&& runs_file(
                    &child.inner,
                    content_at(&k0, path),
                    child.kernel_stack.0 as int,
                    &k1.shared,
                )
                &&& child.inner.fd_table@ == first_files()
                &&& child.inner.base_size == stack_top(segments_of(content_at(&k0, path)))
                &&& child.inner.heap_bottom == child.inner.base_size
                &&& child.inner.program_brk == child.inner.base_size
            } else {
                &&& r == -1
                &&& k1.tasks@ == k0.tasks@
                &&& k1.shared == k0.shared
                &&& k1.manager == k0.manager
                &&& k1.processor == k0.processor
            }
        }),
{
    let ghost k0 = *kernel;
    let pid: usize = kernel.current_task().unwrap();
    let ghost p = pid as int;
    assert(k0.has(p));
    assert(k0.inner(p).task_status == TaskStatus::Running);
    let mut task: TaskControlBlock = kernel.take_task(pid);
    let name: String = user_text(&task.inner.memory_set, path, &kernel.shared.memory);
    let data: Option<Vec<u8>> = read_file(name.as_str(), &mut kernel.fs);
    match data {
        Some(elf_data) => {
            let child: TaskControlBlock = task.spawn(elf_data.as_slice(), &mut kernel.shared);
            let new_pid: usize = child.pid.0;
            let ghost newcomer = child;
            kernel.put_task(pid, task);
            proof {
                lemma_upcoming(&k0);
            }
            kernel.place_task(new_pid, child);
            kernel.add_task(new_pid);
            proof {
                assert(kernel.task(p) == task) by {
                    assert(new_pid != pid);
                }
                assert(k0.tasks@.update(p, None).update(p, Some(task)) =~= k0.tasks@.update(
                    p,
                    Some(task),
                ));
                assert(kernel.task(new_pid as int) == newcomer);
                assert forall|fd: int|
                    0 <= fd < newcomer.inner.fd_table@.len() implies kernel.file_ok(
                    #[trigger] newcomer.inner.fd_table@[fd],
                ) by {
                    assert(first_files()[fd] == newcomer.inner.fd_table@[fd]);
                }
                lemma_born(&k0, kernel, p, &newcomer);
            }
            new_pid as i64
        },
        None => {
            kernel.put_task(pid, task);
            proof {
                assert(kernel.tasks@ =~= k0.tasks@);
                assert(kernel.tasks@ =~= k0.tasks@.update(p, Some(kernel.task(p))));
                lemma_only_same(&k0.space(p), &k0.shared.memory);
                assert forall|fd: int|
                    0 <= fd < kernel.inner(p).fd_table@.len() implies kernel.file_ok(
                    #[trigger] kernel.inner(p).fd_table@[fd],
                ) by {
                    assert(k0.file_ok(k0.inner(p).fd_table@[fd]));
                }
                lemma_kept(&k0, kernel, p);
            }
            -1
        },
    }
}

} // verus!
