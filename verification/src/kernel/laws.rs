//! What holds of the kernel over several steps.

use vstd::prelude::*;
use vstd::string::StringSliceAdditionalSpecFns;

use super::birth::born;
use super::exit::exited;
use super::guard::is_buffer;
use super::state::{same_but, Kernel, IDLE_PID};
use super::user::{framed, lemma_framed};
use crate::easy_fs::block_dev::BlockDevice;
use crate::easy_fs::efs::EasyFileSystem;
use crate::fs::file::FileRef;
use crate::fs::inode::file_named;
use crate::mm::address::{va_of, VPN_COUNT};
use crate::mm::elf::{segments_of, stack_top};
use crate::mm::frame_allocator::Memory;
use crate::mm::map_area::{area_ok, lemma_valid_frames, AreaView};
use crate::mm::memory_set::{first_unheld, held, lost_pages, pushed, MemorySet, TRAP_CONTEXT_VPN};
use crate::mm::page_table::{leaf, pte_valid};
use crate::mm::space::{copies, has_frame, piece_done_but};
use crate::mm::user::{cell, user_byte};
use crate::syscall::process::{active, cur, forked};
use crate::syscall::wait::{first_dead, is_dead, reaped, waits_for};
use crate::task::shared::{lemma_bystander, Shared};
use crate::task::task::{newborn, runs_file, TaskControlBlock, TaskStatus};

verus! {

/// The frames that are free, or belong to the kernel or to a process.
pub open spec fn all_frames<D: BlockDevice>(k: &Kernel<D>) -> Set<int> {
    Set::new(
        |p: int|
            k.shared.memory.free().contains(p) || k.shared.kernel_space.owned().contains(p)
                || some_process_has(k, p),
    )
}

/// A frame belongs to a process.
pub open spec fn some_process_has<D: BlockDevice>(k: &Kernel<D>, p: int) -> bool {
    exists|pid: int| #[trigger] k.has(pid) && k.space(pid).owned().contains(p)
}

/// No frame is lost or made when a process changes its memory.
pub proof fn law_change_keeps_frames<D: BlockDevice>(k0: &Kernel<D>, k1: &Kernel<D>, pid: int)
    requires
        k0.has(pid),
        same_but(k0, k1, pid),
    ensures
        all_frames(k1) == all_frames(k0),
{
    let free0 = k0.shared.memory.free();
    let free1 = k1.shared.memory.free();
    assert forall|p: int| #[trigger] all_frames(k1).contains(p) == all_frames(k0).contains(p) by {
        assert(free1.union(k1.space(pid).owned()).contains(p) == free0.union(
            k0.space(pid).owned(),
        ).contains(p));
        assert(k1.has(pid));
        if some_process_has(k0, p) {
            let j = choose|j: int| #[trigger] k0.has(j) && k0.space(j).owned().contains(p);
            assert(k1.has(j));
        }
        if some_process_has(k1, p) {
            let j = choose|j: int| #[trigger] k1.has(j) && k1.space(j).owned().contains(p);
            assert(k0.has(j));
        }
    }
    assert(all_frames(k1) =~= all_frames(k0));
}

/// No frame is lost or made when a process is made.
pub proof fn law_birth_keeps_frames<D: BlockDevice>(
    k0: &Kernel<D>,
    k1: &Kernel<D>,
    parent: int,
    child: &TaskControlBlock,
)
    requires
        k0.wf(),
        k1.wf(),
        k0.has(parent),
        newborn(child, Some(parent as usize), &k0.shared, &k1.shared),
        born(k0, k1, parent, child),
    ensures
        all_frames(k1) == all_frames(k0),
{
    let c = child.pid.0 as int;
    let free0 = k0.shared.memory.free();
    let free1 = k1.shared.memory.free();
    let own0 = k0.shared.kernel_space.owned();
    let own1 = k1.shared.kernel_space.owned().union(child.inner.memory_set.owned());
    assert(k1.has(c) == k1.shared.pids.in_use(c));
    assert(k0.has(c) == k0.shared.pids.in_use(c));
    assert(k1.has(c) && !k0.has(c));
    assert(k1.task(c) == *child);
    assert forall|p: int| #[trigger] all_frames(k1).contains(p) == all_frames(k0).contains(p) by {
        assert(free1.union(own1).contains(p) == free0.union(own0).contains(p));
        if some_process_has(k0, p) {
            let j = choose|j: int| #[trigger] k0.has(j) && k0.space(j).owned().contains(p);
            assert(k1.has(j) && k1.space(j) == k0.space(j));
        }
        if some_process_has(k1, p) {
            let j = choose|j: int| #[trigger] k1.has(j) && k1.space(j).owned().contains(p);
            if j != c {
                assert(k0.has(j) && k1.space(j) == k0.space(j));
            }
        }
    }
    assert(all_frames(k1) =~= all_frames(k0));
}

/// No frame is lost or made when a process ends.
pub proof fn law_exit_keeps_frames<D: BlockDevice>(
    k0: &Kernel<D>,
    k1: &Kernel<D>,
    pid: int,
    exit_code: i32,
)
    requires
        k0.wf(),
        k0.has(pid),
        pid != IDLE_PID,
        exited(k0, k1, pid, exit_code),
    ensures
        all_frames(k1) == all_frames(k0),
{
    let ms = k0.space(pid);
    assert forall|p: int| #[trigger] all_frames(k1).contains(p) == all_frames(k0).contains(p) by {
        assert(k1.has(pid) && k1.space(pid).owned() == ms.page_table.tables());
        assert(ms.page_table.tables().contains(p) ==> ms.owned().contains(p));
        if some_process_has(k0, p) {
            let j = choose|j: int| #[trigger] k0.has(j) && k0.space(j).owned().contains(p);
            assert(k1.has(j));
            assert(j != pid ==> k1.space(j) == k0.space(j));
        }
        if some_process_has(k1, p) {
            let j = choose|j: int| #[trigger] k1.has(j) && k1.space(j).owned().contains(p);
            assert(k0.has(j));
            assert(j != pid ==> k1.space(j) == k0.space(j));
        }
    }
    assert(all_frames(k1) =~= all_frames(k0));
}

/// No frame is lost or made when a child is waited for; what it had is free.
pub proof fn law_wait_keeps_frames<D: BlockDevice>(
    k0: &Kernel<D>,
    k1: &Kernel<D>,
    i: int,
    ptr: u64,
)
    requires
        active(k0),
        0 <= i < k0.inner(cur(k0)).children@.len(),
        reaped(k0, k1, i, ptr),
    ensures
        all_frames(k1) == all_frames(k0),
{
    let me = cur(k0);
    let c = k0.inner(me).children@[i] as int;
    let free0 = k0.shared.memory.free();
    let free1 = k1.shared.memory.free();
    let ms = k0.space(me).owned();
    let own0 = ms.union(k0.shared.kernel_space.owned().union(k0.space(c).owned()));
    let own1 = ms.union(k1.shared.kernel_space.owned());
    assert(k0.has(me));
    assert(k0.inner(me).children@.contains(c as usize));
    assert(k0.is_child(me, c));
    assert(k0.has(c) && c != me);
    assert(k1.has(me) && k1.space(me) == k0.space(me));
    assert forall|p: int| #[trigger] all_frames(k1).contains(p) == all_frames(k0).contains(p) by {
        assert(free1.union(own1).contains(p) == free0.union(own0).contains(p));
        if some_process_has(k0, p) {
            let j = choose|j: int| #[trigger] k0.has(j) && k0.space(j).owned().contains(p);
            if j != c && j != me {
                assert(k1.has(j) && k1.space(j) == k0.space(j));
            }
        }
        if some_process_has(k1, p) {
            let j = choose|j: int| #[trigger] k1.has(j) && k1.space(j).owned().contains(p);
            assert(k0.has(j) && k1.space(j) == k0.space(j));
        }
    }
    assert(all_frames(k1) =~= all_frames(k0));
}

/// Processes do not share memory: whatever two addresses of two processes are, they lie in different
/// physical pages.
pub proof fn law_memory_is_private<D: BlockDevice>(
    k: &Kernel<D>,
    i: int,
    j: int,
    a: u64,
    b: u64,
)
    requires
        k.wf(),
        k.has(i),
        k.has(j),
        i != j,
        framed(&k.space(i), a),
        framed(&k.space(j), b),
    ensures
        cell(k.shared.memory@, k.space(i).root(), a).0 != cell(
            k.shared.memory@,
            k.space(j).root(),
            b,
        ).0,
{
    lemma_framed(&k.space(i), &k.shared.memory, a);
    lemma_framed(&k.space(j), &k.shared.memory, b);
}

/// What a process does to its memory no other process sees.
pub proof fn law_others_keep_their_memory<D: BlockDevice>(
    k0: &Kernel<D>,
    k1: &Kernel<D>,
    pid: int,
    other: int,
    va: u64,
)
    requires
        k0.wf(),
        k0.has(pid),
        k0.has(other),
        other != pid,
        same_but(k0, k1, pid),
        framed(&k0.space(other), va),
    ensures
        k1.task(other) == k0.task(other),
        user_byte(k1.shared.memory@, k0.space(other).root(), va) == user_byte(
            k0.shared.memory@,
            k0.space(other).root(),
            va,
        ),
{
    let ms = k0.space(other);
    lemma_bystander(
        &ms,
        &k0.shared.memory,
        &k1.shared.memory,
        k0.space(pid).owned(),
        k1.space(pid).owned(),
    );
    lemma_framed(&ms, &k0.shared.memory, va);
    assert(0 <= va_of(va) / 4096 < VPN_COUNT);
}

/// A child has at every address what its parent had there when it was made, but for the saved
/// registers.
pub proof fn law_child_has_a_copy<D: BlockDevice>(
    k0: &Kernel<D>,
    k1: &Kernel<D>,
    parent: int,
    child: int,
    va: u64,
)
    requires
        k0.wf(),
        k1.wf(),
        k0.has(parent),
        k1.has(child),
        forked(
            &k1.inner(child),
            &k0.inner(parent),
            k1.task(child).kernel_stack.0 as int,
            &k0.shared.memory,
            k0.shared.entry.strampoline,
            &k1.shared.memory,
        ),
        framed(&k0.space(parent), va),
        va_of(va) / 4096 != TRAP_CONTEXT_VPN,
    ensures
        framed(&k1.space(child), va),
        user_byte(k1.shared.memory@, k1.space(child).root(), va) == user_byte(
            k0.shared.memory@,
            k0.space(parent).root(),
            va,
        ),
{
    let ms0 = k0.space(parent);
    let ms1 = k1.space(child);
    let m0 = k0.shared.memory;
    let m1 = k1.shared.memory;
    let v = va_of(va) / 4096;
    let pieces = copies(&ms0, &m0);
    lemma_framed(&ms0, &m0, va);
    let p0 = cell(m0@, ms0.root(), va).0;
    let k = choose|k: int|
        0 <= k < ms0.views().len() && (#[trigger] ms0.views()[k]).frames.dom().contains(v)
            && ms0.views()[k].frames[v] == p0;
    let a = ms0.views()[k];
    let b = ms1.views()[k];
    assert(area_ok(a, &ms0.page_table, &m0));
    assert(piece_done_but(&ms1, pieces, k, &m1, TRAP_CONTEXT_VPN as int));
    assert(a.framed);
    assert(b.frames.dom().contains(v));
    assert(has_frame(&ms1, v, b.frames[v]));
    assert(m1@[b.frames[v]] == (pieces[k].content)(v - a.start));
    assert(area_ok(b, &ms1.page_table, &m1));
    lemma_valid_frames(b, &ms1.page_table, &m1);
    assert(cell(m1@, ms1.root(), va).0 == b.frames[v]);
}

/// A child that has ended is there to be waited for: its parent finds it, and its exit code is kept.
pub proof fn law_ended_child_is_found<D: BlockDevice>(
    k0: &Kernel<D>,
    k1: &Kernel<D>,
    child: int,
    exit_code: i32,
    pid: i64,
)
    requires
        k0.wf(),
        k0.has(child),
        child != IDLE_PID,
        exited(k0, k1, child, exit_code),
        waits_for(pid, child as usize),
    ensures
        ({
            let parent = k0.inner(child).parent->0 as int;
            let children = k1.inner(parent).children@;
            &&& k1.has(parent)
            &&& children.contains(child as usize)
            &&& is_dead(k1, child as usize, pid)
            &&& k1.inner(child).exit_code == exit_code
            &&& first_dead(k1, children, pid) < children.len()
        }),
{
    let parent = k0.inner(child).parent->0 as int;
    assert(k0.is_child(parent, child));
    assert(k0.has(parent) && parent != child);
    assert(k1.has(parent));
    let before = k0.inner(parent).children@;
    let children = k1.inner(parent).children@;
    let i = before.index_of(child as usize);
    assert(children[i] == child as usize);
    lemma_some_dead(k1, children, pid, i);
}

/// Where a child has ended, the first such child is found.
proof fn lemma_some_dead<D: BlockDevice>(k: &Kernel<D>, children: Seq<usize>, pid: i64, i: int)
    requires
        0 <= i < children.len(),
        is_dead(k, children[i], pid),
    ensures
        0 <= first_dead(k, children, pid) <= i,
    decreases i,
{
    if !is_dead(k, children[0], pid) {
        let t = children.drop_first();
        assert(t[i - 1] == children[i]);
        lemma_some_dead(k, t, pid, i - 1);
    }
}

/// Memory that was mapped can be unmapped: all of its pages are found, and afterwards every page is
/// mapped as it was before.
pub proof fn law_munmap_undoes_mmap(
    ms0: &MemorySet,
    ms1: &MemorySet,
    ms2: &MemorySet,
    area: AreaView,
    m0: &Memory,
    m1: &Memory,
    m2: &Memory,
)
    requires
        ms0.wf(m0),
        ms1.wf(m1),
        area.wf(),
        area.framed,
        area.frames == Map::<int, int>::empty(),
        forall|v: int|
            area.start <= v < area.end ==> !pte_valid(#[trigger] leaf(m0@, ms0.root(), v)),
        pushed(ms0, ms1, area, Seq::empty(), m0, m1),
        lost_pages(
            ms1,
            ms2,
            area.start,
            first_unheld(ms1, m1, area.start, area.end),
            m1,
            m2,
        ),
    ensures
        first_unheld(ms1, m1, area.start, area.end) == area.end,
        forall|v: int|
            0 <= v < VPN_COUNT ==> pte_valid(#[trigger] leaf(m2@, ms0.root(), v)) == pte_valid(
                leaf(m0@, ms0.root(), v),
            ),
        forall|v: int|
            0 <= v < VPN_COUNT && pte_valid(leaf(m0@, ms0.root(), v)) ==> #[trigger] leaf(
                m2@,
                ms0.root(),
                v,
            ) == leaf(m0@, ms0.root(), v),
{
    let n = ms0.views().len() as int;
    let a = ms1.views()[n];
    assert(area_ok(a, &ms1.page_table, m1));
    lemma_valid_frames(a, &ms1.page_table, m1);
    assert forall|v: int| area.start <= v < area.end implies #[trigger] held(ms1, m1, v) by {
        assert(a.frames.dom().contains(v));
        assert(ms1.views()[n].maps(v));
    }
    lemma_all_held(ms1, m1, area.start, area.end);
    assert forall|v: int| 0 <= v < VPN_COUNT implies pte_valid(#[trigger] leaf(m2@, ms0.root(), v))
        == pte_valid(leaf(m0@, ms0.root(), v)) by {
        if area.start <= v < area.end {
            assert(!pte_valid(leaf(m0@, ms0.root(), v)));
        } else {
            assert(leaf(m1@, ms1.root(), v) == leaf(m0@, ms0.root(), v));
        }
    }
}

/// Where all pages are mapped, none is missing.
proof fn lemma_all_held(ms: &MemorySet, memory: &Memory, from: int, to: int)
    requires
        from <= to,
        forall|v: int| from <= v < to ==> #[trigger] held(ms, memory, v),
    ensures
        first_unheld(ms, memory, from, to) == to,
    decreases to - from,
{
    if from < to {
        assert(held(ms, memory, from));
        lemma_all_held(ms, memory, from + 1, to);
    }
}

/// The kernel starts with one process, number 0, which is ready and about to start the program of the file
/// `ch6b_initproc`. It has no parent and no children, and input and output are open.
pub proof fn law_first_process<D: BlockDevice>(shared: Shared, fs: EasyFileSystem<D>, k: Kernel<D>)
    requires
        call_ensures(Kernel::<D>::new, (shared, fs), k),
    ensures
        forall|j: int| #[trigger] k.has(j) == (j == 0),
        k.task(0).pid.0 == 0,
        k.inner(0).task_status == TaskStatus::Ready,
        k.inner(0).parent is None,
        k.inner(0).children@.len() == 0,
        k.inner(0).stride == 0,
        k.inner(0).priority == 16,
        k.inner(0).fd_table@ == seq![
            Some(FileRef::Stdin),
            Some(FileRef::Stdout),
            Some(FileRef::Stdout),
        ],
        k.manager.queue() == seq![0usize],
        k.processor.running() is None,
        k.fs.files() == fs.files(),
        runs_file(
            &k.inner(0),
            fs.files()[file_named(&fs, "ch6b_initproc".spec_bytes())->0].content,
            k.task(0).kernel_stack.0 as int,
            &k.shared,
        ),
        k.inner(0).heap_bottom == stack_top(
            segments_of(fs.files()[file_named(&fs, "ch6b_initproc".spec_bytes())->0].content),
        ),
        k.inner(0).program_brk == k.inner(0).heap_bottom,
{
    assert(k.has(0)) by {
        assert(k.manager.queue()[0] == 0usize);
    }
    assert forall|j: int| #[trigger] k.has(j) == (j == 0) by {}
}

/// What a buffer of a process is: its addresses lie in one half of the address space, and the page of each
/// of them has a frame.
pub proof fn law_what_a_buffer_is(ms: &MemorySet, ptr: u64, len: u64, r: bool)
    requires
        call_ensures(is_buffer, (ms, ptr, len), r),
    ensures
        r == (ptr + len <= u64::MAX && (ptr + len <= 0x40_0000_0000 || ptr >= 0xffff_ffc0_0000_0000)
            && forall|k: int|
            0 <= k < len ==> framed(ms, #[trigger] ((ptr + k) as u64))),
{
}

} // verus!
