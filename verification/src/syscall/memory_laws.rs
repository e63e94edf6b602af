//! What the requests of processes for memory and for programs mean. Each law speaks of a call that
//! took the kernel from `k0` to `k1`.

use vstd::prelude::*;

use super::process::{
    active, can_sbrk, content_at, cur, file_at, sys_exec, sys_fork, sys_mmap, sys_munmap, sys_sbrk,
    sys_spawn,
};
use crate::bytes::{u32_at, u64_at};
use crate::easy_fs::block_dev::BlockDevice;
use crate::fs::file::FileRef;
use crate::kernel::guard::is_brk_movable;
use crate::kernel::laws::law_child_has_a_copy;
use crate::kernel::state::Kernel;
use crate::kernel::user::framed;
use crate::mm::address::{va_of, VPN_COUNT};
use crate::mm::elf::{loadable, segments_of, stack_top};
use crate::mm::frame_allocator::{word_at, Memory};
use crate::mm::laws::{
    law_mmap_grants_what_was_asked, lemma_segment_mapped, lemma_stack_top, segment_end,
};
use crate::mm::map_area::{area_ok, frame_ok, lemma_valid_frames, pages, Shape};
use crate::mm::memory_set::{
    first_unheld, held, mmap_area, MemorySet, TRAMPOLINE_VPN, TRAP_CONTEXT_VPN,
};
use crate::mm::page_table::{in_use, leaf, lemma_pte, pte_valid};
use crate::mm::space::{built_but, complete, copies, covered, covers, piece_done_but};
use crate::mm::stray::{areas_only, lemma_held, lemma_trampoline_mapped};
use crate::mm::user::user_byte;
use crate::task::heap::{
    brk_moved, heap_area, heap_usable, law_heap_can_be_read_and_written, law_heap_starts_empty,
    law_moved_heap_stays_usable, lemma_found, lemma_heap_stays,
};
use crate::task::shared::Shared;
use crate::task::task::{
    can_copy, can_start, context_at, runs_file, TaskControlBlockInner, TaskStatus,
};

verus! {

/// A page takes at most three frames: its own and two tables.
proof fn lemma_cost_bound(s: Shape, v: int, end: int)
    requires
        v <= end,
    ensures
        s.cost(true, v, end) <= 3 * (end - v),
        s.cost(true, v, end) >= end - v,
    decreases end - v,
{
    if v < end {
        lemma_cost_bound(s.with_page(v), v + 1, end);
    }
}

/// A process that asks for memory gets all of it or nothing. It gets nothing, and -1, if the start is
/// not that of a page, if it asks for no permission or for one that there is not, or if a page of the
/// range is mapped. It gets it if there are three free frames for each page. Then every page of the
/// range is mapped and open to programs, and can be read, written and executed exactly as bits 0, 1
/// and 2 of `prot` say; its bytes are zero. All other pages are mapped as before.
#[verifier::rlimit(40)]
pub proof fn law_mmap<D: BlockDevice>(
    k0: Kernel<D>,
    k1: Kernel<D>,
    start: u64,
    len: u64,
    prot: u64,
    r: i64,
)
    requires
        exists|k: &mut Kernel<D>| #[trigger]
            call_ensures(sys_mmap::<D>, (start, len, prot, k), r) && *k == k0 && *final(k) == k1,
        active(&k0),
        start % 4096 == 0 && 1 <= prot <= 7 ==> start + len <= u64::MAX && va_of(start) / 4096 <= (
        va_of((start + len) as u64) + 4095) / 4096,
    ensures
        ({
            let root = k0.space(cur(&k0)).root();
            let m0 = k0.shared.memory@;
            let m1 = k1.shared.memory@;
            let from = start as int % 0x80_0000_0000 / 4096;
            let to = ((start + len) as u64 as int % 0x80_0000_0000 + 4095) / 4096;
            let clear = forall|v: int| from <= v < to ==> #[trigger] leaf(m0, root, v) % 2 == 0;
            &&& r == 0 || r == -1
            &&& start % 4096 != 0 ==> r == -1
            &&& prot == 0 || prot > 7 ==> r == -1
            &&& !clear ==> r == -1
            &&& start % 4096 == 0 && 1 <= prot <= 7 && clear && k0.shared.memory.free().len() >= 3 * (
            to - from) ==> r == 0
            &&& r == -1 ==> k1.tasks@ == k0.tasks@ && k1.shared == k0.shared
            &&& heap_usable(&k0.inner(cur(&k0))) ==> heap_usable(&k1.inner(cur(&k0)))
            &&& r == 0 ==> {
                &&& k1.space(cur(&k0)).root() == root
                &&& forall|v: int|
                    from <= v < to ==> {
                        let e = #[trigger] leaf(m1, root, v);
                        &&& e % 2 == 1
                        &&& e / 2 % 2 == prot % 2
                        &&& e / 4 % 2 == prot / 2 % 2
                        &&& e / 8 % 2 == prot / 4 % 2
                        &&& e / 16 % 2 == 1
                        &&& e / 32 % 32 == 0
                        &&& m1[e as int / 1024 % 0x1000_0000_0000] == Seq::new(4096, |i: int| 0u8)
                    }
                &&& forall|v: int|
                    0 <= v < VPN_COUNT && !(from <= v < to) ==> #[trigger] leaf(m1, root, v)
                        == leaf(m0, root, v)
            }
        }),
{
    let me = cur(&k0);
    let ms0 = k0.space(me);
    let ms1 = k1.space(me);
    let area = mmap_area(start, len, prot);
    assert(k0.has(me));
    if start % 4096 == 0 && 1 <= prot <= 7 {
        lemma_cost_bound(ms0.shape(&k0.shared.memory), area.start, area.end);
    }
    if heap_usable(&k0.inner(me)) && r == 0 {
        lemma_heap_stays(&k0.inner(me), &k1.inner(me));
    }
    if r == 0 {
        assert(k1.has(me));
        law_mmap_grants_what_was_asked(
            &ms0,
            &ms1,
            start,
            len,
            prot,
            &k0.shared.memory,
            &k1.shared.memory,
        );
    }
}

/// A process gives memory back. It returns 0 exactly if the range starts with a page and all of its
/// pages were mapped, the trampoline not among them. None of them is mapped then, and all other pages
/// are mapped as before. A range that does not start with a page is refused, and nothing changes. In a
/// range with a page that is not mapped, the pages before it are lost, and all others stay.
#[verifier::rlimit(40)]
pub proof fn law_munmap<D: BlockDevice>(
    k0: Kernel<D>,
    k1: Kernel<D>,
    start: u64,
    len: u64,
    r: i64,
)
    requires
        exists|k: &mut Kernel<D>| #[trigger]
            call_ensures(sys_munmap::<D>, (start, len, k), r) && *k == k0 && *final(k) == k1,
        active(&k0),
    ensures
        ({
            let root = k0.space(cur(&k0)).root();
            let m0 = k0.shared.memory@;
            let m1 = k1.shared.memory@;
            let from = start as int % 0x80_0000_0000 / 4096;
            let to = ((start + len) as u64 as int % 0x80_0000_0000 + 4095) / 4096;
            &&& r == 0 || r == -1
            &&& start % 4096 != 0 ==> r == -1 && k1 == k0
            &&& start % 4096 == 0 ==> (r == 0 <==> forall|v: int|
                from <= v < to ==> #[trigger] leaf(m0, root, v) % 2 == 1 && v != 0x7ff_ffff)
            &&& r == 0 ==> k1.space(cur(&k0)).root() == root && forall|v: int|
                0 <= v < VPN_COUNT ==> #[trigger] leaf(m1, root, v) == (if from <= v < to {
                    0
                } else {
                    leaf(m0, root, v)
                })
            &&& start % 4096 == 0 && r == -1 ==> exists|stop: int|
                from <= stop < to && (#[trigger] leaf(m0, root, stop) % 2 == 0 || stop == 0x7ff_ffff)
                    && (forall|v: int| from <= v < stop ==> #[trigger] leaf(m0, root, v) % 2 == 1)
                    && (forall|v: int|
                    0 <= v < VPN_COUNT ==> #[trigger] leaf(m1, root, v) == (if from <= v < stop {
                        0
                    } else {
                        leaf(m0, root, v)
                    }))
            &&& heap_usable(&k0.inner(cur(&k0))) && (to <= k0.inner(cur(&k0)).heap_bottom as int
                / 4096 || from >= (k0.inner(cur(&k0)).program_brk + 4095) / 4096) ==> heap_usable(
                &k1.inner(cur(&k0)),
            )
        }),
{
    let me = cur(&k0);
    let p0 = k0.inner(me);
    let p1 = k1.inner(me);
    let from = va_of(start) / 4096;
    let to = (va_of((start + len) as u64) + 4095) / 4096;
    if start % 4096 == 0 && r == -1 {
        assert(k0.has(me));
        assert(p0.task_status == TaskStatus::Running);
        let stop = first_unheld(&p0.memory_set, &k0.shared.memory, from, to);
        lemma_unheld_in_range(&p0.memory_set, &k0.shared.memory, from, to);
        lemma_held(&p0.memory_set, &k0.shared.memory, stop);
        assert(leaf(k0.shared.memory@, p0.memory_set.root(), stop) % 2 == 0 || stop == 0x7ff_ffff);
        assert forall|v: int| from <= v < stop implies #[trigger] leaf(
            k0.shared.memory@,
            p0.memory_set.root(),
            v,
        ) % 2 == 1 by {
            assert(held(&p0.memory_set, &k0.shared.memory, v));
        }
    }
    if heap_usable(&p0) && (to <= p0.heap_bottom as int / 4096 || from >= (p0.program_brk + 4095)
        / 4096) && start % 4096 == 0 {
        let h = heap_area(&p0);
        let a = p0.memory_set.views()[h];
        lemma_found(p0.memory_set.views(), p0.heap_bottom as int / 4096);
        lemma_unheld_in_range(&p0.memory_set, &k0.shared.memory, from, to);
        let stop = first_unheld(&p0.memory_set, &k0.shared.memory, from, to);
        assert(a.frames.remove_keys(pages(from, stop)).dom() =~= a.frames.dom()) by {
            assert forall|v: int| #[trigger] a.frames.dom().contains(v) implies !pages(
                from,
                stop,
            ).contains(v) by {}
        }
        lemma_heap_stays(&p0, &p1);
    }
}

/// The first page that is not mapped lies in the range or at its end.
proof fn lemma_unheld_in_range(ms: &MemorySet, memory: &Memory, from: int, to: int)
    ensures
        from <= to ==> from <= first_unheld(ms, memory, from, to) <= to,
        forall|v: int|
            from <= v < first_unheld(ms, memory, from, to) ==> #[trigger] held(ms, memory, v),
        first_unheld(ms, memory, from, to) < to ==> !held(
            ms,
            memory,
            first_unheld(ms, memory, from, to),
        ),
        from > to ==> first_unheld(ms, memory, from, to) == from,
    decreases to - from,
{
    if from < to && held(ms, memory, from) {
        lemma_unheld_in_range(ms, memory, from + 1, to);
    }
}

/// What was asked for can be given back: the second request succeeds, and every page is mapped as it
/// was.
#[verifier::rlimit(40)]
pub proof fn law_munmap_after_mmap<D: BlockDevice>(
    k0: Kernel<D>,
    k1: Kernel<D>,
    k2: Kernel<D>,
    start: u64,
    len: u64,
    prot: u64,
    r1: i64,
    r2: i64,
)
    requires
        exists|k: &mut Kernel<D>| #[trigger]
            call_ensures(sys_mmap::<D>, (start, len, prot, k), r1) && *k == k0 && *final(k) == k1,
        exists|k: &mut Kernel<D>| #[trigger]
            call_ensures(sys_munmap::<D>, (start, len, k), r2) && *k == k1 && *final(k) == k2,
        active(&k0),
        active(&k1),
        start + len <= u64::MAX,
        va_of(start) / 4096 <= (va_of((start + len) as u64) + 4095) / 4096,
        r1 == 0,
    ensures
        r2 == 0,
        forall|v: int|
            0 <= v < VPN_COUNT ==> #[trigger] leaf(
                k2.shared.memory@,
                k0.space(cur(&k0)).root(),
                v,
            ) % 2 == leaf(k0.shared.memory@, k0.space(cur(&k0)).root(), v) % 2,
{
    let me = cur(&k0);
    let root = k0.space(me).root();
    assert(k0.has(me));
    law_mmap(k0, k1, start, len, prot, r1);
    assert(cur(&k1) == me);
    law_munmap(k1, k2, start, len, r2);
    let from = va_of(start) / 4096;
    let to = (va_of((start + len) as u64) + 4095) / 4096;
    assert(k0.inner(me).loaded(&k0.shared.memory)) by {
        assert(k0.inner(me).task_status == TaskStatus::Running);
    }
    assert forall|v: int| from <= v < to implies #[trigger] leaf(k1.shared.memory@, root, v) % 2 == 1
        && v != 0x7ff_ffff by {
        if v == 0x7ff_ffff {
            lemma_trampoline_mapped(&k0.space(me), &k0.shared.memory);
            assert(leaf(k0.shared.memory@, root, v) % 2 == 1);
        }
    }
    assert forall|v: int| 0 <= v < VPN_COUNT implies #[trigger] leaf(k2.shared.memory@, root, v) % 2
        == leaf(k0.shared.memory@, root, v) % 2 by {
        if from <= v < to {
            assert(leaf(k0.shared.memory@, root, v) % 2 == 0);
        } else {
            assert(leaf(k1.shared.memory@, root, v) == leaf(k0.shared.memory@, root, v));
        }
    }
}

/// A process whose heap can be used moves its end. It gets back where the end was, and the heap ends as
/// much further as was asked for; every page from its start to its end can be read and written by
/// programs and not executed, and the pages that came to it hold zeros. An end before the start is
/// refused with -1: the heap ends where it ended, and every page is mapped as before.
#[verifier::rlimit(40)]
pub proof fn law_sbrk<D: BlockDevice>(k0: Kernel<D>, k1: Kernel<D>, size: i32, r: i64)
    requires
        exists|k: &mut Kernel<D>| #[trigger]
            call_ensures(sys_sbrk::<D>, (size, k), r) && *k == k0 && *final(k) == k1,
        active(&k0),
        can_sbrk(&k0.inner(cur(&k0)), size as int, &k0.shared.memory),
        heap_usable(&k0.inner(cur(&k0))),
    ensures
        ({
            let p0 = k0.inner(cur(&k0));
            let p1 = k1.inner(cur(&k0));
            let root = p1.memory_set.root();
            let m1 = k1.shared.memory@;
            &&& heap_usable(&p1)
            &&& p1.heap_bottom == p0.heap_bottom
            &&& if p0.program_brk + size >= p0.heap_bottom {
                &&& r == p0.program_brk
                &&& p1.program_brk == p0.program_brk + size
            } else {
                &&& r == -1
                &&& p1.program_brk == p0.program_brk
                &&& k1.shared.memory == k0.shared.memory
                &&& root == p0.memory_set.root()
            }
            &&& forall|v: int|
                p1.heap_bottom as int / 4096 <= v < (p1.program_brk + 4095) / 4096 ==> {
                    let e = #[trigger] leaf(m1, root, v);
                    &&& e % 2 == 1
                    &&& e / 2 % 2 == 1
                    &&& e / 4 % 2 == 1
                    &&& e / 8 % 2 == 0
                    &&& e / 16 % 2 == 1
                }
            &&& forall|v: int|
                (p0.program_brk + 4095) / 4096 <= v < (p1.program_brk + 4095) / 4096 ==> m1[
                #[trigger] leaf(m1, root, v) as int / 1024 % 0x1000_0000_0000] == Seq::new(
                    4096,
                    |i: int| 0u8,
                )
            &&& forall|v: int|
                (p1.program_brk + 4095) / 4096 <= v < (p0.program_brk + 4095) / 4096 ==> #[trigger] leaf(
                    m1,
                    root,
                    v,
                ) % 2 == 0
            &&& forall|v: int|
                0 <= v < VPN_COUNT && !(p0.heap_bottom as int / 4096 <= v < (p0.program_brk + 4095)
                    / 4096) && !(p0.heap_bottom as int / 4096 <= v < (p1.program_brk + 4095) / 4096)
                    ==> #[trigger] leaf(m1, root, v) == leaf(
                    k0.shared.memory@,
                    p0.memory_set.root(),
                    v,
                )
        }),
{
    let me = cur(&k0);
    let p0 = k0.inner(me);
    let p1 = k1.inner(me);
    assert(k0.has(me));
    assert(k1.has(me));
    lemma_found(p0.memory_set.views(), p0.heap_bottom as int / 4096);
    assert(area_ok(
        p0.memory_set.views()[heap_area(&p0)],
        &p0.memory_set.page_table,
        &k0.shared.memory,
    ));
    let res = if p0.program_brk + size >= p0.heap_bottom {
        Some(p0.program_brk)
    } else {
        None
    };
    assert(brk_moved(&p0, &p1, size as int, res, &k0.shared.memory, &k1.shared.memory));
    law_moved_heap_stays_usable(
        &p0,
        &p1,
        size as int,
        res,
        &k0.shared.memory,
        &k1.shared.memory,
    );
    law_heap_can_be_read_and_written(&p1, &k1.shared.memory);
}

/// A fork makes one process more, the last child of the one that asked, which is ready behind all
/// others. The parent gets its number. The child has its own frames; every page is mapped for it with
/// the same permissions as for its parent, and holds the same bytes. Its registers are those of its
/// parent, but register 10, in which it finds 0, and the place of its own kernel stack. It has the same
/// files open.
#[verifier::rlimit(40)]
pub proof fn law_fork<D: BlockDevice>(k0: Kernel<D>, k1: Kernel<D>, r: i64)
    requires
        exists|k: &mut Kernel<D>| #[trigger]
            call_ensures(sys_fork::<D>, (k,), r) && *k == k0 && *final(k) == k1,
        active(&k0),
        can_copy(&k0.space(cur(&k0)), &k0.shared),
    ensures
        ({
            let me = cur(&k0);
            let c = k0.shared.pids.upcoming();
            let p0 = k0.inner(me);
            let p1 = k1.inner(c);
            let m0 = k0.shared.memory@;
            let m1 = k1.shared.memory@;
            &&& c <= i64::MAX ==> r == c
            &&& !k0.has(c)
            &&& k1.has(c)
            &&& forall|j: int| #[trigger] k1.has(j) == (j == c || k0.has(j))
            &&& p1.parent == Some(me as usize)
            &&& k1.inner(me).children@ == p0.children@.push(c as usize)
            &&& p1.children@.len() == 0
            &&& p1.task_status == TaskStatus::Ready
            &&& k1.manager.queue() == k0.manager.queue().push(c as usize)
            &&& k1.processor.running() == Some(me as usize)
            &&& p1.fd_table@ == p0.fd_table@
            &&& p1.heap_bottom == p0.heap_bottom
            &&& p1.program_brk == p0.program_brk
            &&& heap_usable(&p0) ==> heap_usable(&p1)
            &&& p1.stride == 0
            &&& p1.priority == 16
            &&& p1.task_cx.ra == k0.shared.entry.trap_return
            &&& p1.task_cx.sp == 0xffff_ffff_ffff_f000 - k1.task(c).kernel_stack.0 * 12288
            // registers
            &&& word_at(m1, p1.trap_cx_ppn.0 as int, 10) == 0
            &&& forall|i: int|
                0 <= i < 34 && i != 10 ==> #[trigger] word_at(m1, p1.trap_cx_ppn.0 as int, i)
                    == word_at(m0, p0.trap_cx_ppn.0 as int, i)
            &&& word_at(m1, p1.trap_cx_ppn.0 as int, 34) == word_at(
                m0,
                p0.trap_cx_ppn.0 as int,
                34,
            )
            &&& word_at(m1, p1.trap_cx_ppn.0 as int, 36) == word_at(
                m0,
                p0.trap_cx_ppn.0 as int,
                36,
            )
            &&& word_at(m1, p1.trap_cx_ppn.0 as int, 35) == 0xffff_ffff_ffff_f000 - k1.task(
                c,
            ).kernel_stack.0 * 12288
            // permissions
            &&& forall|v: int|
                0 <= v < 0x7ff_ffff ==> {
                    let e0 = leaf(m0, p0.memory_set.root(), v);
                    let e1 = #[trigger] leaf(m1, p1.memory_set.root(), v);
                    e0 % 2 == e1 % 2 && (e0 % 2 == 1 ==> e0 % 256 == e1 % 256)
                }
            &&& p1.memory_set.owned().disjoint(k1.space(me).owned())
            // bytes
            &&& forall|va: u64| #[trigger]
                framed(&p0.memory_set, va) && va_of(va) / 4096 != 0x7ff_fffe ==> user_byte(
                    m1,
                    p1.memory_set.root(),
                    va,
                ) == user_byte(m0, p0.memory_set.root(), va)
        }),
{
    let me = cur(&k0);
    let c = k0.shared.pids.upcoming();
    let p0 = k0.inner(me);
    let p1 = k1.inner(c);
    let m0 = k0.shared.memory;
    let m1 = k1.shared.memory;
    assert(k0.has(me));
    assert(p0.task_status == TaskStatus::Running);
    assert(k0.has(c) == k0.shared.pids.in_use(c));
    assert forall|j: int| #[trigger] k1.has(j) == (j == c || k0.has(j)) by {
        assert(k1.has(j) == k1.shared.pids.in_use(j));
        assert(k0.has(j) == k0.shared.pids.in_use(j));
    }
    assert(k1.has(me) && k1.has(c) && me != c);
    if heap_usable(&p0) {
        let pieces = copies(&p0.memory_set, &m0);
        assert forall|k: int| 0 <= k < p0.memory_set.views().len() implies {
            let a = p0.memory_set.views()[k];
            let b = #[trigger] p1.memory_set.views()[k];
            &&& b.start == a.start
            &&& k == heap_area(&p0) ==> b.end == a.end && b.framed == a.framed && b.perm == a.perm
                && b.frames.dom() == a.frames.dom()
        } by {
            assert(piece_done_but(&p1.memory_set, pieces, k, &m1, TRAP_CONTEXT_VPN as int));
        }
        lemma_heap_stays(&p0, &p1);
    }
    assert forall|va: u64| #[trigger]
        framed(&p0.memory_set, va) && va_of(va) / 4096 != 0x7ff_fffe implies user_byte(
        m1@,
        p1.memory_set.root(),
        va,
    ) == user_byte(m0@, p0.memory_set.root(), va) by {
        law_child_has_a_copy(&k0, &k1, me, c, va);
    }
    assert forall|v: int| 0 <= v < 0x7ff_ffff implies {
        let e0 = leaf(m0@, p0.memory_set.root(), v);
        let e1 = #[trigger] leaf(m1@, p1.memory_set.root(), v);
        e0 % 2 == e1 % 2 && (e0 % 2 == 1 ==> e0 % 256 == e1 % 256)
    } by {
        lemma_copied_entry(
            &p0.memory_set,
            &p1.memory_set,
            k0.shared.entry.strampoline,
            &m0,
            &m1,
            v,
        );
    }
}

/// A page is mapped in a copy as it is in the address space that was copied.
proof fn lemma_copied_entry(
    ms0: &MemorySet,
    ms1: &MemorySet,
    strampoline: u64,
    m0: &Memory,
    m1: &Memory,
    v: int,
)
    requires
        ms0.wf(m0),
        complete(ms0),
        areas_only(ms0, m0),
        built_but(ms1, copies(ms0, m0), strampoline, m1, TRAP_CONTEXT_VPN as int),
        0 <= v < VPN_COUNT,
        v != TRAMPOLINE_VPN,
    ensures
        ({
            let e0 = leaf(m0@, ms0.root(), v);
            let e1 = leaf(m1@, ms1.root(), v);
            e0 % 2 == e1 % 2 && (e0 % 2 == 1 ==> e0 % 256 == e1 % 256)
        }),
{
    let pieces = copies(ms0, m0);
    if covered(pieces, v) {
        let k = choose|k: int| 0 <= k < pieces.len() && covers((#[trigger] pieces[k]).area, v);
        let a0 = ms0.views()[k];
        let a1 = ms1.views()[k];
        assert(piece_done_but(ms1, pieces, k, m1, TRAP_CONTEXT_VPN as int));
        assert(a0.framed && a0.frames.dom().contains(v)) by {
            assert(covers(a0, v));
        }
        assert(a1.frames.dom().contains(v));
        assert(area_ok(a0, &ms0.page_table, m0));
        assert(area_ok(a1, &ms1.page_table, m1));
        assert(frame_ok(a0, v, &ms0.page_table, m0));
        assert(frame_ok(a1, v, &ms1.page_table, m1));
        m0.lemma_wf();
        m1.lemma_wf();
        lemma_pte(a0.frames[v], in_use(a0.perm as int));
        lemma_pte(a1.frames[v], in_use(a0.perm as int));
    } else {
        assert(leaf(m1@, ms1.root(), v) == 0);
        lemma_held(ms0, m0, v);
        if held(ms0, m0, v) {
            let k = choose|k: int| 0 <= k < ms0.views().len() && (#[trigger] ms0.views()[k]).maps(v);
            assert(area_ok(ms0.views()[k], &ms0.page_table, m0));
            assert(covers(pieces[k].area, v));
        }
    }
}

/// A process goes on with another program if there is a file of that name, and gets -1 otherwise. Its
/// pages are those of the file: what header `i` asks for is mapped and open to programs, and can be
/// read, written and executed as the header says. It keeps its number, its parent, its children and
/// its open files.
#[verifier::rlimit(40)]
pub proof fn law_exec<D: BlockDevice>(
    k0: Kernel<D>,
    k1: Kernel<D>,
    path: u64,
    r: i64,
    i: int,
    v: int,
)
    requires
        exists|k: &mut Kernel<D>| #[trigger]
            call_ensures(sys_exec::<D>, (path, k), r) && *k == k0 && *final(k) == k1,
        active(&k0),
        file_at(&k0, path) is Some ==> loadable(
            content_at(&k0, path),
            k0.shared.memory.free().len() as int,
        ),
    ensures
        file_at(&k0, path) is None ==> r == -1 && k1.tasks@ == k0.tasks@ && k1.shared == k0.shared,
        file_at(&k0, path) is Some ==> {
            let me = cur(&k0);
            let file = content_at(&k0, path);
            let p0 = k0.inner(me);
            let p1 = k1.inner(me);
            let e = leaf(k1.shared.memory@, p1.memory_set.root(), v);
            &&& r == 0
            &&& k1.task(me).pid == k0.task(me).pid
            &&& p1.parent == p0.parent
            &&& p1.children == p0.children
            &&& p1.fd_table == p0.fd_table
            &&& p1.task_status == p0.task_status
            &&& word_at(k1.shared.memory@, p1.trap_cx_ppn.0 as int, 33) == (if file[4] == 2 {
                u64_at(file, 24)
            } else {
                u32_at(file, 24) as u64
            })
            &&& word_at(k1.shared.memory@, p1.trap_cx_ppn.0 as int, 2) == stack_top(
                segments_of(file),
            )
            &&& 0 <= i < segments_of(file).len() && segments_of(file)[i].kind is Load
                && segments_of(file)[i].vaddr as int % 0x80_0000_0000 / 4096 <= v < segment_end(
                segments_of(file)[i],
            ) ==> {
                &&& e % 2 == 1
                &&& (e / 2 % 2 == 1) == segments_of(file)[i].readable
                &&& (e / 4 % 2 == 1) == segments_of(file)[i].writable
                &&& (e / 8 % 2 == 1) == segments_of(file)[i].executable
                &&& e / 16 % 2 == 1
            }
        },
{
    let me = cur(&k0);
    assert(k0.has(me));
    if file_at(&k0, path) is Some {
        let file = content_at(&k0, path);
        assert(k1.has(me));
        lemma_runs(
            &k1.inner(me),
            file,
            k0.shared.memory.free().len() as int,
            k0.task(me).kernel_stack.0 as int,
            &k1.shared,
            i,
            v,
        );
    }
}

/// A process starts another one with the program of a file, if there is a file of that name, and gets
/// -1 otherwise. The new process is its last child, it is ready behind all others, and it has input
/// and output open. Its pages are those of the file, as for a process that goes on with the program;
/// its heap is empty and can be used.
#[verifier::rlimit(40)]
pub proof fn law_spawn<D: BlockDevice>(
    k0: Kernel<D>,
    k1: Kernel<D>,
    path: u64,
    r: i64,
    i: int,
    v: int,
)
    requires
        exists|k: &mut Kernel<D>| #[trigger]
            call_ensures(sys_spawn::<D>, (path, k), r) && *k == k0 && *final(k) == k1,
        active(&k0),
        file_at(&k0, path) is Some ==> can_start(&k0.shared, content_at(&k0, path)),
    ensures
        file_at(&k0, path) is None ==> r == -1 && k1.tasks@ == k0.tasks@ && k1.shared == k0.shared,
        file_at(&k0, path) is Some ==> {
            let me = cur(&k0);
            let c = k0.shared.pids.upcoming();
            let file = content_at(&k0, path);
            let p1 = k1.inner(c);
            let e = leaf(k1.shared.memory@, p1.memory_set.root(), v);
            &&& c <= i64::MAX ==> r == c
            &&& !k0.has(c)
            &&& k1.has(c)
            &&& p1.parent == Some(me as usize)
            &&& k1.inner(me).children@ == k0.inner(me).children@.push(c as usize)
            &&& k1.inner(me).memory_set == k0.inner(me).memory_set
            &&& p1.task_status == TaskStatus::Ready
            &&& k1.manager.queue() == k0.manager.queue().push(c as usize)
            &&& p1.fd_table@ == seq![
                Some(FileRef::Stdin),
                Some(FileRef::Stdout),
                Some(FileRef::Stdout),
            ]
            &&& p1.stride == 0
            &&& p1.priority == 16
            &&& p1.task_cx.ra == k0.shared.entry.trap_return
            &&& p1.task_cx.sp == 0xffff_ffff_ffff_f000 - k1.task(c).kernel_stack.0 * 12288
            &&& word_at(k1.shared.memory@, p1.trap_cx_ppn.0 as int, 33) == (if file[4] == 2 {
                u64_at(file, 24)
            } else {
                u32_at(file, 24) as u64
            })
            &&& word_at(k1.shared.memory@, p1.trap_cx_ppn.0 as int, 2) == stack_top(
                segments_of(file),
            )
            &&& p1.heap_bottom == stack_top(segments_of(file))
            &&& p1.program_brk == p1.heap_bottom
            &&& stack_top(segments_of(file)) < 0x80_0000_0000 ==> heap_usable(&p1)
            &&& 0 <= i < segments_of(file).len() && segments_of(file)[i].kind is Load
                && segments_of(file)[i].vaddr as int % 0x80_0000_0000 / 4096 <= v < segment_end(
                segments_of(file)[i],
            ) ==> {
                &&& e % 2 == 1
                &&& (e / 2 % 2 == 1) == segments_of(file)[i].readable
                &&& (e / 4 % 2 == 1) == segments_of(file)[i].writable
                &&& (e / 8 % 2 == 1) == segments_of(file)[i].executable
                &&& e / 16 % 2 == 1
            }
        },
{
    let me = cur(&k0);
    assert(k0.has(me));
    if file_at(&k0, path) is Some {
        let c = k0.shared.pids.upcoming();
        let file = content_at(&k0, path);
        assert(k0.has(c) == k0.shared.pids.in_use(c));
        assert(k1.has(me) && me != c) by {
            assert(k1.has(me) == k1.shared.pids.in_use(me));
            assert(k0.has(me) == k0.shared.pids.in_use(me));
        }
        lemma_runs(
            &k1.inner(c),
            file,
            k0.shared.memory.free().len() - k0.shared.stack_cost(),
            k1.task(c).kernel_stack.0 as int,
            &k1.shared,
            i,
            v,
        );
        if stack_top(segments_of(file)) < 0x80_0000_0000 {
            law_heap_starts_empty(
                &k1.inner(c),
                file,
                k1.task(c).kernel_stack.0 as int,
                &k1.shared,
            );
        }
    }
}

/// What the address space and the registers of a program hold.
#[verifier::rlimit(40)]
proof fn lemma_runs(
    inner: &TaskControlBlockInner,
    file: Seq<u8>,
    frames: int,
    kstack: int,
    s: &Shared,
    i: int,
    v: int,
)
    requires
        runs_file(inner, file, kstack, s),
        loadable(file, frames),
    ensures
        stack_top(segments_of(file)) <= u64::MAX,
        word_at(s.memory@, inner.trap_cx_ppn.0 as int, 33) == (if file[4] == 2 {
            u64_at(file, 24)
        } else {
            u32_at(file, 24) as u64
        }),
        word_at(s.memory@, inner.trap_cx_ppn.0 as int, 2) == stack_top(segments_of(file)),
        0 <= i < segments_of(file).len() && segments_of(file)[i].kind is Load
            && segments_of(file)[i].vaddr as int % 0x80_0000_0000 / 4096 <= v < segment_end(
            segments_of(file)[i],
        ) ==> {
            let e = leaf(s.memory@, inner.memory_set.root(), v);
            &&& e % 2 == 1
            &&& (e / 2 % 2 == 1) == segments_of(file)[i].readable
            &&& (e / 4 % 2 == 1) == segments_of(file)[i].writable
            &&& (e / 8 % 2 == 1) == segments_of(file)[i].executable
            &&& e / 16 % 2 == 1
        },
{
    let page = inner.trap_cx_ppn.0 as int;
    let words = context_at(s.memory@, page);
    assert(words[33] == word_at(s.memory@, page, 33));
    assert(words[2] == word_at(s.memory@, page, 2));
    let segments = segments_of(file);
    lemma_stack_top(segments);
    if 0 <= i < segments.len() && segments[i].kind is Load && segments[i].vaddr as int
        % 0x80_0000_0000 / 4096 <= v < segment_end(segments[i]) {
        assert(segments[i].vaddr + segments[i].memsz <= u64::MAX);
        lemma_segment_mapped(
            &inner.memory_set,
            file,
            frames,
            s.entry.strampoline,
            &s.memory,
            i,
            v,
        );
    }
}

/// When the end of a heap that can be used can be moved. It can always be moved back, and any move before
/// its start is answered. It can be moved on if the pages that come to it are not mapped and there are
/// three free frames for each of them.
pub proof fn law_when_the_heap_can_move(
    inner: &TaskControlBlockInner,
    size: i32,
    memory: Memory,
    r: bool,
)
    requires
        call_ensures(is_brk_movable, (inner, size, &memory), r),
        inner.memory_set.wf(&memory),
        heap_usable(inner),
        inner.program_brk < 0x7fff_ffe0_0000,
        (inner.program_brk + 4095) / 4096 <= 0x7ff_fffe,
    ensures
        size < 0 ==> r,
        ({
            let from = (inner.program_brk + 4095) / 4096;
            let to = (inner.program_brk + size + 4095) / 4096;
            size >= 0 && to <= 0x800_0000 && (forall|v: int|
                from <= v < to ==> #[trigger] leaf(memory@, inner.memory_set.root(), v) % 2 == 0)
                && memory.free().len() >= 3 * (to - from) ==> r
        }),
{
    let ms = inner.memory_set;
    let views = ms.views();
    let h = heap_area(inner);
    lemma_found(views, inner.heap_bottom as int / 4096);
    let a = views[h];
    assert(area_ok(a, &ms.page_table, &memory));
    let end = (inner.program_brk + size + 4095) / 4096;
    if size >= 0 {
        if a.end <= end {
            lemma_cost_bound(ms.shape(&memory), a.end, end);
        }
    } else if inner.program_brk + size >= inner.heap_bottom {
        lemma_valid_frames(a, &ms.page_table, &memory);
        assert forall|v: int| end <= v < a.end implies pte_valid(
            #[trigger] leaf(memory@, ms.root(), v),
        ) by {
            assert(a.frames.dom().contains(v));
        }
        assert forall|j: int, v: int|
            0 <= j < views.len() && j != h && end <= v < a.end implies !(
        #[trigger] views[j].frames.dom().contains(v)) by {
            if views[j].frames.dom().contains(v) {
                assert(area_ok(views[j], &ms.page_table, &memory));
                lemma_valid_frames(views[j], &ms.page_table, &memory);
                assert(a.frames.dom().contains(v));
                assert(a.owned().contains(a.frames[v]));
                assert(views[j].owned().contains(views[j].frames[v]));
            }
        }
    }
}

} // verus!
