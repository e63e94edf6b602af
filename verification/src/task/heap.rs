//! The heap of a process.

use vstd::prelude::*;

use super::shared::Shared;
use super::task::{can_move_brk, runs_file, shrunk, TaskControlBlockInner};
use crate::mm::address::{va_of, VPN_COUNT};
use crate::mm::elf::{
    load_end, load_plan, load_plans, program_plans, segments_of, stack_top, ElfSegment,
};
use crate::mm::frame_allocator::{zero_page, Memory};
use crate::mm::laws::lemma_framed_entry;
use crate::mm::map_area::{area_ok, lemma_valid_frames, pages, AreaView};
use crate::mm::memory_set::{appended, area_at, lemma_area_at, TRAP_CONTEXT_VPN};
use crate::mm::page_table::{in_use, leaf, lemma_pte, pte_valid};
use crate::mm::plan::pieces_of;
use crate::mm::space::piece_done_but;

verus! {

/// The number of the area that is the heap, or the number of areas if there is none.
pub open spec fn heap_area(inner: &TaskControlBlockInner) -> int {
    area_at(inner.memory_set.views(), inner.heap_bottom as int / 4096)
}

/// There is an area for the heap, and it ends with the page in which the heap ends.
pub open spec fn heap_at_brk(inner: &TaskControlBlockInner) -> bool {
    let views = inner.memory_set.views();
    let k = heap_area(inner);
    &&& k < views.len()
    &&& views[k].end == (inner.program_brk + 4095) / 4096
}

/// The end of the heap was moved by `size` bytes. `r` is where it was; `None` if it would lie before
/// the start of the heap or there is no area for the heap: nothing has changed then.
pub open spec fn brk_moved(
    inner: &TaskControlBlockInner,
    inner2: &TaskControlBlockInner,
    size: int,
    r: Option<u64>,
    memory: &Memory,
    memory2: &Memory,
) -> bool {
    let ms = inner.memory_set;
    let ms2 = inner2.memory_set;
    let brk = inner.program_brk + size;
    let k = heap_area(inner);
    let end = (brk + 4095) / 4096;
    &&& r == (if brk >= inner.heap_bottom && k < ms.views().len() {
        Some(inner.program_brk)
    } else {
        None
    })
    &&& *inner2 == (TaskControlBlockInner {
        memory_set: ms2,
        program_brk: inner2.program_brk,
        ..*inner
    })
    &&& r is Some ==> inner2.program_brk == brk
    &&& r is Some && size < 0 ==> shrunk(&ms, &ms2, k, end, memory, memory2)
    &&& r is Some && size >= 0 ==> appended(&ms, &ms2, k, end, memory, memory2)
    &&& r is None ==> {
        &&& inner2.program_brk == inner.program_brk
        &&& ms2.views() == ms.views()
        &&& ms2.page_table == ms.page_table
        &&& *memory2 == *memory
    }
}

/// What `area_at` finds starts there, and nothing before it does.
pub proof fn lemma_found(views: Seq<AreaView>, start: int)
    ensures
        ({
            let k = area_at(views, start);
            &&& 0 <= k <= views.len()
            &&& k < views.len() ==> views[k].start == start
            &&& forall|j: int| 0 <= j < k ==> (#[trigger] views[j]).start != start
        }),
    decreases views.len(),
{
    if views.len() > 0 && views[0].start != start {
        let rest = views.drop_first();
        lemma_found(rest, start);
        let k = area_at(rest, start);
        assert forall|j: int| 0 <= j < k + 1 implies (#[trigger] views[j]).start != start by {
            if j > 0 {
                assert(rest[j - 1] == views[j]);
            }
        }
    }
}

/// The heap is the same area after its end has moved.
pub proof fn lemma_heap_area_kept(
    inner: &TaskControlBlockInner,
    inner2: &TaskControlBlockInner,
    size: int,
    r: Option<u64>,
    memory: &Memory,
    memory2: &Memory,
)
    requires
        brk_moved(inner, inner2, size, r, memory, memory2),
    ensures
        0 <= heap_area(inner) <= inner.memory_set.views().len(),
        heap_area(inner2) == heap_area(inner),
        inner2.memory_set.views().len() == inner.memory_set.views().len(),
        r is Some ==> heap_at_brk(inner2),
        r is None && heap_at_brk(inner) ==> heap_at_brk(inner2),
{
    let views = inner.memory_set.views();
    let views2 = inner2.memory_set.views();
    let start = inner.heap_bottom as int / 4096;
    let k = heap_area(inner);
    lemma_found(views, start);
    if r is Some {
        assert(views2 == views.update(k, views2[k]));
        assert(views2[k].start == views[k].start);
    }
    lemma_area_at(views2, start, k);
}

/// A heap that has grown can be cut again by as much.
pub proof fn law_brk_can_move_back(
    inner0: &TaskControlBlockInner,
    inner1: &TaskControlBlockInner,
    n: int,
    r1: Option<u64>,
    m0: &Memory,
    m1: &Memory,
)
    requires
        inner0.memory_set.wf(m0),
        inner1.memory_set.wf(m1),
        heap_at_brk(inner0),
        inner0.heap_bottom <= inner0.program_brk,
        n >= 0,
        can_move_brk(inner0, n, m0),
        brk_moved(inner0, inner1, n, r1, m0, m1),
    ensures
        can_move_brk(inner1, -n, m1),
        forall|v: int|
            (inner0.program_brk + 4095) / 4096 <= v < (inner1.program_brk + 4095) / 4096
                ==> pte_valid(#[trigger] leaf(m1@, inner0.memory_set.root(), v)),
{
    let ms0 = inner0.memory_set;
    let ms1 = inner1.memory_set;
    let k = heap_area(inner0);
    let a = ms0.views()[k];
    let a1 = ms1.views()[k];
    lemma_found(ms0.views(), inner0.heap_bottom as int / 4096);
    lemma_heap_area_kept(inner0, inner1, n, r1, m0, m1);
    assert(area_ok(a, &ms0.page_table, m0));
    assert(area_ok(a1, &ms1.page_table, m1));
    lemma_valid_frames(a1, &ms1.page_table, m1);
    assert forall|v: int| a.end <= v < a1.end implies pte_valid(
        #[trigger] leaf(m1@, ms0.root(), v),
    ) by {
        if a.framed {
            assert(a1.frames.dom().contains(v));
        } else {
            lemma_pte(v, in_use(a.perm as int));
        }
    }
    assert forall|j: int, v: int|
        0 <= j < ms1.views().len() && j != k && a.end <= v < a1.end implies !(
    #[trigger] ms1.views()[j].frames.dom().contains(v)) by {
        assert(ms1.views()[j] == ms0.views()[j]);
        assert(area_ok(ms0.views()[j], &ms0.page_table, m0));
        lemma_valid_frames(ms0.views()[j], &ms0.page_table, m0);
    }
}

/// Moving the end of the heap by `n` bytes and back again restores it: the first call returns where
/// the end was, the second where it was in between, the end is where it was at first, and the same
/// pages are mapped. Where the heap grows first, all pages are mapped as they were, and the areas
/// have the frames that they had. A heap that was cut first needs frames to grow again.
pub proof fn law_brk_forth_and_back(
    inner0: &TaskControlBlockInner,
    inner1: &TaskControlBlockInner,
    inner2: &TaskControlBlockInner,
    n: int,
    r1: Option<u64>,
    r2: Option<u64>,
    m0: &Memory,
    m1: &Memory,
    m2: &Memory,
)
    requires
        inner0.memory_set.wf(m0),
        inner1.memory_set.wf(m1),
        inner2.memory_set.wf(m2),
        heap_at_brk(inner0),
        inner0.heap_bottom <= inner0.program_brk,
        inner0.heap_bottom <= inner0.program_brk + n <= u64::MAX,
        can_move_brk(inner0, n, m0),
        brk_moved(inner0, inner1, n, r1, m0, m1),
        n < 0 ==> can_move_brk(inner1, -n, m1),
        brk_moved(inner1, inner2, -n, r2, m1, m2),
    ensures
        r1 == Some(inner0.program_brk),
        r2 == Some((inner0.program_brk + n) as u64),
        inner2.program_brk == inner0.program_brk,
        heap_at_brk(inner2),
        inner2.memory_set.root() == inner0.memory_set.root(),
        forall|v: int|
            0 <= v < VPN_COUNT ==> pte_valid(#[trigger] leaf(m2@, inner0.memory_set.root(), v))
                == pte_valid(leaf(m0@, inner0.memory_set.root(), v)),
        n >= 0 ==> inner2.memory_set.views() == inner0.memory_set.views(),
        n >= 0 ==> forall|v: int|
            0 <= v < VPN_COUNT && pte_valid(leaf(m0@, inner0.memory_set.root(), v))
                ==> #[trigger] leaf(m2@, inner0.memory_set.root(), v) == leaf(
                m0@,
                inner0.memory_set.root(),
                v,
            ),
{
    let ms0 = inner0.memory_set;
    let ms1 = inner1.memory_set;
    let ms2 = inner2.memory_set;
    let k = heap_area(inner0);
    lemma_found(ms0.views(), inner0.heap_bottom as int / 4096);
    lemma_heap_area_kept(inner0, inner1, n, r1, m0, m1);
    lemma_heap_area_kept(inner1, inner2, -n, r2, m1, m2);
    if n >= 0 {
        law_brk_can_move_back(inner0, inner1, n, r1, m0, m1);
    }
    let a0 = ms0.views()[k];
    let a1 = ms1.views()[k];
    let a2 = ms2.views()[k];
    assert(area_ok(a0, &ms0.page_table, m0));
    assert(area_ok(a1, &ms1.page_table, m1));
    assert(area_ok(a2, &ms2.page_table, m2));
    assert(a2.end == a0.end);
    if n > 0 {
        assert(a2.frames =~= a0.frames) by {
            assert forall|v: int| a2.frames.dom().contains(v) == #[trigger] a0.frames.dom().contains(
                v,
            ) by {
                assert(pages(a0.end, a1.end).contains(v) == (a0.end <= v < a1.end));
            }
        }
        assert(ms2.views() =~= ms0.views());
    } else if n < 0 {
        lemma_valid_frames(a2, &ms2.page_table, m2);
        assert forall|v: int| a1.end <= v < a0.end implies pte_valid(
            #[trigger] leaf(m2@, ms0.root(), v),
        ) by {
            if a2.framed {
                assert(a2.frames.dom().contains(v));
            } else {
                lemma_pte(v, in_use(a2.perm as int));
            }
        }
    } else {
        assert(a2.frames =~= a0.frames);
        assert(ms2.views() =~= ms0.views());
    }
    assert forall|v: int| 0 <= v < VPN_COUNT implies pte_valid(#[trigger] leaf(m2@, ms0.root(), v))
        == pte_valid(leaf(m0@, ms0.root(), v)) by {
        assert(leaf(m1@, ms0.root(), v) == leaf(m1@, ms1.root(), v));
    }
}

/// No area of the segments ends behind the last of their pages.
proof fn lemma_load_end(segments: Seq<ElfSegment>, n: int)
    requires
        0 <= n <= segments.len(),
    ensures
        forall|i: int|
            0 <= i < load_plans(segments, n).len() ==> (#[trigger] load_plans(
                segments,
                n,
            )[i]).area().end <= load_end(segments, n),
        load_end(segments, n) >= 0,
    decreases n,
{
    if n > 0 {
        lemma_load_end(segments, n - 1);
        let plans = load_plans(segments, n);
        let before = load_plans(segments, n - 1);
        assert forall|i: int| 0 <= i < plans.len() implies (#[trigger] plans[i]).area().end
            <= load_end(segments, n) by {
            if i < before.len() {
                assert(plans[i] == before[i]);
            } else {
                assert(plans[i] == load_plan(segments[n - 1]));
            }
        }
    }
}

/// The heap of a program that is about to start is empty, and there is an area for it: the one behind
/// the stack. A program whose stack lies in the upper half of the address space is left out: no area
/// is found at the address of its heap.
pub proof fn law_heap_starts_empty(
    inner: &TaskControlBlockInner,
    file: Seq<u8>,
    kstack: int,
    s: &Shared,
)
    requires
        runs_file(inner, file, kstack, s),
        stack_top(segments_of(file)) < 0x80_0000_0000,
        inner.heap_bottom == stack_top(segments_of(file)),
        inner.program_brk == inner.heap_bottom,
    ensures
        heap_at_brk(inner),
        ({
            let heap = inner.memory_set.views()[heap_area(inner)];
            heap.start == heap.end && heap.framed
        }),
        heap_usable(inner),
{
    let segments = segments_of(file);
    let n = segments.len() as int;
    let plans = program_plans(segments);
    let pieces = pieces_of(plans, file);
    let views = inner.memory_set.views();
    let k = load_plans(segments, n).len() as int + 1;
    let top = stack_top(segments);
    lemma_load_end(segments, n);
    assert(va_of(top as u64) == top);
    assert forall|j: int| 0 <= j < k implies (#[trigger] views[j]).start != top / 4096 by {
        assert(piece_done_but(
            &inner.memory_set,
            pieces,
            j,
            &s.memory,
            TRAP_CONTEXT_VPN as int,
        ));
        assert(area_ok(views[j], &inner.memory_set.page_table, &s.memory));
        if j < k - 1 {
            assert(plans[j] == load_plans(segments, n)[j]);
        }
    }
    assert(piece_done_but(&inner.memory_set, pieces, k, &s.memory, TRAP_CONTEXT_VPN as int));
    lemma_area_at(views, top / 4096, k);
    assert(views[k].frames.dom() =~= pages(views[k].start, views[k].end));
}

/// The area of the heap begins with the page in which the heap begins and ends with the page in which
/// it ends, and each of its pages has a frame that programs can read and write but not execute.
pub open spec fn heap_usable(inner: &TaskControlBlockInner) -> bool {
    let a = inner.memory_set.views()[heap_area(inner)];
    &&& heap_at_brk(inner)
    &&& inner.heap_bottom <= inner.program_brk
    &&& a.framed
    &&& a.perm == 22
    &&& a.frames.dom() == pages(a.start, a.end)
}

/// What the heap of a process means to the machine: every page from its start to its end is mapped,
/// programs can read and write it, and they cannot execute it.
pub proof fn law_heap_can_be_read_and_written(inner: &TaskControlBlockInner, memory: &Memory)
    requires
        inner.memory_set.wf(memory),
        heap_usable(inner),
    ensures
        forall|v: int|
            inner.heap_bottom as int / 4096 <= v < (inner.program_brk + 4095) / 4096 ==> {
                let e = #[trigger] leaf(memory@, inner.memory_set.root(), v);
                &&& e % 2 == 1
                &&& e / 2 % 2 == 1
                &&& e / 4 % 2 == 1
                &&& e / 8 % 2 == 0
                &&& e / 16 % 2 == 1
                &&& e / 32 % 32 == 0
            },
{
    let ms = inner.memory_set;
    let k = heap_area(inner);
    lemma_found(ms.views(), inner.heap_bottom as int / 4096);
    assert forall|v: int|
        inner.heap_bottom as int / 4096 <= v < (inner.program_brk + 4095) / 4096 implies {
        let e = #[trigger] leaf(memory@, ms.root(), v);
        &&& e % 2 == 1
        &&& e / 2 % 2 == 1
        &&& e / 4 % 2 == 1
        &&& e / 8 % 2 == 0
        &&& e / 16 % 2 == 1
        &&& e / 32 % 32 == 0
    } by {
        assert(ms.views()[k].frames.dom().contains(v));
        lemma_framed_entry(&ms, memory, k, v);
    }
}

/// A heap that can be used can be used after its end has moved. Where it has grown, the pages that
/// came to it hold zeros.
#[verifier::rlimit(40)]
pub proof fn law_moved_heap_stays_usable(
    inner0: &TaskControlBlockInner,
    inner1: &TaskControlBlockInner,
    size: int,
    r: Option<u64>,
    m0: &Memory,
    m1: &Memory,
)
    requires
        inner1.memory_set.wf(m1),
        heap_usable(inner0),
        inner0.program_brk + size <= u64::MAX,
        brk_moved(inner0, inner1, size, r, m0, m1),
    ensures
        heap_usable(inner1),
        inner1.heap_bottom == inner0.heap_bottom,
        r is Some <==> inner0.program_brk + size >= inner0.heap_bottom,
        r is Some ==> r == Some(inner0.program_brk) && inner1.program_brk == inner0.program_brk
            + size,
        r is None ==> inner1.program_brk == inner0.program_brk,
        forall|v: int|
            (inner0.program_brk + 4095) / 4096 <= v < (inner1.program_brk + 4095) / 4096
                ==> m1@[#[trigger] leaf(m1@, inner1.memory_set.root(), v) as int / 1024
                % 0x1000_0000_0000] == Seq::new(4096, |i: int| 0u8),
{
    let ms0 = inner0.memory_set;
    let ms1 = inner1.memory_set;
    let k = heap_area(inner0);
    lemma_found(ms0.views(), inner0.heap_bottom as int / 4096);
    lemma_heap_area_kept(inner0, inner1, size, r, m0, m1);
    let a0 = ms0.views()[k];
    let a1 = ms1.views()[k];
    if r is Some {
        assert(a1.frames.dom() =~= pages(a1.start, a1.end)) by {
            assert forall|v: int| #[trigger] a1.frames.dom().contains(v) == pages(
                a1.start,
                a1.end,
            ).contains(v) by {
                if size < 0 {
                    assert(pages(a1.end, a0.end).contains(v) == (a1.end <= v < a0.end));
                }
            }
        }
        assert(ms1.views()[k] == a1);
    }
    assert forall|v: int|
        (inner0.program_brk + 4095) / 4096 <= v < (inner1.program_brk + 4095) / 4096 implies m1@[
    #[trigger] leaf(m1@, ms1.root(), v) as int / 1024 % 0x1000_0000_0000] == Seq::new(
        4096,
        |i: int| 0u8,
    ) by {
        assert(a1.frames.dom().contains(v));
        lemma_framed_entry(&ms1, m1, k, v);
        assert(m1@[a1.frames[v]] == zero_page());
        assert(zero_page() =~= Seq::new(4096, |i: int| 0u8));
    }
}

/// A program that was just loaded, and then any series of requests to move the end of its heap. Before
/// request `i` the process is `ps[i]` and memory is `before[i]`; memory is `after[i]` afterwards. In
/// between the program may write to its memory. At any time every page of the heap can be read and
/// written by the program and not executed. Each request returns where the end of the heap was, and
/// moves it by as much as was asked for, unless it would lie before the start.
#[verifier::rlimit(40)]
pub proof fn law_heap_of_a_running_program(
    file: Seq<u8>,
    kstack: int,
    s: &Shared,
    ps: Seq<TaskControlBlockInner>,
    sizes: Seq<int>,
    results: Seq<Option<u64>>,
    before: Seq<Memory>,
    after: Seq<Memory>,
    n: int,
)
    requires
        runs_file(&ps[0], file, kstack, s),
        stack_top(segments_of(file)) < 0x80_0000_0000,
        ps[0].heap_bottom == stack_top(segments_of(file)),
        ps[0].program_brk == ps[0].heap_bottom,
        0 <= n < ps.len(),
        sizes.len() == ps.len() - 1,
        forall|i: int|
            0 <= i < ps.len() ==> (#[trigger] ps[i]).memory_set.wf(&before[i]),
        forall|i: int|
            0 <= i < sizes.len() ==> {
                &&& ps[i].program_brk + #[trigger] sizes[i] <= u64::MAX
                &&& brk_moved(&ps[i], &ps[i + 1], sizes[i], results[i], &before[i], &after[i])
                &&& ps[i + 1].memory_set.wf(&after[i])
            },
    ensures
        heap_usable(&ps[n]),
        ps[n].heap_bottom == ps[0].heap_bottom,
        forall|v: int|
            ps[n].heap_bottom as int / 4096 <= v < (ps[n].program_brk + 4095) / 4096 ==> {
                let e = #[trigger] leaf(before[n]@, ps[n].memory_set.root(), v);
                &&& e % 2 == 1
                &&& e / 2 % 2 == 1
                &&& e / 4 % 2 == 1
                &&& e / 8 % 2 == 0
                &&& e / 16 % 2 == 1
            },
        n > 0 ==> if ps[n - 1].program_brk + sizes[n - 1] >= ps[0].heap_bottom {
            &&& results[n - 1] == Some(ps[n - 1].program_brk)
            &&& ps[n].program_brk == ps[n - 1].program_brk + sizes[n - 1]
        } else {
            results[n - 1] is None && ps[n].program_brk == ps[n - 1].program_brk
        },
    decreases n,
{
    if n == 0 {
        law_heap_starts_empty(&ps[0], file, kstack, s);
        lemma_found(ps[0].memory_set.views(), ps[0].heap_bottom as int / 4096);
    } else {
        law_heap_of_a_running_program(
            file,
            kstack,
            s,
            ps,
            sizes,
            results,
            before,
            after,
            n - 1,
        );
        assert(ps[n - 1].program_brk + sizes[n - 1] <= u64::MAX);
        law_moved_heap_stays_usable(
            &ps[n - 1],
            &ps[n],
            sizes[n - 1],
            results[n - 1],
            &before[n - 1],
            &after[n - 1],
        );
    }
    assert(ps[n].memory_set.wf(&before[n]));
    law_heap_can_be_read_and_written(&ps[n], &before[n]);
}

/// A heap that can be used can be used where its area is as it was and no area came before it: as many
/// areas as there were, and then others.
pub proof fn lemma_heap_stays(inner0: &TaskControlBlockInner, inner1: &TaskControlBlockInner)
    requires
        heap_usable(inner0),
        inner1.heap_bottom == inner0.heap_bottom,
        inner1.program_brk == inner0.program_brk,
        inner1.memory_set.views().len() >= inner0.memory_set.views().len(),
        forall|k: int|
            0 <= k < inner0.memory_set.views().len() ==> {
                let a = inner0.memory_set.views()[k];
                let b = #[trigger] inner1.memory_set.views()[k];
                &&& b.start == a.start
                &&& k == heap_area(inner0) ==> b.end == a.end && b.framed == a.framed && b.perm
                    == a.perm && b.frames.dom() == a.frames.dom()
            },
    ensures
        heap_usable(inner1),
{
    let start = inner0.heap_bottom as int / 4096;
    let k = heap_area(inner0);
    lemma_found(inner0.memory_set.views(), start);
    let views = inner1.memory_set.views();
    assert(views[k].start == start);
    assert forall|j: int| 0 <= j < k implies (#[trigger] views[j]).start != start by {
        assert(views[j].start == inner0.memory_set.views()[j].start);
    }
    lemma_area_at(views, start, k);
}

} // verus!
