//! Whether a request of a process can be met. The kernel asks here before it tries.

use vstd::arithmetic::div_mod::{lemma_fundamental_div_mod, lemma_fundamental_div_mod_converse};
use vstd::prelude::*;

use super::user::{buffer_ok, framed, page_framed, text_ok};
use crate::mm::address::{va_of, VirtAddr, VirtPageNum, PAGE_SIZE, VPN_COUNT};
use crate::mm::elf::{is_loadable_with, program_plans, segments_of};
use crate::mm::frame_allocator::Memory;
use crate::mm::map_area::{area_ok, pages, MapArea, Shape};
use crate::mm::memory_set::{area_at, can_unmap, MemorySet, TRAMPOLINE_VPN, TRAP_CONTEXT_VPN};
use crate::mm::page_table::{leaf, pte_valid, PageTableEntry};
use crate::mm::plan::{fits, fits_next, lemma_fits, pieces_of, plan_fits, AreaPlan};
use crate::mm::space::{
    complete, copies, cost_of, covered, covers, has_frame, lemma_areas_apart, lemma_cost_grows,
    shape_of, Piece,
};
use crate::mm::user::{cell, has_table, is_text, user_byte};
use crate::syscall::process::can_sbrk;
use crate::task::shared::Shared;
use crate::task::task::{can_copy, can_start, has_numbers, TaskControlBlockInner};

verus! {

/// Whether a page has a frame of the address space.
fn is_page_framed(ms: &MemorySet, vpn: VirtPageNum) -> (r: bool)
    ensures
        r == page_framed(ms, vpn.0 as int),
{
    let ghost v = vpn.0 as int;
    let mut k: usize = 0;
    while k < ms.areas.len()
        invariant
            k <= ms.areas@.len(),
            v == vpn.0,
            ms.views().len() == ms.areas@.len(),
            forall|j: int| 0 <= j < k ==> !(#[trigger] ms.views()[j]).frames.dom().contains(v),
        decreases ms.areas@.len() - k,
    {
        assert(ms.views()[k as int] == ms.areas@[k as int]@);
        if ms.areas[k].has_frame(vpn) {
            assert(has_frame(ms, v, ms.views()[k as int].frames[v]));
            return true;
        }
        k += 1;
    }
    false
}

/// Whether the page of an address has a frame of the address space.
pub fn is_framed(ms: &MemorySet, va: u64) -> (r: bool)
    ensures
        r == framed(ms, va),
{
    let addr: VirtAddr = VirtAddr::new(va);
    is_page_framed(ms, addr.floor())
}

/// Whether a process can use `len` bytes from `ptr` on as a buffer.
pub fn is_buffer(ms: &MemorySet, ptr: u64, len: u64) -> (r: bool)
    ensures
        r == buffer_ok(ms, ptr, len),
{
    if len > u64::MAX - ptr {
        return false;
    }
    let end: u64 = ptr + len;
    if end > 0x40_0000_0000 && ptr < 0xffff_ffc0_0000_0000 {
        return false;
    }
    let mut va: u64 = ptr;
    while va < end
        invariant
            ptr <= va,
            end == ptr + len,
            va < end || va - end <= 4096,
            end <= 0x40_0000_0000 || ptr >= 0xffff_ffc0_0000_0000,
            forall|k: int| 0 <= k < len && ptr + k < va ==> framed(ms, #[trigger] ((ptr + k) as u64)),
        decreases end - va,
    {
        if !is_framed(ms, va) {
            assert(!framed(ms, (ptr + (va - ptr)) as u64));
            return false;
        }
        let left: u64 = PAGE_SIZE - va % PAGE_SIZE;
        proof {
            assert forall|k: int| 0 <= k < len && ptr + k < va + left implies framed(
                ms,
                #[trigger] ((ptr + k) as u64),
            ) by {
                if ptr + k >= va {
                    lemma_same_page(va, (ptr + k) as u64);
                }
            }
        }
        if left >= end - va {
            return true;
        }
        va = va + left;
    }
    true
}

/// Addresses between an address and the end of its page lie in that page.
proof fn lemma_same_page(a: u64, b: u64)
    requires
        a <= b,
        b - a < 4096 - a as int % 4096,
    ensures
        va_of(b) / 4096 == va_of(a) / 4096,
{
    lemma_fundamental_div_mod(a as int, 0x80_0000_0000);
    lemma_fundamental_div_mod(va_of(a), 4096);
    let q = a as int / 0x80_0000_0000;
    let r = va_of(a);
    assert(a as int % 4096 == r % 4096);
    assert(r + (b - a) < 0x80_0000_0000);
    lemma_fundamental_div_mod_converse(
        b as int,
        0x80_0000_0000,
        q,
        r + (b - a),
    );
    lemma_fundamental_div_mod_converse(
        r + (b - a),
        4096,
        r / 4096,
        r % 4096 + (b - a),
    );
}

/// Whether there is a text at an address.
pub fn is_text_at(ms: &MemorySet, ptr: u64, memory: &Memory) -> (r: bool)
    requires
        ms.wf(memory),
    ensures
        r == text_ok(ms, memory, ptr),
{
    let ghost mem = memory@;
    let ghost root = ms.root();
    let mut va: u64 = ptr;
    loop
        invariant
            ptr <= va,
            ms.wf(memory),
            mem == memory@,
            root == ms.root(),
            forall|k: int|
                0 <= k && ptr + k < va ==> {
                    let at = #[trigger] ((ptr + k) as u64);
                    &&& has_table(mem, root, at)
                    &&& mem.dom().contains(cell(mem, root, at).0)
                    &&& user_byte(mem, root, at) != 0
                },
        decreases u64::MAX - va,
    {
        let ghost n = va - ptr;
        let addr: VirtAddr = VirtAddr::new(va);
        let pte: Option<PageTableEntry> = ms.translate(addr.floor(), memory);
        let here: Option<u8> = match pte {
            Some(pte) => if memory.has_page(pte.ppn()) {
                Some(memory.read_byte(pte.ppn(), addr.page_offset() as usize))
            } else {
                None
            },
            None => None,
        };
        proof {
            assert((ptr + n) as u64 == va);
            assert(here is Some <==> has_table(mem, root, va) && mem.dom().contains(
                cell(mem, root, va).0,
            ));
            assert(here matches Some(b) ==> b == user_byte(mem, root, va));
        }
        match here {
            None => {
                proof {
                    lemma_no_text(mem, root, ptr, n);
                }
                return false;
            },
            Some(b) => {
                if b == 0 {
                    assert(is_text(mem, root, ptr, n));
                    return true;
                }
            },
        }
        if va == u64::MAX {
            proof {
                lemma_no_text(mem, root, ptr, n + 1);
            }
            return false;
        }
        va = va + 1;
    }
}

/// There is no text where no byte is zero before a byte that cannot be reached.
proof fn lemma_no_text(mem: Map<int, Seq<u8>>, root: int, ptr: u64, n: int)
    requires
        0 <= n,
        forall|k: int|
            0 <= k < n ==> user_byte(mem, root, #[trigger] ((ptr + k) as u64)) != 0,
        ptr + n > u64::MAX || !has_table(mem, root, (ptr + n) as u64) || !mem.dom().contains(
            cell(mem, root, (ptr + n) as u64).0,
        ),
    ensures
        forall|m: int| !is_text(mem, root, ptr, m),
{
    assert forall|m: int| !is_text(mem, root, ptr, m) by {
        if is_text(mem, root, ptr, m) {
            if m < n {
                assert(user_byte(mem, root, (ptr + m) as u64) != 0);
            } else {
                let at = (ptr + n) as u64;
                assert(has_table(mem, root, at) && mem.dom().contains(cell(mem, root, at).0));
            }
        }
    }
}

/// Whether there is a number for another process and a place for its kernel stack.
pub fn has_numbers_left(shared: &Shared) -> (r: bool)
    requires
        shared.wf(),
    ensures
        r == has_numbers(shared),
{
    let kstack: usize = shared.kstacks.peek();
    // as many stacks fit into the upper half of the address space
    shared.pids.peek() < usize::MAX && kstack as u64 <= 22_369_620
}

/// How many frames the next kernel stack takes.
fn next_stack_cost(shared: &Shared) -> (r: u64)
    requires
        shared.wf(),
        shared.has_stack_place(),
    ensures
        r == shared.stack_cost(),
{
    let id: u64 = shared.kstacks.peek() as u64;
    let page: u64 = 0x7ff_ffff - 3 * id - 2;
    shared.kernel_space.cost_of(VirtPageNum(page), VirtPageNum(page + 2), &shared.memory)
}

/// Whether a process can be made that runs a program file.
pub fn is_startable(shared: &Shared, file: &[u8]) -> (r: bool)
    requires
        shared.wf(),
    ensures
        r == can_start(shared, file@),
{
    if !has_numbers_left(shared) {
        return false;
    }
    let cost: u64 = next_stack_cost(shared);
    proof {
        shared.memory.lemma_frames();
    }
    let free: u64 = shared.memory.available();
    if free < cost {
        proof {
            if can_start(shared, file@) {
                let plans = program_plans(segments_of(file@));
                assert(fits(plans, file@, shared.memory.free().len() - shared.stack_cost()));
            }
        }
        return false;
    }
    is_loadable_with(file, free - cost)
}

/// The plan that has the same areas as an address space, as far as they have pages.
spec fn same_areas(plans: Seq<AreaPlan>, ms: &MemorySet, n: int) -> bool {
    &&& plans.len() == n
    &&& forall|k: int|
        0 <= k < n ==> {
            let a = (#[trigger] plans[k]).area();
            let b = ms.views()[k];
            &&& plans[k].data is None
            &&& a.wf()
            &&& a.framed
            &&& a.frames == Map::<int, int>::empty()
            &&& a.start == b.start && a.end == b.end || a.start == a.end && b.start == b.end
        }
}

/// Whether every page of an area has a frame.
fn is_complete(area: &MapArea) -> (r: bool)
    requires
        area@.wf(),
    ensures
        r == (area@.framed && area@.frames.dom() == pages(area@.start, area@.end)),
{
    if !area.is_framed() {
        return false;
    }
    let ghost a = area@;
    let mut vpn: u64 = area.get_start().0;
    let end: u64 = area.get_end().0;
    while vpn < end
        invariant
            a == area@,
            a.wf(),
            a.start <= vpn <= end,
            end == a.end,
            forall|v: int| a.start <= v < vpn ==> #[trigger] a.frames.dom().contains(v),
        decreases end - vpn,
    {
        if !area.has_frame(VirtPageNum(vpn)) {
            assert(!(a.frames.dom() == pages(a.start, a.end))) by {
                assert(pages(a.start, a.end).contains(vpn as int));
            }
            return false;
        }
        vpn += 1;
    }
    assert(a.frames.dom() =~= pages(a.start, a.end));
    true
}

/// Whether a process can be made with a copy of an address space.
pub fn is_copyable(ms: &MemorySet, shared: &Shared) -> (r: bool)
    requires
        shared.wf(),
        ms.wf(&shared.memory),
    ensures
        r == can_copy(ms, shared),
{
    if !has_numbers_left(shared) {
        return false;
    }
    let ghost views = ms.views();
    let mut plans: Vec<AreaPlan> = Vec::new();
    let mut k: usize = 0;
    while k < ms.areas.len()
        invariant
            k <= ms.areas@.len(),
            views == ms.views(),
            views.len() == ms.areas@.len(),
            ms.wf(&shared.memory),
            same_areas(plans@, ms, k as int),
            forall|j: int|
                0 <= j < k ==> {
                    let a = #[trigger] views[j];
                    &&& a.framed
                    &&& a.frames.dom() == pages(a.start, a.end)
                    &&& !(a.start <= TRAMPOLINE_VPN < a.end)
                },
        decreases ms.areas@.len() - k,
    {
        let area: &MapArea = &ms.areas[k];
        assert(views[k as int] == area@);
        assert(area_ok(views[k as int], &ms.page_table, &shared.memory));
        let (start, end): (u64, u64) = (area.get_start().0, area.get_end().0);
        if !is_complete(area) || start <= TRAMPOLINE_VPN && TRAMPOLINE_VPN < end {
            assert(!complete(ms)) by {
                let a = ms.views()[k as int];
            }
            return false;
        }
        let plan: AreaPlan = AreaPlan {
            start: start * PAGE_SIZE,
            end: end * PAGE_SIZE,
            framed: true,
            perm: 0,
            data: None,
        };
        proof {
            lemma_plan_area(plan, start as int, end as int);
        }
        plans.push(plan);
        k += 1;
    }
    assert(complete(ms));
    let cost: u64 = next_stack_cost(shared);
    proof {
        shared.memory.lemma_frames();
    }
    let free: u64 = shared.memory.available();
    let image: Vec<u8> = Vec::new();
    assert(image@ =~= Seq::empty());
    if free < cost {
        return false;
    }
    proof {
        lemma_copy_plan(plans@, ms, &shared.memory, free - cost);
    }
    plan_fits(&plans, image.as_slice(), free - cost)
}

/// The area that a plan without data describes by its pages.
proof fn lemma_plan_area(plan: AreaPlan, start: int, end: int)
    requires
        0 <= start <= end <= VPN_COUNT,
        !(start <= TRAMPOLINE_VPN < end),
        plan.start == start * 4096,
        plan.end == end * 4096,
        plan.framed,
        plan.data is None,
    ensures
        ({
            let a = plan.area();
            &&& a.wf()
            &&& a.framed
            &&& a.frames == Map::<int, int>::empty()
            &&& a.start == start && a.end == end || a.start == a.end && start == end
        }),
{
    let a = plan.area();
    if start < VPN_COUNT {
        lemma_fundamental_div_mod_converse(start * 4096, 0x80_0000_0000, 0, start * 4096);
        lemma_fundamental_div_mod_converse(start * 4096, 4096, start, 0);
        if end < VPN_COUNT {
            lemma_fundamental_div_mod_converse(end * 4096, 0x80_0000_0000, 0, end * 4096);
            lemma_fundamental_div_mod_converse(end * 4096 + 4095, 4096, end, 4095);
        }
    } else {
        lemma_fundamental_div_mod_converse(start * 4096, 0x80_0000_0000, 1, 0);
    }
}

/// The shape and the cost of pieces depend only on their pages.
proof fn lemma_same_cost(a: Seq<Piece>, b: Seq<Piece>)
    requires
        a.len() == b.len(),
        forall|k: int|
            0 <= k < a.len() ==> {
                let x = (#[trigger] a[k]).area;
                let y = b[k].area;
                &&& x.framed == y.framed
                &&& x.start == y.start && x.end == y.end || x.start == x.end && y.start == y.end
            },
    ensures
        shape_of(a) == shape_of(b),
        cost_of(a) == cost_of(b),
    decreases a.len(),
{
    if a.len() > 0 {
        let a1 = a.drop_last();
        let b1 = b.drop_last();
        assert forall|k: int| 0 <= k < a1.len() implies {
            let x = (#[trigger] a1[k]).area;
            let y = b1[k].area;
            &&& x.framed == y.framed
            &&& x.start == y.start && x.end == y.end || x.start == x.end && y.start == y.end
        } by {
            assert(a1[k] == a[k] && b1[k] == b[k]);
        }
        lemma_same_cost(a1, b1);
        assert(a[a.len() - 1] == a.last());
    }
}

/// The plan of a copy can be carried out where there are enough frames for the copy.
proof fn lemma_copy_plan(plans: Seq<AreaPlan>, ms: &MemorySet, memory: &Memory, frames: int)
    requires
        ms.wf(memory),
        complete(ms),
        same_areas(plans, ms, ms.views().len() as int),
    ensures
        fits(plans, Seq::empty(), frames) == (cost_of(copies(ms, memory)) <= frames),
{
    let pieces = pieces_of(plans, Seq::empty());
    let all = copies(ms, memory);
    let views = ms.views();
    assert forall|k: int| 0 <= k < pieces.len() implies {
        let x = (#[trigger] pieces[k]).area;
        let y = all[k].area;
        &&& x.framed == y.framed
        &&& x.start == y.start && x.end == y.end || x.start == x.end && y.start == y.end
    } by {
        assert(plans[k].area() == pieces[k].area);
        assert(views[k].framed);
    }
    lemma_same_cost(pieces, all);
    if fits(plans, Seq::empty(), frames) {
        lemma_fits(plans, Seq::empty(), frames, frames);
    }
    if cost_of(pieces) <= frames {
        lemma_areas_apart(ms, memory);
        lemma_cost_grows(pieces, 0);
        assert(pieces.take(0) =~= Seq::empty());
        assert forall|k: int| 0 <= k < plans.len() implies #[trigger] fits_next(
            plans,
            Seq::empty(),
            k,
            frames,
        ) by {
            let area = plans[k].area();
            let before = pieces.take(k);
            lemma_cost_grows(pieces, k + 1);
            assert(pieces.take(k + 1).drop_last() =~= before);
            assert(pieces.take(k + 1).last() == pieces[k]);
            assert(plans[k].area() == pieces[k].area);
            assert forall|v: int| area.start <= v < area.end implies !covered(before, v) by {
                if covered(before, v) {
                    let j = choose|j: int|
                        0 <= j < before.len() && covers((#[trigger] before[j]).area, v);
                    assert(before[j] == pieces[j]);
                    assert(plans[j].area() == pieces[j].area);
                    assert(covers(views[j], v) && covers(views[k], v));
                }
            }
            assert(!(area.start <= TRAMPOLINE_VPN < area.end)) by {
                assert(views[k].framed);
            }
        }
    }
}

/// Whether the pages from `from` on, up to but without `to`, are mapped, and no area but area `k` has
/// frames for them.
fn is_unmappable(ms: &MemorySet, k: usize, from: u64, to: u64, memory: &Memory) -> (r: bool)
    requires
        ms.wf(memory),
        from <= to <= VPN_COUNT,
    ensures
        r == can_unmap(ms, k as int, from as int, to as int, memory),
{
    let mut vpn: u64 = from;
    while vpn < to
        invariant
            ms.wf(memory),
            from <= vpn <= to <= VPN_COUNT,
            forall|v: int|
                from <= v < vpn ==> pte_valid(#[trigger] leaf(memory@, ms.root(), v)),
            forall|j: int, v: int|
                0 <= j < ms.views().len() && j != k && from <= v < vpn
                    ==> !#[trigger] ms.views()[j].frames.dom().contains(v),
        decreases to - vpn,
    {
        let mapped: bool = match ms.translate(VirtPageNum(vpn), memory) {
            Some(pte) => pte.is_valid(),
            None => false,
        };
        assert(mapped == pte_valid(leaf(memory@, ms.root(), vpn as int)));
        if !mapped {
            return false;
        }
        let mut j: usize = 0;
        while j < ms.areas.len()
            invariant
                j <= ms.areas@.len(),
                from <= vpn < to,
                ms.views().len() == ms.areas@.len(),
                forall|i: int|
                    0 <= i < j && i != k ==> !#[trigger] ms.views()[i].frames.dom().contains(
                        vpn as int,
                    ),
            decreases ms.areas@.len() - j,
        {
            assert(ms.views()[j as int] == ms.areas@[j as int]@);
            if j != k && ms.areas[j].has_frame(VirtPageNum(vpn)) {
                return false;
            }
            j += 1;
        }
        vpn += 1;
    }
    true
}

/// Whether none of the pages from `from` on, up to but without `to`, is mapped.
fn is_unmapped(ms: &MemorySet, from: u64, to: u64, memory: &Memory) -> (r: bool)
    requires
        ms.wf(memory),
        from <= to <= VPN_COUNT,
    ensures
        r == forall|v: int|
            from <= v < to ==> !pte_valid(#[trigger] leaf(memory@, ms.root(), v)),
{
    let mut vpn: u64 = from;
    while vpn < to
        invariant
            ms.wf(memory),
            from <= vpn <= to <= VPN_COUNT,
            forall|v: int|
                from <= v < vpn ==> !pte_valid(#[trigger] leaf(memory@, ms.root(), v)),
        decreases to - vpn,
    {
        let mapped: bool = match ms.translate(VirtPageNum(vpn), memory) {
            Some(pte) => pte.is_valid(),
            None => false,
        };
        assert(mapped == pte_valid(leaf(memory@, ms.root(), vpn as int)));
        if mapped {
            return false;
        }
        vpn += 1;
    }
    true
}

/// Frames for the pages come on top of the tables.
proof fn lemma_cost_framed(s: Shape, v: int, end: int)
    requires
        v <= end,
    ensures
        s.cost(true, v, end) == s.cost(false, v, end) + (end - v),
    decreases end - v,
{
    if v < end {
        lemma_cost_framed(s.with_page(v), v + 1, end);
    }
}

/// Whether the end of the heap of a process can be moved by `size` bytes.
pub fn is_brk_movable(inner: &TaskControlBlockInner, size: i32, memory: &Memory) -> (r: bool)
    requires
        inner.memory_set.wf(memory),
    ensures
        r == can_sbrk(inner, size as int, memory),
{
    if inner.heap_bottom > 0x7fff_ffff_ffff_ffff || inner.program_brk > 0x7fff_ffff_7fff_ffff {
        return false;
    }
    let brk: i64 = inner.program_brk as i64 + size as i64;
    let ms: &MemorySet = &inner.memory_set;
    let ghost h = area_at(ms.views(), inner.heap_bottom as int / 4096);
    match ms.find_area(VirtPageNum(inner.heap_bottom / PAGE_SIZE)) {
        Some(k) => {
            let area: &MapArea = &ms.areas[k];
            assert(ms.views()[k as int] == area@);
            assert(area_ok(ms.views()[k as int], &ms.page_table, memory));
            let (start, old_end): (u64, u64) = (area.get_start().0, area.get_end().0);
            if size < 0 && old_end > TRAP_CONTEXT_VPN {
                return false;
            }
            if brk < inner.heap_bottom as i64 {
                return true;
            }
            let end: u64 = (brk as u64 + 4095) / PAGE_SIZE;
            if size < 0 {
                start <= end && end <= old_end && is_unmappable(ms, k, end, old_end, memory)
            } else {
                if end < old_end || end > VPN_COUNT || !is_unmapped(ms, old_end, end, memory) {
                    return false;
                }
                proof {
                    lemma_cost_framed(ms.shape(memory), old_end as int, end as int);
                    memory.lemma_frames();
                }
                let cost: u64 = ms.cost_of(VirtPageNum(old_end), VirtPageNum(end), memory);
                let need: u64 = if area.is_framed() {
                    cost
                } else {
                    cost - (end - old_end)
                };
                need <= memory.available()
            }
        },
        None => true,
    }
}

} // verus!
