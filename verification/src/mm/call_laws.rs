//! What calls on memory and page tables mean for the machine.

use vstd::prelude::*;

use super::address::{PhysAddr, PhysPageNum, VirtAddr, VirtPageNum};
use super::elf::{segments_of, stack_top};
use super::frame_allocator::{word_at, FrameTracker, Memory};
use super::kernel_space::{
    in_part, kernel_plans, law_kernel_parts_protected, middle_page, remap_test, KernelLayout,
};
use super::laws::{lemma_entry_bits, segment_end};
use super::memory_set::MemorySet;
use super::page_table::{leaf, lemma_pte, PTEFlags, PageTable, PageTableEntry};
use super::plan::pieces_of;
use super::space::piece_done;
use super::user::{is_text, root_of, translated_str, user_byte};
use crate::bytes::{u32_at, u64_at};

verus! {

/// An address lies in the page that is its floor, at its offset; its ceiling is the first page that
/// starts at or behind it.
pub proof fn law_addresses_and_pages(
    v: u64,
    a: VirtAddr,
    floor: VirtPageNum,
    ceil: VirtPageNum,
    offset: u64,
)
    requires
        call_ensures(VirtAddr::new, (v,), a),
        call_ensures(VirtAddr::floor, (&a,), floor),
        call_ensures(VirtAddr::ceil, (&a,), ceil),
        call_ensures(VirtAddr::page_offset, (&a,), offset),
    ensures
        a.0 < 0x80_0000_0000,
        (v - a.0) % 0x80_0000_0000 == 0,
        offset < 4096,
        floor.0 * 4096 + offset == a.0,
        ceil.0 * 4096 >= a.0,
        ceil.0 * 4096 < a.0 + 4096,
{
}

/// An address as the machine has it: the upper half of the 39-bit space lies at the end of the 64-bit
/// space, the lower half at its beginning.
pub proof fn law_addresses_are_extended(a: VirtAddr, r: u64)
    requires
        call_ensures(VirtAddr::value, (&a,), r),
        a.0 < 0x80_0000_0000,
    ensures
        a.0 < 0x40_0000_0000 ==> r == a.0,
        a.0 >= 0x40_0000_0000 ==> r == a.0 + 0xffff_ff80_0000_0000,
{
}

/// An entry is made of a page number, from bit 10 on, and eight bits that say what can be done with
/// the page: bit 0 that it is in use, bits 1, 2 and 3 that it can be read, written and executed.
pub proof fn law_entries_hold_pages_and_bits(
    ppn: PhysPageNum,
    flags: PTEFlags,
    e: PageTableEntry,
    p: PhysPageNum,
    valid: bool,
    readable: bool,
    writable: bool,
    executable: bool,
)
    requires
        ppn.0 < 0x1000_0000_0000,
        call_ensures(PageTableEntry::new, (ppn, flags), e),
        call_ensures(PageTableEntry::ppn, (&e,), p),
        call_ensures(PageTableEntry::is_valid, (&e,), valid),
        call_ensures(PageTableEntry::readable, (&e,), readable),
        call_ensures(PageTableEntry::writable, (&e,), writable),
        call_ensures(PageTableEntry::executable, (&e,), executable),
    ensures
        e.bits == ppn.0 * 1024 + flags.bits,
        p == ppn,
        valid == (flags.bits % 2 == 1),
        readable == (flags.bits / 2 % 2 == 1),
        writable == (flags.bits / 4 % 2 == 1),
        executable == (flags.bits / 8 % 2 == 1),
{
    lemma_pte(ppn.0 as int, flags.bits as int);
}

/// A page that was mapped is found where it was mapped to, with the bits that it was given and the one
/// that says that it is in use. All other pages are found where they were. When it is unmapped, it is
/// not found.
pub proof fn law_mapped_page_is_found(
    t0: PageTable,
    t1: PageTable,
    t2: PageTable,
    m0: Memory,
    m1: Memory,
    m2: Memory,
    vpn: VirtPageNum,
    ppn: PhysPageNum,
    flags: PTEFlags,
    other: VirtPageNum,
    found: Option<PageTableEntry>,
    found_other: Option<PageTableEntry>,
    gone: Option<PageTableEntry>,
)
    requires
        exists|t: &mut PageTable, m: &mut Memory| #[trigger]
            call_ensures(PageTable::map, (t, vpn, ppn, flags, m), ()) && *t == t0 && *final(t) == t1
                && *m == m0 && *final(m) == m1,
        exists|t: &mut PageTable, m: &mut Memory| #[trigger]
            call_ensures(PageTable::unmap, (t, vpn, m), ()) && *t == t1 && *final(t) == t2 && *m == m1
                && *final(m) == m2,
        call_ensures(PageTable::translate, (&t1, vpn, &m1), found),
        call_ensures(PageTable::translate, (&t1, other, &m1), found_other),
        call_ensures(PageTable::translate, (&t2, vpn, &m2), gone),
        vpn.0 < 0x800_0000,
        other.0 < 0x800_0000,
        other != vpn,
        ppn.0 < 0x1000_0000_0000,
        flags.bits % 2 == 0,
    ensures
        found matches Some(e) && e.bits == ppn.0 * 1024 + flags.bits + 1,
        found_other matches Some(e) ==> e.bits == leaf(m0@, t0.root(), other.0 as int),
        gone matches Some(e) ==> e.bits == 0,
{
    lemma_pte(ppn.0 as int, flags.bits + 1);
    assert(leaf(m1@, t0.root(), vpn.0 as int) == ppn.0 * 1024 + flags.bits + 1);
    assert(leaf(m1@, t0.root(), other.0 as int) == leaf(m0@, t0.root(), other.0 as int));
}

/// A frame that is handed out was free and holds zeros, and it is not handed out again before it is
/// given back. One that was given back is the next to be handed out. If none is handed out, none was
/// free.
pub proof fn law_frames_are_handed_out_once(
    m0: Memory,
    m1: Memory,
    m2: Memory,
    a: Option<FrameTracker>,
    b: Option<FrameTracker>,
)
    requires
        exists|m: &mut Memory| #[trigger]
            call_ensures(Memory::frame_alloc, (m,), a) && *m == m0 && *final(m) == m1,
        exists|m: &mut Memory| #[trigger]
            call_ensures(Memory::frame_alloc, (m,), b) && *m == m1 && *final(m) == m2,
    ensures
        a is None ==> m0.free() == Set::<int>::empty() && b is None,
        a matches Some(x) ==> {
            &&& m0.free().contains(x.ppn.0 as int)
            &&& !m1.free().contains(x.ppn.0 as int)
            &&& m1@[x.ppn.0 as int] == Seq::new(4096, |i: int| 0u8)
            &&& forall|q: int| q != x.ppn.0 ==> #[trigger] m1@[q] == m0@[q]
            &&& forall|q: int|
                q != x.ppn.0 ==> #[trigger] m1.free().contains(q) == m0.free().contains(q)
        },
        a matches Some(x) ==> b matches Some(y) ==> x.ppn.0 != y.ppn.0 && m0.free().contains(
            y.ppn.0 as int,
        ),
{
    if let Some(x) = a {
        assert(m1@[x.ppn.0 as int] =~= Seq::new(4096, |i: int| 0u8));
    }
}

/// A frame that was given back is free, its bytes are untouched, and it is the next to be handed out.
pub proof fn law_returned_frame_comes_next(
    m0: Memory,
    m1: Memory,
    m2: Memory,
    ppn: PhysPageNum,
    r: Option<FrameTracker>,
)
    requires
        exists|m: &mut Memory| #[trigger]
            call_ensures(Memory::frame_dealloc, (m, ppn), ()) && *m == m0 && *final(m) == m1,
        exists|m: &mut Memory| #[trigger]
            call_ensures(Memory::frame_alloc, (m,), r) && *m == m1 && *final(m) == m2,
    ensures
        m1.free().contains(ppn.0 as int),
        m1@ == m0@,
        r matches Some(x) && x.ppn == ppn,
{
    assert(m1.free().contains(ppn.0 as int));
}

/// The kernel sees every page of its parts at its own number. Its code can be read and executed, its
/// constants can only be read, its data, its stack, all memory behind it and the registers of the
/// devices can be read and written; programs can use none of it. The trampoline can be read and
/// executed.
#[verifier::rlimit(40)]
pub proof fn law_new_kernel(
    layout: &KernelLayout,
    m0: Memory,
    m1: Memory,
    ms: MemorySet,
    k: int,
    v: int,
)
    requires
        exists|m: &mut Memory| #[trigger]
            call_ensures(MemorySet::new_kernel, (layout, m), ms) && *m == m0 && *final(m) == m1,
        0 <= k < 5 + layout.mmio@.len(),
        layout.strampoline < 0x100_0000_0000_0000,
        k >= 5 ==> layout.mmio@[k - 5].0 + layout.mmio@[k - 5].1 <= u64::MAX,
    ensures
        ({
            let (start, end) = if k == 0 {
                (layout.stext as int, layout.etext as int)
            } else if k == 1 {
                (layout.srodata as int, layout.erodata as int)
            } else if k == 2 {
                (layout.sdata as int, layout.edata as int)
            } else if k == 3 {
                (layout.sbss_with_stack as int, layout.ebss as int)
            } else if k == 4 {
                (layout.ekernel as int, layout.memory_end as int)
            } else {
                (
                    layout.mmio@[k - 5].0 as int,
                    layout.mmio@[k - 5].0 + layout.mmio@[k - 5].1,
                )
            };
            let e = leaf(m1@, ms.root(), v);
            start % 0x80_0000_0000 / 4096 <= v < (end % 0x80_0000_0000 + 4095) / 4096 ==> {
                &&& e as int / 1024 % 0x1000_0000_0000 == v
                &&& e % 2 == 1
                &&& e / 2 % 2 == 1
                &&& (e / 4 % 2 == 1) == (k >= 2)
                &&& (e / 8 % 2 == 1) == (k == 0)
                &&& e / 16 % 2 == 0
                &&& e / 32 % 32 == 0
            }
        }),
        ({
            let e = leaf(m1@, ms.root(), 0x7ff_ffff);
            &&& e as int / 1024 % 0x1000_0000_0000 == layout.strampoline as int / 4096
            &&& e % 2 == 1
            &&& e / 2 % 2 == 1
            &&& e / 4 % 2 == 0
            &&& e / 8 % 2 == 1
            &&& e / 16 % 2 == 0
        }),
{
    let plans = kernel_plans(layout);
    let pieces = pieces_of(plans, Seq::empty());
    assert(piece_done(&ms, pieces, k, &m1));
    let a = plans[k].area();
    assert(pieces[k].area == a);
    lemma_entry_bits(layout.strampoline as int / 4096, 10);
    if a.start <= v < a.end {
        lemma_entry_bits(v, a.perm);
    }
}

/// The address space that is made of a program file: every page that a header asks for is mapped and
/// open to programs, and can be read, written and executed as the header says. The program starts
/// where the file says.
pub proof fn law_from_elf(
    elf_data: &[u8],
    strampoline: u64,
    m0: Memory,
    m1: Memory,
    r: (MemorySet, u64, u64),
    i: int,
    v: int,
)
    requires
        exists|m: &mut Memory| #[trigger]
            call_ensures(MemorySet::from_elf, (elf_data, strampoline, m), r) && *m == m0 && *final(m)
                == m1,
        0 <= i < segments_of(elf_data@).len(),
        segments_of(elf_data@)[i].kind is Load,
        segments_of(elf_data@)[i].vaddr as int % 0x80_0000_0000 / 4096 <= v < segment_end(
            segments_of(elf_data@)[i],
        ),
    ensures
        ({
            let s = segments_of(elf_data@)[i];
            let e = leaf(m1@, r.0.root(), v);
            &&& e % 2 == 1
            &&& (e / 2 % 2 == 1) == s.readable
            &&& (e / 4 % 2 == 1) == s.writable
            &&& (e / 8 % 2 == 1) == s.executable
            &&& e / 16 % 2 == 1
        }),
        r.1 == stack_top(segments_of(elf_data@)),
        r.2 == (if elf_data@[4] == 2 {
            u64_at(elf_data@, 24)
        } else {
            u32_at(elf_data@, 24) as u64
        }),
{
    assert(segments_of(elf_data@)[i] == segments_of(elf_data@)[i]);
}

/// The frames that can be handed out are the pages that lie wholly between the end of the kernel and
/// the end of memory.
pub proof fn law_free_frames(m0: Memory, m1: Memory, ekernel: u64, memory_end: u64, p: int)
    requires
        exists|m: &mut Memory| #[trigger]
            call_ensures(Memory::init_frame_allocator, (m, ekernel, memory_end), ()) && *m == m0
                && *final(m) == m1,
        ekernel < 0x100_0000_0000_0000,
        memory_end < 0x100_0000_0000_0000,
    ensures
        m1.free().contains(p) <==> 4096 * p >= ekernel && 4096 * (p + 1) <= memory_end,
        m1@ == m0@,
{
}

/// The text of a program ends at its first zero: there is a character for each byte before it.
pub proof fn law_translated_str(token: u64, ptr: u64, memory: Memory, n: int, r: String)
    requires
        call_ensures(translated_str, (token, ptr, &memory), r),
        is_text(memory@, root_of(token), ptr, n),
    ensures
        r@.len() == n,
        forall|k: int|
            0 <= k < n ==> #[trigger] r@[k] == user_byte(
                memory@,
                token as int % 0x1000_0000_0000,
                (ptr + k) as u64,
            ) as char,
        forall|k: int|
            0 <= k < n ==> user_byte(
                memory@,
                token as int % 0x1000_0000_0000,
                #[trigger] ((ptr + k) as u64),
            ) != 0,
        user_byte(memory@, token as int % 0x1000_0000_0000, (ptr + n) as u64) == 0,
{
    let root = root_of(token);
    let m = choose|m: int| is_text(memory@, root, ptr, m);
    assert(is_text(memory@, root, ptr, m));
    if m < n {
        assert(user_byte(memory@, root, (ptr + m) as u64) != 0);
    } else if n < m {
        assert(user_byte(memory@, root, (ptr + n) as u64) != 0);
    }
}

/// A number that was put to a place of a page is read there, and numbers at other places and other
/// pages are as before.
pub proof fn law_word_comes_back(
    m0: Memory,
    m1: Memory,
    ppn: PhysPageNum,
    i: usize,
    value: u64,
    other: PhysPageNum,
    j: usize,
    r: u64,
)
    requires
        exists|m: &mut Memory| #[trigger]
            call_ensures(Memory::write_word, (m, ppn, i, value), ()) && *m == m0 && *final(m) == m1,
        call_ensures(Memory::read_word, (&m1, other, j), r),
        i < 512,
        j < 512,
    ensures
        r == (if other == ppn && j == i {
            value
        } else {
            u64_at(m0@[other.0 as int], 8 * j as int)
        }),
        m1.free() == m0.free(),
{
    if other == ppn && j != i {
        assert(word_at(m1@, ppn.0 as int, j as int) == word_at(m0@, ppn.0 as int, j as int));
    }
}

/// The address space of the kernel passes its test: where the pages in the middle of the code, the
/// constants and the data belong to these parts, neither of the first two can be written and the
/// third cannot be executed.
pub proof fn law_remap_test(layout: &KernelLayout, m0: Memory, m1: Memory, ms: MemorySet, r: bool)
    requires
        exists|m: &mut Memory| #[trigger]
            call_ensures(MemorySet::new_kernel, (layout, m), ms) && *m == m0 && *final(m) == m1,
        call_ensures(remap_test, (&ms, layout, &m1), r),
        layout.strampoline < 0x100_0000_0000_0000,
        in_part(layout.stext, layout.etext, middle_page(layout.stext, layout.etext)),
        in_part(layout.srodata, layout.erodata, middle_page(layout.srodata, layout.erodata)),
        in_part(layout.sdata, layout.edata, middle_page(layout.sdata, layout.edata)),
    ensures
        r,
{
    law_kernel_parts_protected(&ms, layout, &m0, &m1);
}

/// A physical address is that of the page which the entry names, and the lowest twelve bits of the
/// virtual one.
pub proof fn law_translate_va(t: PageTable, va: VirtAddr, memory: Memory, r: Option<PhysAddr>)
    requires
        call_ensures(PageTable::translate_va, (&t, va, &memory), r),
    ensures
        r matches Some(pa) ==> {
            let e = leaf(memory@, t.root(), va.0 as int / 4096);
            pa.0 == e as int / 1024 % 0x1000_0000_0000 * 4096 + va.0 as int % 4096
        },
{
}

} // verus!
