//! What the machine sees of an address space: the bits of the page table entries and the bytes behind
//! them.

use vstd::prelude::*;

use super::address::{va_of, PPN_COUNT, VPN_COUNT};
use super::elf::{
    extended, load_end, load_plan, load_plans, loadable, program_plans, segment_of, segment_start,
    segments_of, stack_top, sums_ok, ElfSegment,
};
use super::frame_allocator::Memory;
use super::map_area::{area_ok, frame_ok, lemma_valid_frames, page_of};
use super::memory_set::{mmap_area, pushed, MemorySet, TRAP_CONTEXT_VPN};
use super::page_table::{in_use, leaf, lemma_pte, pte_of, pte_ppn};
use super::plan::{fits_next, pieces_of};
use super::space::{built_but, covered, covers, piece_done_but};
use super::user::user_byte;
use crate::bytes::{u16_at, u32_at, u64_at};

verus! {

/// The entry for an address is the one that the machine finds in three steps: nine bits of the
/// address choose an entry of the root table, the next nine one of the table that it names, the next
/// nine one of the last table. An entry without its lowest bit ends the search.
#[verifier::rlimit(40)]
pub proof fn law_walk_takes_three_steps(mem: Map<int, Seq<u8>>, root: int, va: u64)
    ensures
        leaf(mem, root, va_of(va) / 4096) == ({
            let a = u64_at(mem[root], 8 * (va as int / 0x4000_0000 % 512));
            let b = u64_at(mem[a as int / 1024 % 0x1000_0000_0000], 8 * (va as int / 0x20_0000 % 512));
            let c = u64_at(mem[b as int / 1024 % 0x1000_0000_0000], 8 * (va as int / 4096 % 512));
            if a % 2 == 0 || b % 2 == 0 {
                0u64
            } else {
                c
            }
        }),
{
    assert(va % 0x80_0000_0000 / 4096 / 0x4_0000 == va / 0x4000_0000 % 512) by (bit_vector);
    assert(va % 0x80_0000_0000 / 4096 / 512 % 512 == va / 0x20_0000 % 512) by (bit_vector);
    assert(va % 0x80_0000_0000 / 4096 % 512 == va / 4096 % 512) by (bit_vector);
}

/// A byte of a program lies in the page that the entry names, at the place that the lowest twelve
/// bits of its address say.
pub proof fn law_bytes_lie_behind_entries(mem: Map<int, Seq<u8>>, root: int, va: u64)
    ensures
        user_byte(mem, root, va) == mem[leaf(mem, root, va_of(va) / 4096) as int / 1024
            % 0x1000_0000_0000][va as int % 4096],
{
}

/// The bits of an entry that was made from a page and permissions.
#[verifier::rlimit(40)]
pub proof fn lemma_entry_bits(ppn: int, perm: u8)
    requires
        0 <= ppn < PPN_COUNT,
        perm < 32,
        perm % 2 == 0,
    ensures
        ({
            let e = pte_of(ppn, in_use(perm as int));
            &&& e % 2 == 1
            &&& e / 2 % 2 == perm / 2 % 2
            &&& e / 4 % 2 == perm / 4 % 2
            &&& e / 8 % 2 == perm / 8 % 2
            &&& e / 16 % 2 == perm / 16 % 2
            &&& e / 32 % 32 == 0
            &&& pte_ppn(e) == ppn
        }),
{
    lemma_pte(ppn, in_use(perm as int));
    let p = ppn as u64;
    let f = perm as u64;
    let e = (p * 1024 + f + 1) as u64;
    assert(e == pte_of(ppn, in_use(perm as int)));
    assert(e % 2 == 1 && e / 2 % 2 == f / 2 % 2 && e / 4 % 2 == f / 4 % 2 && e / 8 % 2 == f / 8 % 2
        && e / 16 % 2 == f / 16 % 2 && e / 32 % 32 == 0) by (bit_vector)
        requires
            e == p * 1024 + f + 1,
            p < 0x1000_0000_0000,
            f < 32,
            f % 2 == 0,
    ;
}

/// A page of an area with a frame: its entry has the permissions of the area, and names the frame.
pub proof fn lemma_framed_entry(ms: &MemorySet, memory: &Memory, k: int, v: int)
    requires
        ms.wf(memory),
        0 <= k < ms.views().len(),
        ms.views()[k].frames.dom().contains(v),
        ms.views()[k].perm < 32,
        ms.views()[k].perm % 2 == 0,
    ensures
        ({
            let e = leaf(memory@, ms.root(), v);
            let perm = ms.views()[k].perm;
            &&& e % 2 == 1
            &&& e / 2 % 2 == perm / 2 % 2
            &&& e / 4 % 2 == perm / 4 % 2
            &&& e / 8 % 2 == perm / 8 % 2
            &&& e / 16 % 2 == perm / 16 % 2
            &&& e / 32 % 32 == 0
            &&& pte_ppn(e) == ms.views()[k].frames[v]
        }),
{
    let a = ms.views()[k];
    assert(area_ok(a, &ms.page_table, memory));
    lemma_valid_frames(a, &ms.page_table, memory);
    memory.lemma_wf();
    assert(frame_ok(a, v, &ms.page_table, memory));
    lemma_entry_bits(a.frames[v], a.perm);
}

/// Memory that a program asks for it gets with the permissions that it asks for: every page of the
/// range is mapped and open to programs; it can be read exactly if bit 0 of `prot` is set, written
/// exactly if bit 1 is, executed exactly if bit 2 is. It is a page of its own that was free, and all
/// of its bytes are zero. Every page outside the range is mapped as before.
#[verifier::rlimit(40)]
pub proof fn law_mmap_grants_what_was_asked(
    ms0: &MemorySet,
    ms1: &MemorySet,
    start: u64,
    len: u64,
    prot: u64,
    m0: &Memory,
    m1: &Memory,
)
    requires
        ms1.wf(m1),
        prot < 8,
        pushed(ms0, ms1, mmap_area(start, len, prot), Seq::empty(), m0, m1),
    ensures
        ms1.root() == ms0.root(),
        ({
            let from = start as int % 0x80_0000_0000 / 4096;
            let to = ((start + len) as u64 as int % 0x80_0000_0000 + 4095) / 4096;
            &&& forall|v: int|
                from <= v < to ==> {
                    let e = #[trigger] leaf(m1@, ms0.root(), v);
                    &&& e % 2 == 1
                    &&& e / 2 % 2 == prot % 2
                    &&& e / 4 % 2 == prot / 2 % 2
                    &&& e / 8 % 2 == prot / 4 % 2
                    &&& e / 16 % 2 == 1
                    &&& e / 32 % 32 == 0
                    &&& m0.free().contains(e as int / 1024 % 0x1000_0000_0000)
                    &&& m1@[e as int / 1024 % 0x1000_0000_0000] == Seq::new(4096, |i: int| 0u8)
                }
            &&& forall|v: int, w: int|
                from <= v < w < to ==> #[trigger] leaf(m1@, ms0.root(), v) as int / 1024
                    % 0x1000_0000_0000 != #[trigger] leaf(m1@, ms0.root(), w) as int / 1024
                    % 0x1000_0000_0000
            &&& forall|v: int|
                0 <= v < VPN_COUNT && !(from <= v < to) ==> #[trigger] leaf(m1@, ms0.root(), v)
                    == leaf(m0@, ms0.root(), v)
        }),
{
    let area = mmap_area(start, len, prot);
    let k = ms0.views().len() as int;
    let a = ms1.views()[k];
    assert(area_ok(a, &ms1.page_table, m1));
    assert forall|v: int| area.start <= v < area.end implies {
        let e = #[trigger] leaf(m1@, ms0.root(), v);
        &&& e % 2 == 1
        &&& e / 2 % 2 == prot % 2
        &&& e / 4 % 2 == prot / 2 % 2
        &&& e / 8 % 2 == prot / 4 % 2
        &&& e / 16 % 2 == 1
        &&& e / 32 % 32 == 0
        &&& pte_ppn(e) == a.frames[v]
        &&& m0.free().contains(e as int / 1024 % 0x1000_0000_0000)
        &&& m1@[e as int / 1024 % 0x1000_0000_0000] == Seq::new(4096, |i: int| 0u8)
    } by {
        assert(a.frames.dom().contains(v));
        lemma_framed_entry(ms1, m1, k, v);
        assert(page_of(Seq::empty(), v - area.start) =~= Seq::new(4096, |i: int| 0u8));
    }
    assert forall|v: int, w: int| area.start <= v < w < area.end implies #[trigger] leaf(
        m1@,
        ms0.root(),
        v,
    ) as int / 1024 % 0x1000_0000_0000 != #[trigger] leaf(m1@, ms0.root(), w) as int / 1024
        % 0x1000_0000_0000 by {
        assert(a.frames.dom().contains(v) && a.frames.dom().contains(w));
        assert(pte_ppn(leaf(m1@, ms0.root(), v)) == a.frames[v]);
        assert(pte_ppn(leaf(m1@, ms0.root(), w)) == a.frames[w]);
    }
}

/// A segment that is to be loaded has its area.
proof fn lemma_load_place(segments: Seq<ElfSegment>, n: int, i: int) -> (k: int)
    requires
        0 <= i < n <= segments.len(),
        segments[i].kind is Load,
    ensures
        0 <= k < load_plans(segments, n).len(),
        load_plans(segments, n)[k] == load_plan(segments[i]),
        load_plan(segments[i]).area().end <= load_end(segments, n),
    decreases n,
{
    if i == n - 1 {
        load_plans(segments, n).len() - 1
    } else {
        lemma_load_place(segments, n - 1, i)
    }
}

/// What a program file says of a segment holds in the address space of the program. Program header
/// `i` asks for the addresses from `vaddr` on, `memsz` of them, and names bytes of the file. Every
/// page of these addresses is mapped and open to programs; it can be read, written and executed
/// exactly as bits 2, 1 and 0 of the flags in the header say. The pages hold the bytes of the file,
/// one behind the other from the start of the first page on, and zeros behind them.
#[verifier::rlimit(40)]
pub proof fn law_segments_are_mapped_as_the_file_says(
    ms: &MemorySet,
    file: Seq<u8>,
    frames: int,
    strampoline: u64,
    memory: &Memory,
    i: int,
    v: int,
)
    requires
        loadable(file, frames),
        built_but(
            ms,
            pieces_of(program_plans(segments_of(file)), file),
            strampoline,
            memory,
            TRAP_CONTEXT_VPN as int,
        ),
        0 <= i < u16_at(
            file,
            if file[4] == 2 {
                56
            } else {
                44
            },
        ),
    ensures
        ({
            let wide = file[4] == 2;
            let at = if wide {
                u64_at(file, 32) + i * u16_at(file, 54)
            } else {
                u32_at(file, 28) + i * u16_at(file, 42)
            };
            let flags = u32_at(
                file,
                if wide {
                    at + 4
                } else {
                    at + 24
                },
            );
            let vaddr = if wide {
                u64_at(file, at + 16) as int
            } else {
                u32_at(file, at + 8) as int
            };
            let memsz = if wide {
                u64_at(file, at + 40) as int
            } else {
                u32_at(file, at + 20) as int
            };
            let offset = if wide {
                u64_at(file, at + 8) as int
            } else {
                u32_at(file, at + 4) as int
            };
            let filesz = if wide {
                u64_at(file, at + 32) as int
            } else {
                u32_at(file, at + 16) as int
            };
            let first = vaddr % 0x80_0000_0000 / 4096;
            let end = ((vaddr + memsz) % 0x80_0000_0000 + 4095) / 4096;
            let e = leaf(memory@, ms.root(), v);
            u32_at(file, at) == 1 && first <= v < end ==> {
                &&& e % 2 == 1
                &&& e / 2 % 2 == flags / 4 % 2
                &&& e / 4 % 2 == flags / 2 % 2
                &&& e / 8 % 2 == flags % 2
                &&& e / 16 % 2 == 1
                &&& e / 32 % 32 == 0
                &&& forall|b: int|
                    0 <= b < 4096 ==> #[trigger] memory@[e as int / 1024 % 0x1000_0000_0000][b] == (if 4096
                        * (v - first) + b < filesz {
                        file[offset + 4096 * (v - first) + b]
                    } else {
                        0
                    })
            }
        }),
{
    let s = segment_of(file, i);
    let wide = file[4] == 2;
    let at = if wide {
        u64_at(file, 32) + i * u16_at(file, 54)
    } else {
        u32_at(file, 28) + i * u16_at(file, 42)
    };
    assert(at == segment_start(file, i));
    assert(segments_of(file)[i] == s);
    assert(u32_at(file, at) == 1 <==> s.kind is Load);
    if s.kind is Load {
        assert(sums_ok(segments_of(file)));
        assert(segments_of(file)[i].vaddr + segments_of(file)[i].memsz <= u64::MAX);
        if s.vaddr as int % 0x80_0000_0000 / 4096 <= v < ((s.vaddr + s.memsz) % 0x80_0000_0000
            + 4095) / 4096 {
            lemma_segment_mapped(ms, file, frames, strampoline, memory, i, v);
        }
    }
}

/// The permissions of a segment that is to be loaded.
proof fn lemma_load_perm(s: ElfSegment)
    ensures
        ({
            let perm = load_plan(s).perm;
            &&& perm < 32
            &&& perm % 2 == 0
            &&& (perm / 2 % 2 == 1) == s.readable
            &&& (perm / 4 % 2 == 1) == s.writable
            &&& (perm / 8 % 2 == 1) == s.executable
            &&& perm / 16 % 2 == 1
        }),
{
}

/// The page of a segment that is to be loaded.
#[verifier::rlimit(40)]
pub proof fn lemma_segment_mapped(
    ms: &MemorySet,
    file: Seq<u8>,
    frames: int,
    strampoline: u64,
    memory: &Memory,
    i: int,
    v: int,
)
    requires
        loadable(file, frames),
        built_but(
            ms,
            pieces_of(program_plans(segments_of(file)), file),
            strampoline,
            memory,
            TRAP_CONTEXT_VPN as int,
        ),
        0 <= i < segments_of(file).len(),
        segments_of(file)[i].kind is Load,
        ({
            let area = load_plan(segments_of(file)[i]).area();
            area.start <= v < area.end
        }),
    ensures
        ({
            let s = segments_of(file)[i];
            let area = load_plan(s).area();
            let e = leaf(memory@, ms.root(), v);
            &&& e % 2 == 1
            &&& (e / 2 % 2 == 1) == s.readable
            &&& (e / 4 % 2 == 1) == s.writable
            &&& (e / 8 % 2 == 1) == s.executable
            &&& e / 16 % 2 == 1
            &&& e / 32 % 32 == 0
            &&& forall|b: int|
                0 <= b < 4096 ==> #[trigger] memory@[e as int / 1024 % 0x1000_0000_0000][b] == (if 4096
                    * (v - area.start) + b < s.filesz {
                    file[s.offset + 4096 * (v - area.start) + b]
                } else {
                    0
                })
        }),
{
    let segments = segments_of(file);
    let n = segments.len() as int;
    let plans = program_plans(segments);
    let pieces = pieces_of(plans, file);
    let s = segments[i];
    let area = load_plan(s).area();
    let k = lemma_load_place(segments, n, i);
    assert(plans[k] == load_plan(s));
    assert(fits_next(plans, file, k, frames));
    assert(piece_done_but(ms, pieces, k, memory, TRAP_CONTEXT_VPN as int));
    assert(pieces[k].area == area);
    let a = ms.views()[k];
    assert(a.frames.dom().contains(v));
    lemma_load_perm(s);
    lemma_framed_entry(ms, memory, k, v);
    assert(v != TRAP_CONTEXT_VPN);
    let data = file.subrange(s.offset as int, s.offset + s.filesz);
    assert(memory@[a.frames[v]] == page_of(data, v - area.start));
    assert forall|b: int| 0 <= b < 4096 implies #[trigger] memory@[a.frames[v]][b] == (if 4096 * (v
        - area.start) + b < s.filesz {
        file[s.offset + 4096 * (v - area.start) + b]
    } else {
        0
    }) by {
        assert(page_of(data, v - area.start)[b] == (if 4096 * (v - area.start) + b < data.len() {
            data[4096 * (v - area.start) + b]
        } else {
            0
        }));
    }
}

/// The area that an entry of the plan of a program stands for.
proof fn lemma_planned(
    ms: &MemorySet,
    file: Seq<u8>,
    strampoline: u64,
    memory: &Memory,
    k: int,
)
    requires
        built_but(
            ms,
            pieces_of(program_plans(segments_of(file)), file),
            strampoline,
            memory,
            TRAP_CONTEXT_VPN as int,
        ),
        0 <= k < program_plans(segments_of(file)).len(),
    ensures
        ms.views().len() == program_plans(segments_of(file)).len(),
        ({
            let plan = program_plans(segments_of(file))[k];
            let a = ms.views()[k];
            &&& a.start == plan.area().start
            &&& a.end == plan.area().end
            &&& a.perm == plan.perm
            &&& a.framed == plan.framed
            &&& plan.framed ==> forall|v: int|
                #[trigger] a.frames.dom().contains(v) == (a.start <= v < a.end)
            &&& plan.framed && plan.data is None ==> forall|v: int|
                a.start <= v < a.end && v != TRAP_CONTEXT_VPN ==> memory@[#[trigger] a.frames[v]]
                    == Seq::new(4096, |i: int| 0u8)
        }),
{
    let plans = program_plans(segments_of(file));
    let pieces = pieces_of(plans, file);
    let a = ms.views()[k];
    assert(piece_done_but(ms, pieces, k, memory, TRAP_CONTEXT_VPN as int));
    if plans[k].framed && plans[k].data is None {
        assert forall|v: int|
            a.start <= v < a.end && v != TRAP_CONTEXT_VPN implies memory@[#[trigger] a.frames[v]]
            == Seq::new(4096, |i: int| 0u8) by {
            assert(memory@[a.frames[v]] == page_of(Seq::empty(), v - a.start));
            assert(page_of(Seq::empty(), v - a.start) =~= Seq::new(4096, |i: int| 0u8));
        }
    }
}

/// The 39 bits of an address a little behind one that was extended.
proof fn lemma_behind(va: int, more: int)
    requires
        0 <= va,
        0 <= more,
        va + more < 0x80_0000_0000,
    ensures
        extended(va) + more <= u64::MAX,
        va_of((extended(va) + more) as u64) == va + more,
{
}

/// The stack of a program and what lies around it. `g` is the first page behind all segments of the
/// file. It is not mapped, so that a stack that grows too far is noticed. The two pages behind it are
/// the stack: programs can read and write them, not execute them, and they hold zeros. The page of the
/// saved registers and the trampoline are closed to programs. Nothing else is mapped but the pages
/// of the segments.
#[verifier::rlimit(40)]
pub proof fn law_a_program_has_a_guarded_stack(
    ms: &MemorySet,
    file: Seq<u8>,
    frames: int,
    strampoline: u64,
    memory: &Memory,
) -> (g: int)
    requires
        loadable(file, frames),
        strampoline < 0x100_0000_0000_0000,
        built_but(
            ms,
            pieces_of(program_plans(segments_of(file)), file),
            strampoline,
            memory,
            TRAP_CONTEXT_VPN as int,
        ),
    ensures
        0 <= g,
        g + 3 <= 0x7ff_fffe,
        // where it is
        forall|i: int|
            0 <= i < segments_of(file).len() && (#[trigger] segments_of(file)[i]).kind is Load
                ==> segment_end(segments_of(file)[i]) <= g,
        g > 0 ==> exists|i: int|
            0 <= i < segments_of(file).len() && (#[trigger] segments_of(file)[i]).kind is Load
                && segment_end(segments_of(file)[i]) == g,
        stack_top(segments_of(file)) == (if g < 0x400_0000 {
            4096 * (g + 3)
        } else {
            4096 * (g + 3) + 0xffff_ff80_0000_0000
        }),
        // how it is mapped
        leaf(memory@, ms.root(), g) == 0,
        forall|v: int|
            g < v < g + 3 ==> {
                let e = #[trigger] leaf(memory@, ms.root(), v);
                &&& e % 2 == 1
                &&& e / 2 % 2 == 1
                &&& e / 4 % 2 == 1
                &&& e / 8 % 2 == 0
                &&& e / 16 % 2 == 1
                &&& e / 32 % 32 == 0
                &&& memory@[e as int / 1024 % 0x1000_0000_0000] == Seq::new(4096, |i: int| 0u8)
            },
        // what programs cannot use
        ({
            let e = leaf(memory@, ms.root(), 0x7ff_fffe);
            &&& e % 2 == 1
            &&& e / 2 % 2 == 1
            &&& e / 4 % 2 == 1
            &&& e / 8 % 2 == 0
            &&& e / 16 % 2 == 0
            &&& e / 32 % 32 == 0
        }),
        ({
            let e = leaf(memory@, ms.root(), 0x7ff_ffff);
            &&& e % 2 == 1
            &&& e / 2 % 2 == 1
            &&& e / 4 % 2 == 0
            &&& e / 8 % 2 == 1
            &&& e / 16 % 2 == 0
            &&& e / 32 % 32 == 0
            &&& e as int / 1024 % 0x1000_0000_0000 == strampoline as int / 4096
        }),
        // and no more than that
        forall|v: int|
            0 <= v < 0x7ff_fffe && !(g < v < g + 3) && !in_segment(segments_of(file), v)
                ==> #[trigger] leaf(memory@, ms.root(), v) == 0,
{
    let segments = segments_of(file);
    let n = segments.len() as int;
    let loads = load_plans(segments, n);
    let plans = program_plans(segments);
    let pieces = pieces_of(plans, file);
    let g = load_end(segments, n);
    let root = ms.root();
    let l = loads.len() as int;
    lemma_load_ends(segments, n);
    lemma_behind(4096 * g, 4096);
    lemma_behind(4096 * g, 12288);
    lemma_planned(ms, file, strampoline, memory, l);
    lemma_planned(ms, file, strampoline, memory, l + 1);
    lemma_planned(ms, file, strampoline, memory, l + 2);
    assert(plans.len() == l + 3);
    assert(g + 3 <= TRAP_CONTEXT_VPN) by {
        assert(fits_next(plans, file, l + 2, frames));
        let before = pieces.take(l + 2);
        assert(plans[l + 2].area().start == TRAP_CONTEXT_VPN);
        assert(plans[l + 2].area().end == TRAP_CONTEXT_VPN + 1);
        assert(!covered(before, TRAP_CONTEXT_VPN as int));
        assert(before[l].area == plans[l].area());
        assert(!covers(before[l].area, TRAP_CONTEXT_VPN as int));
    }
    assert forall|v: int| g < v < g + 3 implies {
        let e = #[trigger] leaf(memory@, root, v);
        &&& e % 2 == 1
        &&& e / 2 % 2 == 1
        &&& e / 4 % 2 == 1
        &&& e / 8 % 2 == 0
        &&& e / 16 % 2 == 1
        &&& e / 32 % 32 == 0
        &&& memory@[e as int / 1024 % 0x1000_0000_0000] == Seq::new(4096, |i: int| 0u8)
    } by {
        assert(ms.views()[l].frames.dom().contains(v));
        lemma_framed_entry(ms, memory, l, v);
    }
    assert(ms.views()[l + 2].start == TRAP_CONTEXT_VPN && ms.views()[l + 2].end == TRAP_CONTEXT_VPN
        + 1);
    assert(ms.views()[l + 2].frames.dom().contains(TRAP_CONTEXT_VPN as int));
    lemma_framed_entry(ms, memory, l + 2, TRAP_CONTEXT_VPN as int);
    lemma_entry_bits(strampoline as int / 4096, 10);
    assert forall|v: int|
        0 <= v < 0x7ff_fffe && !(g < v < g + 3) && !in_segment(segments, v) implies #[trigger] leaf(
        memory@,
        root,
        v,
    ) == 0 by {
        assert forall|k: int| 0 <= k < pieces.len() implies !covers((#[trigger] pieces[k]).area, v) by {
            lemma_planned(ms, file, strampoline, memory, k);
            assert(pieces[k].area == plans[k].area());
            if k < l {
                assert(plans[k] == loads[k]);
                let i = lemma_load_source(segments, n, k);
                assert(segments[i].vaddr + segments[i].memsz <= u64::MAX);
            }
        }
        assert(!covered(pieces, v));
    }
    assert(!in_segment(segments, g)) by {
        assert forall|i: int|
            0 <= i < segments.len() && (#[trigger] segments[i]).kind is Load implies segment_end(
            segments[i],
        ) <= g by {}
    }
    g
}

/// The top of the stack is an address.
pub proof fn lemma_stack_top(segments: Seq<ElfSegment>)
    requires
        sums_ok(segments),
    ensures
        0 <= stack_top(segments) <= u64::MAX,
{
    lemma_load_ends(segments, segments.len() as int);
    lemma_behind(4096 * load_end(segments, segments.len() as int), 12288);
}

/// The first page behind a segment.
pub open spec fn segment_end(s: ElfSegment) -> int {
    ((s.vaddr + s.memsz) % 0x80_0000_0000 + 4095) / 4096
}

/// Page `v` belongs to a segment that is to be loaded.
pub open spec fn in_segment(segments: Seq<ElfSegment>, v: int) -> bool {
    exists|i: int|
        0 <= i < segments.len() && (#[trigger] segments[i]).kind is Load && segments[i].vaddr as int
            % 0x80_0000_0000 / 4096 <= v < segment_end(segments[i])
}

/// The segment that an area was made for.
proof fn lemma_load_source(segments: Seq<ElfSegment>, n: int, k: int) -> (i: int)
    requires
        0 <= n <= segments.len(),
        0 <= k < load_plans(segments, n).len(),
    ensures
        0 <= i < n,
        segments[i].kind is Load,
        load_plans(segments, n)[k] == load_plan(segments[i]),
    decreases n,
{
    if n <= 0 {
        0
    } else if segments[n - 1].kind is Load && k == load_plans(segments, n).len() - 1 {
        n - 1
    } else {
        lemma_load_source(segments, n - 1, k)
    }
}

/// The page behind all segments is the largest of their ends.
proof fn lemma_load_ends(segments: Seq<ElfSegment>, n: int)
    requires
        0 <= n <= segments.len(),
        sums_ok(segments),
    ensures
        load_end(segments, n) >= 0,
        forall|i: int|
            0 <= i < n && (#[trigger] segments[i]).kind is Load ==> segment_end(segments[i])
                <= load_end(segments, n),
        load_end(segments, n) > 0 ==> exists|i: int|
            0 <= i < n && (#[trigger] segments[i]).kind is Load && segment_end(segments[i])
                == load_end(segments, n),
    decreases n,
{
    if n > 0 {
        lemma_load_ends(segments, n - 1);
        let s = segments[n - 1];
        if s.kind is Load {
            assert(segments[n - 1].vaddr + segments[n - 1].memsz <= u64::MAX);
            assert(load_plan(s).area().end == segment_end(s));
        }
    }
}

} // verus!
