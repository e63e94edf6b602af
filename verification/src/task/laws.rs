//! What processes start with.

use vstd::prelude::*;

use super::id::{kernel_stack_position, KernelStack, RecycleAllocator};
use super::shared::Shared;
use super::task::{context_at, runs_file, TaskControlBlockInner};
use crate::bytes::{u32_at, u64_at};
use crate::mm::address::VPN_COUNT;
use crate::mm::elf::{loadable, segments_of};
use crate::mm::frame_allocator::word_at;
use crate::mm::laws::{law_a_program_has_a_guarded_stack, lemma_framed_entry, segment_end};
use crate::mm::map_area::{area_ok, lemma_valid_frames, page_of};
use crate::mm::memory_set::TRAP_CONTEXT_VPN;
use crate::mm::page_table::leaf;

verus! {

/// The registers with which a program starts. It starts where its file says, with its stack pointer
/// at the end of its stack, three pages behind the first page `g` that no segment reaches. The other
/// registers are zero. The status register has bit 8 clear, so that the return from the kernel leads
/// to a program. The way back into the kernel finds the page table of the kernel, the kernel stack of
/// the process and the code that handles the entry. The registers lie in the page that the highest
/// page but one is mapped to.
#[verifier::rlimit(40)]
pub proof fn law_program_starts_where_the_file_says(
    inner: &TaskControlBlockInner,
    file: Seq<u8>,
    frames: int,
    kstack: int,
    s: &Shared,
) -> (g: int)
    requires
        runs_file(inner, file, kstack, s),
        loadable(file, frames),
        s.entry.strampoline < 0x100_0000_0000_0000,
        0 <= 0x8000_0000_0000_0000 + s.kernel_space.root() <= u64::MAX,
        0 <= 0xffff_ffff_ffff_f000 - kstack * 12288 <= u64::MAX,
    ensures
        forall|i: int|
            0 <= i < segments_of(file).len() && (#[trigger] segments_of(file)[i]).kind is Load
                ==> segment_end(segments_of(file)[i]) <= g,
        g > 0 ==> exists|i: int|
            0 <= i < segments_of(file).len() && (#[trigger] segments_of(file)[i]).kind is Load
                && segment_end(segments_of(file)[i]) == g,
        leaf(s.memory@, inner.memory_set.root(), g) == 0,
        ({
            let page = inner.trap_cx_ppn.0 as int;
            &&& word_at(s.memory@, page, 33) == (if file[4] == 2 {
                u64_at(file, 24)
            } else {
                u32_at(file, 24) as u64
            })
            &&& word_at(s.memory@, page, 2) == (if g < 0x400_0000 {
                4096 * (g + 3)
            } else {
                4096 * (g + 3) + 0xffff_ff80_0000_0000
            })
            &&& forall|i: int|
                0 <= i < 32 && i != 2 ==> #[trigger] word_at(s.memory@, page, i) == 0
            &&& word_at(s.memory@, page, 32) / 256 % 2 == 0
            &&& word_at(s.memory@, page, 34) == 0x8000_0000_0000_0000 + s.kernel_space.root()
            &&& word_at(s.memory@, page, 35) == 0xffff_ffff_ffff_f000 - kstack * 12288
            &&& word_at(s.memory@, page, 36) == s.entry.trap_handler
            &&& leaf(s.memory@, inner.memory_set.root(), 0x7ff_fffe) as int / 1024
                % 0x1000_0000_0000 == page
        }),
{
    let ms = inner.memory_set;
    let page = inner.trap_cx_ppn.0 as int;
    let g = law_a_program_has_a_guarded_stack(
        &ms,
        file,
        frames,
        s.entry.strampoline,
        &s.memory,
    );
    let words = context_at(s.memory@, page);
    assert(words[33] == word_at(s.memory@, page, 33));
    assert(words[2] == word_at(s.memory@, page, 2));
    assert forall|i: int| 0 <= i < 32 && i != 2 implies #[trigger] word_at(s.memory@, page, i) == 0 by {
        assert(words[i] == word_at(s.memory@, page, i));
    }
    assert(words[32] == word_at(s.memory@, page, 32));
    assert(words[34] == word_at(s.memory@, page, 34));
    assert(words[35] == word_at(s.memory@, page, 35));
    assert(words[36] == word_at(s.memory@, page, 36));
    let status = s.entry.sstatus;
    assert((status & 0x8000_0003_000d_e662u64) / 256 % 2 == 0) by (bit_vector);
    let v = TRAP_CONTEXT_VPN as int;
    let k = choose|k: int|
        0 <= k < ms.views().len() && (#[trigger] ms.views()[k]).frames.dom().contains(v)
            && ms.views()[k].frames[v] == page;
    assert(area_ok(ms.views()[k], &ms.page_table, &s.memory));
    lemma_valid_frames(ms.views()[k], &ms.page_table, &s.memory);
    g
}

/// A number that is handed out is not in use, and is in use then; of those that came back it is the one
/// that came back last, and otherwise the smallest that was never handed out. Two numbers that are
/// handed out one after the other differ.
pub proof fn law_numbers_are_handed_out_once(
    a0: RecycleAllocator,
    a1: RecycleAllocator,
    a2: RecycleAllocator,
    x: usize,
    y: usize,
)
    requires
        exists|a: &mut RecycleAllocator| #[trigger]
            call_ensures(RecycleAllocator::allocate, (a,), x) && *a == a0 && *final(a) == a1,
        exists|a: &mut RecycleAllocator| #[trigger]
            call_ensures(RecycleAllocator::allocate, (a,), y) && *a == a1 && *final(a) == a2,
    ensures
        x != y,
        !a0.in_use(x as int),
        a1.in_use(x as int),
        a2.in_use(x as int) && a2.in_use(y as int),
        forall|i: int| i != x ==> #[trigger] a1.in_use(i) == a0.in_use(i),
        a0.returned().len() > 0 ==> x == a0.returned().last(),
        a0.returned().len() == 0 ==> x == a0.next() && forall|i: int|
            0 <= i < x ==> #[trigger] a0.in_use(i),
{
    if a0.returned().len() == 0 {
        assert forall|i: int| 0 <= i < x implies #[trigger] a0.in_use(i) by {}
    }
}

/// A number that comes back is the next to be handed out.
pub proof fn law_returned_number_comes_next(
    a0: RecycleAllocator,
    a1: RecycleAllocator,
    a2: RecycleAllocator,
    x: usize,
    y: usize,
)
    requires
        exists|a: &mut RecycleAllocator| #[trigger]
            call_ensures(RecycleAllocator::dealloc, (a, x), ()) && *a == a0 && *final(a) == a1,
        exists|a: &mut RecycleAllocator| #[trigger]
            call_ensures(RecycleAllocator::allocate, (a,), y) && *a == a1 && *final(a) == a2,
    ensures
        !a1.in_use(x as int),
        y == x,
        forall|i: int| #[trigger] a2.in_use(i) == (i == x || a0.in_use(i)),
{
    assert(a1.returned().last() == x);
}

/// Kernel stacks have two pages each and lie below the trampoline, with one page between any two of
/// them.
pub proof fn law_where_kernel_stacks_lie(id: usize, r: (u64, u64), stack: KernelStack, top: u64)
    requires
        call_ensures(kernel_stack_position, (id,), r),
        call_ensures(KernelStack::get_top, (&stack,), top),
        stack.0 == id,
    ensures
        r.1 == 0xffff_ffff_ffff_f000 - id * 12288,
        r.1 - r.0 == 8192,
        top == r.1,
{
}

/// A kernel stack that is handed out: its two pages are mapped and hold zeros; the kernel can read and
/// write them, and cannot execute them; programs cannot use them. All other pages of the kernel are
/// mapped as before.
#[verifier::rlimit(40)]
pub proof fn law_kernel_stack_is_mapped(s0: Shared, s1: Shared, stack: KernelStack)
    requires
        exists|s: &mut Shared| #[trigger]
            call_ensures(Shared::kstack_alloc, (s,), stack) && *s == s0 && *final(s) == s1,
        s0.wf(),
    ensures
        ({
            let first = 0x7ff_ffff - 3 * stack.0 - 2;
            let root = s1.kernel_space.root();
            &&& root == s0.kernel_space.root()
            &&& forall|v: int|
                first <= v < first + 2 ==> {
                    let e = #[trigger] leaf(s1.memory@, root, v);
                    &&& e % 2 == 1
                    &&& e / 2 % 2 == 1
                    &&& e / 4 % 2 == 1
                    &&& e / 8 % 2 == 0
                    &&& e / 16 % 2 == 0
                    &&& e / 32 % 32 == 0
                    &&& s1.memory@[e as int / 1024 % 0x1000_0000_0000] == Seq::new(4096, |i: int| 0u8)
                }
            &&& forall|v: int|
                0 <= v < VPN_COUNT && !(first <= v < first + 2) ==> #[trigger] leaf(
                    s1.memory@,
                    root,
                    v,
                ) == leaf(s0.memory@, root, v)
        }),
{
    let ms0 = s0.kernel_space;
    let ms1 = s1.kernel_space;
    let k = ms0.views().len() as int;
    let first = 0x7ff_ffff - 3 * stack.0 - 2;
    let a = ms1.views()[k];
    assert forall|v: int| first <= v < first + 2 implies {
        let e = #[trigger] leaf(s1.memory@, ms1.root(), v);
        &&& e % 2 == 1
        &&& e / 2 % 2 == 1
        &&& e / 4 % 2 == 1
        &&& e / 8 % 2 == 0
        &&& e / 16 % 2 == 0
        &&& e / 32 % 32 == 0
        &&& s1.memory@[e as int / 1024 % 0x1000_0000_0000] == Seq::new(4096, |i: int| 0u8)
    } by {
        assert(a.frames.dom().contains(v));
        lemma_framed_entry(&ms1, &s1.memory, k, v);
        assert(s1.memory@[a.frames[v]] == page_of(Seq::empty(), v - a.start));
        assert(page_of(Seq::empty(), v - a.start) =~= Seq::new(4096, |i: int| 0u8));
    }
}

} // verus!
