//! What all processes share: memory, the address space of the kernel, the numbers.

use vstd::arithmetic::div_mod::lemma_fundamental_div_mod_converse;
use vstd::prelude::*;

use super::id::{kernel_stack_position, stack_fits, KernelStack, PidHandle, RecycleAllocator};
use crate::mm::address::{VirtAddr, VirtPageNum, TRAMPOLINE, VPN_COUNT};
use crate::mm::frame_allocator::Memory;
use crate::mm::map_area::{area_ok, lemma_valid_frames, pages, AreaView, MapPermission};
use crate::mm::memory_set::{
    appended, area_at, can_unmap, lemma_area_at, lost_pages, pushed, MemorySet, TRAMPOLINE_VPN,
};
use crate::mm::page_table::{leaf, pte_valid};
use crate::mm::space::{built, Piece};
use crate::mm::stray::{areas_only, lemma_areas_only_kept};

verus! {

/// The addresses and the register value that a process needs to get into the kernel and out of it.
#[derive(Copy, Clone, Debug)]
pub struct Entry {
    /// The physical address of the code that enters and leaves the kernel.
    pub strampoline: u64,
    /// Where the kernel handles the entry.
    pub trap_handler: u64,
    /// Where the kernel returns to the program.
    pub trap_return: u64,
    /// What the status register holds.
    pub sstatus: u64,
}

/// Memory, the address space of the kernel, and the numbers of processes and kernel stacks.
pub struct Shared {
    pub memory: Memory,
    pub kernel_space: MemorySet,
    pub pids: RecycleAllocator,
    pub kstacks: RecycleAllocator,
    pub entry: Entry,
}

/// Between two states of memory only the pages of one owner and free pages have changed, and no page
/// was lost: what is not free any more is owned, what is not owned any more is free.
pub open spec fn only(m: &Memory, m2: &Memory, owned: Set<int>, owned2: Set<int>) -> bool {
    &&& m2.wf()
    &&& m2.limit() == m.limit()
    &&& m2@.dom() == m@.dom()
    &&& m2.free().union(owned2) == m.free().union(owned)
    &&& forall|p: int|
        !owned.contains(p) && !m.free().contains(p) ==> #[trigger] m2@[p] == m@[p]
}

/// One change after the other.
pub proof fn lemma_only_then(
    m0: &Memory,
    m1: &Memory,
    m2: &Memory,
    a0: Set<int>,
    a1: Set<int>,
    b1: Set<int>,
    b2: Set<int>,
)
    requires
        only(m0, m1, a0, a1),
        only(m1, m2, b1, b2),
    ensures
        only(m0, m2, a0.union(b1), a1.union(b2)),
{
    assert forall|p: int| #[trigger] m2.free().union(a1.union(b2)).contains(p) == m0.free().union(
        a0.union(b1),
    ).contains(p) by {
        assert(m0.free().union(a0).contains(p) == m1.free().union(a1).contains(p));
        assert(m1.free().union(b1).contains(p) == m2.free().union(b2).contains(p));
    }
    assert(m2.free().union(a1.union(b2)) =~= m0.free().union(a0.union(b1)));
    assert forall|p: int|
        !a0.union(b1).contains(p) && !m0.free().contains(p) implies #[trigger] m2@[p] == m0@[p] by {
        assert(!m0.free().union(a0).contains(p));
        assert(!m1.free().union(a1).contains(p));
        assert(m1@[p] == m0@[p]);
    }
}

/// One change after the other of the same owner.
pub proof fn lemma_only_again(
    m0: &Memory,
    m1: &Memory,
    m2: &Memory,
    a0: Set<int>,
    a1: Set<int>,
    a2: Set<int>,
)
    requires
        only(m0, m1, a0, a1),
        only(m1, m2, a1, a2),
    ensures
        only(m0, m2, a0, a2),
{
    assert(m2.free().union(a2) =~= m0.free().union(a0));
    assert forall|p: int| !a0.contains(p) && !m0.free().contains(p) implies #[trigger] m2@[p]
        == m0@[p] by {
        assert(!m0.free().union(a0).contains(p));
        assert(!m1.free().union(a1).contains(p));
        assert(m1@[p] == m0@[p]);
    }
}

/// An address space that is apart from what changed is as before, and apart from what it became.
pub proof fn lemma_bystander(
    ms: &MemorySet,
    m: &Memory,
    m2: &Memory,
    owned: Set<int>,
    owned2: Set<int>,
)
    requires
        ms.wf(m),
        only(m, m2, owned, owned2),
        ms.owned().disjoint(owned),
    ensures
        ms.wf(m2),
        ms.owned().disjoint(owned2),
        ms.shape(m2) == ms.shape(m),
        forall|v: int|
            0 <= v < VPN_COUNT ==> #[trigger] leaf(m2@, ms.root(), v) == leaf(m@, ms.root(), v),
        forall|p: int| #[trigger] ms.owned().contains(p) ==> m2@[p] == m@[p],
        areas_only(ms, m) ==> areas_only(ms, m2),
{
    ms.lemma_wf(m);
    assert forall|p: int| #[trigger] ms.owned().contains(p) implies !m2.free().contains(p)
        && !owned2.contains(p) && m2@[p] == m@[p] by {
        assert(!m.free().union(owned).contains(p));
        assert(!m2.free().union(owned2).contains(p));
    }
    ms.lemma_same_space(m, m2);
    if areas_only(ms, m) {
        lemma_areas_only_kept(ms, m, m2);
    }
}

/// The page where kernel stack `id` starts.
pub open spec fn stack_page(id: int) -> int {
    TRAMPOLINE_VPN - 3 * id - 2
}

/// An area of the kernel is kernel stack `id`.
pub open spec fn is_stack(area: AreaView, id: int) -> bool {
    &&& area.start == stack_page(id)
    &&& area.end == area.start + 2
    &&& area.framed
    &&& area.perm == 6
    &&& area.frames.dom() == pages(area.start, area.end)
}

/// The number of the first page of the upper half of the address space.
pub const UPPER_HALF: u64 = 0x400_0000;

/// An area lies in the upper half of the address space.
pub open spec fn in_upper_half(area: AreaView) -> bool {
    area.start >= UPPER_HALF
}

/// The areas in the upper half of the address space of the kernel are the kernel stacks whose
/// numbers are handed out. The pages of the others are not mapped.
pub open spec fn stacks_ok(ms: &MemorySet, ids: &RecycleAllocator, memory: &Memory) -> bool {
    let views = ms.views();
    &&& forall|id: int| #[trigger] ids.in_use(id) ==> stack_fits(id)
    &&& forall|id: int| #[trigger]
        ids.in_use(id) ==> exists|k: int| 0 <= k < views.len() && is_stack(#[trigger] views[k], id)
    &&& forall|k: int|
        0 <= k < views.len() && #[trigger] in_upper_half(views[k]) ==> exists|id: int|
            ids.in_use(id) && #[trigger] is_stack(views[k], id)
    &&& forall|j: int, k: int|
        0 <= j < k < views.len() && #[trigger] in_upper_half(views[j]) ==> (
        #[trigger] views[k]).start != views[j].start
    &&& forall|id: int, v: int|
        #![trigger stack_fits(id), leaf(memory@, ms.root(), v)]
        stack_fits(id) && !ids.in_use(id) && stack_page(id) <= v < stack_page(id) + 2
            ==> !pte_valid(leaf(memory@, ms.root(), v))
}

impl Shared {
    /// Memory and the address space of the kernel are in order, with a stack for each number that is
    /// handed out.
    pub open spec fn wf(&self) -> bool {
        &&& self.kernel_space.wf(&self.memory)
        &&& self.pids.wf()
        &&& self.kstacks.wf()
        &&& self.entry.strampoline % 4096 == 0
        &&& self.entry.strampoline < 0x100_0000_0000_0000
        &&& stacks_ok(&self.kernel_space, &self.kstacks, &self.memory)
    }

    /// How many frames the next kernel stack takes.
    pub open spec fn stack_cost(&self) -> nat {
        let page = stack_page(self.kstacks.upcoming());
        self.kernel_space.shape(&self.memory).cost(true, page, page + 2)
    }

    /// The next kernel stack has a place.
    pub open spec fn has_stack_place(&self) -> bool {
        stack_fits(self.kstacks.upcoming())
    }

    /// The value of the control register for the address space of the kernel.
    pub fn kernel_token(&self) -> (r: u64)
        requires
            self.kernel_space.wf(&self.memory),
        ensures
            r == 0x8000_0000_0000_0000 + self.kernel_space.root(),
    {
        proof {
            self.kernel_space.lemma_wf(&self.memory);
        }
        self.kernel_space.token()
    }

    /// Hands out the number of a process.
    pub fn pid_alloc(&mut self) -> (r: PidHandle)
        requires
            old(self).pids.wf(),
            old(self).pids.upcoming() < usize::MAX,
        ensures
            final(self).pids.wf(),
            r.0 == old(self).pids.upcoming(),
            !old(self).pids.in_use(r.0 as int),
            forall|id: int| #[trigger]
                final(self).pids.in_use(id) == (id == r.0 || old(self).pids.in_use(id)),
            final(self).pids.handed_out_of(&old(self).pids),
            final(self).memory == old(self).memory,
            final(self).kernel_space == old(self).kernel_space,
            final(self).kstacks == old(self).kstacks,
            final(self).entry == old(self).entry,
    {
        PidHandle(self.pids.allocate())
    }

    /// Hands out the number of a kernel stack and maps the stack into the address space of the
    /// kernel.
    pub fn kstack_alloc(&mut self) -> (r: KernelStack)
        requires
            old(self).wf(),
            old(self).has_stack_place(),
            old(self).stack_cost() <= old(self).memory.free().len(),
        ensures
            final(self).wf(),
            r.0 == old(self).kstacks.upcoming(),
            !old(self).kstacks.in_use(r.0 as int),
            forall|id: int| #[trigger]
                final(self).kstacks.in_use(id) == (id == r.0 || old(self).kstacks.in_use(id)),
            final(self).kstacks.handed_out_of(&old(self).kstacks),
            pushed(
                &old(self).kernel_space,
                &final(self).kernel_space,
                stack_area(r.0 as int),
                Seq::empty(),
                &old(self).memory,
                &final(self).memory,
            ),
            only(
                &old(self).memory,
                &final(self).memory,
                old(self).kernel_space.owned(),
                final(self).kernel_space.owned(),
            ),
            final(self).pids == old(self).pids,
            final(self).entry == old(self).entry,
    {
        let ghost s0 = *self;
        let kstack_id: usize = self.kstacks.allocate();
        let ghost id = kstack_id as int;
        let (bottom, top) = kernel_stack_position(kstack_id);
        let start_va: VirtAddr = VirtAddr::new(bottom);
        let end_va: VirtAddr = VirtAddr::new(top);
        proof {
            lemma_stack_addresses(id);
            let area = stack_area(id);
            assert forall|v: int| area.start <= v < area.end implies !pte_valid(
                #[trigger] leaf(self.memory@, self.kernel_space.root(), v),
            ) by {
                assert(stack_fits(id));
            }
        }
        self.kernel_space.insert_framed_area(
            start_va,
            end_va,
            MapPermission { bits: 6 },
            &mut self.memory,
        );
        proof {
            lemma_stack_added(s0, *self, id);
        }
        KernelStack(kstack_id)
    }

    /// Unmaps a kernel stack and takes back its number.
    pub fn kstack_dealloc(&mut self, stack: KernelStack)
        requires
            old(self).wf(),
            old(self).kstacks.in_use(stack.0 as int),
        ensures
            final(self).wf(),
            final(self).kstacks.next() == old(self).kstacks.next(),
            final(self).kstacks.returned() == old(self).kstacks.returned().push(stack.0),
            forall|id: int| #[trigger]
                final(self).kstacks.in_use(id) == (id != stack.0 && old(self).kstacks.in_use(id)),
            ({
                let page = stack_page(stack.0 as int);
                let k = area_at(old(self).kernel_space.views(), page);
                &&& 0 <= k < old(self).kernel_space.views().len()
                &&& is_stack(old(self).kernel_space.views()[k], stack.0 as int)
                &&& final(self).kernel_space.views() == old(self).kernel_space.views().remove(k)
                &&& lost_pages(
                    &old(self).kernel_space,
                    &final(self).kernel_space,
                    page,
                    page + 2,
                    &old(self).memory,
                    &final(self).memory,
                )
            }),
            only(
                &old(self).memory,
                &final(self).memory,
                old(self).kernel_space.owned(),
                final(self).kernel_space.owned(),
            ),
            final(self).pids == old(self).pids,
            final(self).entry == old(self).entry,
    {
        let ghost s0 = *self;
        let ghost id = stack.0 as int;
        let (bottom, _top) = kernel_stack_position(stack.0);
        let bottom_va: VirtAddr = VirtAddr::new(bottom);
        let start: VirtPageNum = bottom_va.floor();
        let ghost k = 0int;
        proof {
            lemma_stack_addresses(id);
            k = lemma_stack_found(s0, id);
        }
        self.kernel_space.remove_area_with_start_vpn(start, &mut self.memory);
        self.kstacks.dealloc(stack.0);
        proof {
            lemma_stack_removed(s0, *self, id, k);
        }
    }
}

/// The area of kernel stack `id` before it is mapped.
pub open spec fn stack_area(id: int) -> AreaView {
    AreaView {
        start: stack_page(id),
        end: stack_page(id) + 2,
        framed: true,
        perm: 6,
        frames: Map::empty(),
    }
}

pub proof fn lemma_stack_addresses(id: int)
    requires
        stack_fits(id),
    ensures
        ({
            let top = (TRAMPOLINE - id * 12288) as u64;
            let bottom = (top - 8192) as u64;
            &&& (top as int) % 0x80_0000_0000 == 0x7f_ffff_f000 - id * 12288
            &&& (bottom as int) % 0x80_0000_0000 == 0x7f_ffff_f000 - id * 12288 - 8192
            &&& (0x7f_ffff_f000 - id * 12288 - 8192) / 4096 == stack_page(id)
            &&& (0x7f_ffff_f000 - id * 12288 + 4095) / 4096 == stack_page(id) + 2
        }),
        UPPER_HALF <= stack_page(id),
        stack_page(id) + 2 <= TRAMPOLINE_VPN,
{
    let low = 0x7f_ffff_f000 - id * 12288;
    let top = TRAMPOLINE - id * 12288;
    assert(top == 0x1ff_ffff * 0x80_0000_0000 + low);
    lemma_fundamental_div_mod_converse(top, 0x80_0000_0000, 0x1ff_ffff, low);
    lemma_fundamental_div_mod_converse(top - 8192, 0x80_0000_0000, 0x1ff_ffff, low - 8192);
    lemma_fundamental_div_mod_converse(low - 8192, 4096, stack_page(id), 0);
    lemma_fundamental_div_mod_converse(low + 4095, 4096, stack_page(id) + 2, 4095);
}

/// A new kernel stack keeps everything in order.
proof fn lemma_stack_added(s0: Shared, s1: Shared, id: int)
    requires
        s0.wf(),
        stack_fits(id),
        !s0.kstacks.in_use(id),
        s1.kstacks.wf(),
        forall|j: int| #[trigger] s1.kstacks.in_use(j) == (j == id || s0.kstacks.in_use(j)),
        s1.pids == s0.pids,
        s1.entry == s0.entry,
        s1.kernel_space.wf(&s1.memory),
        pushed(
            &s0.kernel_space,
            &s1.kernel_space,
            stack_area(id),
            Seq::empty(),
            &s0.memory,
            &s1.memory,
        ),
    ensures
        s1.wf(),
        only(&s0.memory, &s1.memory, s0.kernel_space.owned(), s1.kernel_space.owned()),
{
    let ms0 = s0.kernel_space;
    let ms1 = s1.kernel_space;
    let views0 = ms0.views();
    let views1 = ms1.views();
    let n = views0.len() as int;
    lemma_stack_addresses(id);
    assert(is_stack(views1[n], id));
    assert forall|j: int| #[trigger] s1.kstacks.in_use(j) implies exists|k: int|
        0 <= k < views1.len() && is_stack(#[trigger] views1[k], j) by {
        if j == id {
            assert(is_stack(views1[n], j));
        } else {
            assert(s0.kstacks.in_use(j));
            let k = choose|k: int| 0 <= k < views0.len() && is_stack(#[trigger] views0[k], j);
            assert(is_stack(views1[k], j));
        }
    }
    assert forall|k: int|
        0 <= k < views1.len() && #[trigger] in_upper_half(views1[k]) implies exists|j: int|
        s1.kstacks.in_use(j) && #[trigger] is_stack(views1[k], j) by {
        if k < n {
            assert(in_upper_half(views0[k]));
            let j = choose|j: int| s0.kstacks.in_use(j) && #[trigger] is_stack(views0[k], j);
            assert(s1.kstacks.in_use(j) && is_stack(views1[k], j));
        } else {
            assert(s1.kstacks.in_use(id) && is_stack(views1[k], id));
        }
    }
    assert forall|j: int, k: int|
        0 <= j < k < views1.len() && #[trigger] in_upper_half(views1[j]) implies (
    #[trigger] views1[k]).start != views1[j].start by {
        assert(views1[j] == views0[j] && in_upper_half(views0[j]));
        if k == n {
            let i = choose|i: int| s0.kstacks.in_use(i) && #[trigger] is_stack(views0[j], i);
            assert(i != id);
        } else {
            assert(views1[k] == views0[k]);
        }
    }
    assert forall|j: int, v: int|
        #![trigger stack_fits(j), leaf(s1.memory@, ms1.root(), v)]
        stack_fits(j) && !s1.kstacks.in_use(j) && stack_page(j) <= v < stack_page(j)
            + 2 implies !pte_valid(leaf(s1.memory@, ms1.root(), v)) by {
        lemma_stack_addresses(j);
        assert(!s0.kstacks.in_use(j));
        assert(!pte_valid(leaf(s0.memory@, ms0.root(), v)));
    }
    assert(s1.memory.free().union(ms1.owned()) =~= s0.memory.free().union(ms0.owned()));
    let a = views1.last();
    assert forall|p: int|
        !ms0.owned().contains(p) && !s0.memory.free().contains(p) implies #[trigger] s1.memory@[p]
        == s0.memory@[p] by {
        assert(!ms1.owned().contains(p));
        if a.owned().contains(p) {
            assert(views1[n].owned().contains(p));
        }
    }
}

/// The area of a kernel stack is the only one that starts where it starts.
proof fn lemma_stack_found(s: Shared, id: int) -> (k: int)
    requires
        s.wf(),
        s.kstacks.in_use(id),
    ensures
        0 <= k < s.kernel_space.views().len(),
        k == area_at(s.kernel_space.views(), stack_page(id)),
        is_stack(s.kernel_space.views()[k], id),
        can_unmap(&s.kernel_space, k, stack_page(id), stack_page(id) + 2, &s.memory),
{
    let ms = s.kernel_space;
    let views = ms.views();
    lemma_stack_addresses(id);
    let k = choose|k: int| 0 <= k < views.len() && is_stack(#[trigger] views[k], id);
    assert forall|j: int| 0 <= j < k implies (#[trigger] views[j]).start != stack_page(id) by {
        if views[j].start == stack_page(id) {
            assert(in_upper_half(views[j]));
            assert(views[k].start != views[j].start);
        }
    }
    lemma_area_at(views, stack_page(id), k);
    let a = views[k];
    assert(area_ok(a, &ms.page_table, &s.memory));
    lemma_valid_frames(a, &ms.page_table, &s.memory);
    assert forall|v: int| stack_page(id) <= v < stack_page(id) + 2 implies pte_valid(
        #[trigger] leaf(s.memory@, ms.root(), v),
    ) by {
        assert(a.frames.dom().contains(v));
    }
    assert forall|j: int, v: int|
        0 <= j < views.len() && j != k && stack_page(id) <= v < stack_page(id)
            + 2 implies !#[trigger] views[j].frames.dom().contains(v) by {
        if views[j].frames.dom().contains(v) {
            assert(area_ok(views[j], &ms.page_table, &s.memory));
            lemma_valid_frames(views[j], &ms.page_table, &s.memory);
            assert(a.frames.dom().contains(v));
            assert(views[k].owned().contains(a.frames[v]) && views[j].owned().contains(a.frames[v]));
        }
    }
    k
}

/// Without a kernel stack everything is still in order.
proof fn lemma_stack_removed(s0: Shared, s1: Shared, id: int, k: int)
    requires
        s0.wf(),
        s0.kstacks.in_use(id),
        s1.kstacks.wf(),
        forall|j: int| #[trigger] s1.kstacks.in_use(j) == (j != id && s0.kstacks.in_use(j)),
        s1.pids == s0.pids,
        s1.entry == s0.entry,
        s1.kernel_space.wf(&s1.memory),
        0 <= k < s0.kernel_space.views().len(),
        is_stack(s0.kernel_space.views()[k], id),
        s1.kernel_space.views() == s0.kernel_space.views().remove(k),
        lost_pages(
            &s0.kernel_space,
            &s1.kernel_space,
            stack_page(id),
            stack_page(id) + 2,
            &s0.memory,
            &s1.memory,
        ),
    ensures
        s1.wf(),
        only(&s0.memory, &s1.memory, s0.kernel_space.owned(), s1.kernel_space.owned()),
{
    let ms0 = s0.kernel_space;
    let ms1 = s1.kernel_space;
    let views0 = ms0.views();
    let views1 = ms1.views();
    lemma_stack_addresses(id);
    assert forall|j: int| #[trigger] s1.kstacks.in_use(j) implies exists|i: int|
        0 <= i < views1.len() && is_stack(#[trigger] views1[i], j) by {
        assert(s0.kstacks.in_use(j));
        let i = choose|i: int| 0 <= i < views0.len() && is_stack(#[trigger] views0[i], j);
        assert(i != k);
        if i < k {
            assert(is_stack(views1[i], j));
        } else {
            assert(is_stack(views1[i - 1], j));
        }
    }
    assert forall|i: int|
        0 <= i < views1.len() && #[trigger] in_upper_half(views1[i]) implies exists|j: int|
        s1.kstacks.in_use(j) && #[trigger] is_stack(views1[i], j) by {
        let i0 = if i < k {
            i
        } else {
            i + 1
        };
        assert(views1[i] == views0[i0] && in_upper_half(views0[i0]) && in_upper_half(views0[k]));
        let j = choose|j: int| s0.kstacks.in_use(j) && #[trigger] is_stack(views0[i0], j);
        if j == id {
            if i0 < k {
                assert(views0[k].start != views0[i0].start);
            } else {
                assert(views0[i0].start != views0[k].start);
            }
        }
        assert(s1.kstacks.in_use(j) && is_stack(views1[i], j));
    }
    assert forall|i: int, j: int|
        0 <= i < j < views1.len() && #[trigger] in_upper_half(views1[i]) implies (
    #[trigger] views1[j]).start != views1[i].start by {
        let i0 = if i < k {
            i
        } else {
            i + 1
        };
        let j0 = if j < k {
            j
        } else {
            j + 1
        };
        assert(views1[i] == views0[i0] && views1[j] == views0[j0] && in_upper_half(views0[i0]));
    }
    assert forall|j: int, v: int|
        #![trigger stack_fits(j), leaf(s1.memory@, ms1.root(), v)]
        stack_fits(j) && !s1.kstacks.in_use(j) && stack_page(j) <= v < stack_page(j)
            + 2 implies !pte_valid(leaf(s1.memory@, ms1.root(), v)) by {
        lemma_stack_addresses(j);
        if j != id {
            assert(!s0.kstacks.in_use(j));
            assert(!pte_valid(leaf(s0.memory@, ms0.root(), v)));
        }
    }
    ms0.lemma_wf(&s0.memory);
    assert(s1.memory.free().union(ms1.owned()) =~= s0.memory.free().union(ms0.owned()));
    assert forall|p: int|
        !ms0.owned().contains(p) && !s0.memory.free().contains(p) implies #[trigger] s1.memory@[p]
        == s0.memory@[p] by {
        assert(!ms1.page_table.tables().contains(p));
    }
}

/// What changes apart from the kernel leaves what is shared in order.
pub proof fn lemma_shared_kept(s0: &Shared, s1: &Shared, owned: Set<int>, owned2: Set<int>)
    requires
        s0.wf(),
        s1.kernel_space == s0.kernel_space,
        s1.pids.wf(),
        s1.kstacks == s0.kstacks,
        s1.entry == s0.entry,
        only(&s0.memory, &s1.memory, owned, owned2),
        s0.kernel_space.owned().disjoint(owned),
    ensures
        s1.wf(),
        s1.stack_cost() == s0.stack_cost(),
        s1.kernel_space.owned().disjoint(owned2),
{
    let ms = s0.kernel_space;
    lemma_bystander(&ms, &s0.memory, &s1.memory, owned, owned2);
    assert forall|id: int, v: int|
        #![trigger stack_fits(id), leaf(s1.memory@, ms.root(), v)]
        stack_fits(id) && !s1.kstacks.in_use(id) && stack_page(id) <= v < stack_page(id)
            + 2 implies !pte_valid(leaf(s1.memory@, ms.root(), v)) by {
        lemma_stack_addresses(id);
        assert(!pte_valid(leaf(s0.memory@, ms.root(), v)));
    }
}

/// An address space that was built from free frames came out of nothing.
pub proof fn lemma_only_built(
    ms: &MemorySet,
    pieces: Seq<Piece>,
    strampoline: u64,
    m0: &Memory,
    m: &Memory,
)
    requires
        m0.wf(),
        built(ms, pieces, strampoline, m0, m),
    ensures
        only(m0, m, Set::empty(), ms.owned()),
        ms.owned().subset_of(m0.free()),
{
    assert(m.free().union(ms.owned()) =~= m0.free().union(Set::empty()));
}

/// What a page of an address space holds can change.
pub proof fn lemma_only_page(ms: &MemorySet, m: &Memory, m2: &Memory, p: int)
    requires
        ms.wf(m),
        m2.wf(),
        m2.free() == m.free(),
        m2.limit() == m.limit(),
        m2@ == m@.insert(p, m2@[p]),
        ms.owned().contains(p),
    ensures
        only(m, m2, ms.owned(), ms.owned()),
{
    ms.lemma_wf(m);
    assert(m2@.dom() =~= m@.dom());
}

/// An area that was added took free frames.
pub proof fn lemma_only_pushed(
    ms: &MemorySet,
    ms2: &MemorySet,
    area: AreaView,
    data: Seq<u8>,
    m: &Memory,
    m2: &Memory,
)
    requires
        ms.wf(m),
        ms2.wf(m2),
        pushed(ms, ms2, area, data, m, m2),
    ensures
        only(m, m2, ms.owned(), ms2.owned()),
{
    assert(m2.free().union(ms2.owned()) =~= m.free().union(ms.owned()));
    let n = ms.views().len() as int;
    let a = ms2.views().last();
    assert forall|p: int| !ms.owned().contains(p) && !m.free().contains(p) implies #[trigger] m2@[p]
        == m@[p] by {
        assert(!ms2.owned().contains(p));
        if a.owned().contains(p) {
            assert(ms2.views()[n].owned().contains(p));
        }
    }
}

/// Pages that were unmapped gave back their frames.
pub proof fn lemma_only_lost(
    ms: &MemorySet,
    ms2: &MemorySet,
    from: int,
    to: int,
    m: &Memory,
    m2: &Memory,
)
    requires
        ms.wf(m),
        ms2.wf(m2),
        lost_pages(ms, ms2, from, to, m, m2),
    ensures
        only(m, m2, ms.owned(), ms2.owned()),
{
    ms.lemma_wf(m);
    assert(m2.free().union(ms2.owned()) =~= m.free().union(ms.owned()));
    assert forall|p: int| !ms.owned().contains(p) && !m.free().contains(p) implies #[trigger] m2@[p]
        == m@[p] by {
        assert(!ms2.page_table.tables().contains(p));
    }
}

/// An area that grew took free frames.
pub proof fn lemma_only_appended(
    ms: &MemorySet,
    ms2: &MemorySet,
    k: int,
    end: int,
    m: &Memory,
    m2: &Memory,
)
    requires
        ms.wf(m),
        ms2.wf(m2),
        appended(ms, ms2, k, end, m, m2),
    ensures
        only(m, m2, ms.owned(), ms2.owned()),
{
    assert(m2.free().union(ms2.owned()) =~= m.free().union(ms.owned()));
    assert forall|p: int| !ms.owned().contains(p) && !m.free().contains(p) implies #[trigger] m2@[p]
        == m@[p] by {
        assert(!ms2.owned().contains(p));
    }
}

} // verus!
