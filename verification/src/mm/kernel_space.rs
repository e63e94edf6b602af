//! The address space of the kernel.

use vstd::prelude::*;

use super::address::{va_of, VirtAddr};
use super::frame_allocator::Memory;
use super::map_area::{area_ok, PERM_R, PERM_W, PERM_X};
use super::memory_set::MemorySet;
use super::page_table::{in_use, leaf, lemma_pte, pte_flags, pte_of, table_of, PageTableEntry};
use super::plan::{fits, pieces_of, AreaPlan};
use super::space::{built, piece_done};

verus! {

/// Where the parts of the kernel lie in memory, and where the devices are.
pub struct KernelLayout {
    pub stext: u64,
    pub etext: u64,
    pub srodata: u64,
    pub erodata: u64,
    pub sdata: u64,
    pub edata: u64,
    pub sbss_with_stack: u64,
    pub ebss: u64,
    pub ekernel: u64,
    pub memory_end: u64,
    pub strampoline: u64,
    /// The registers of the devices: where they start and how many bytes they take.
    pub mmio: Vec<(u64, u64)>,
}

/// An area that is mapped to the physical pages of the same numbers.
pub open spec fn identical(start: u64, end: u64, perm: u8) -> AreaPlan {
    AreaPlan { start, end, framed: false, perm, data: None }
}

/// The areas of the kernel: code can be executed, constants can only be read, everything else can be
/// written; all memory behind the kernel and the registers of the devices are there.
pub open spec fn kernel_plans(layout: &KernelLayout) -> Seq<AreaPlan> {
    seq![
        identical(layout.stext, layout.etext, 10),
        identical(layout.srodata, layout.erodata, 2),
        identical(layout.sdata, layout.edata, 6),
        identical(layout.sbss_with_stack, layout.ebss, 6),
        identical(layout.ekernel, layout.memory_end, 6),
    ] + layout.mmio@.map_values(
        |pair: (u64, u64)| identical(pair.0, (pair.0 + pair.1) as u64, 6),
    )
}

/// The plan of the address space of the kernel.
pub fn plan_kernel(layout: &KernelLayout) -> (r: Vec<AreaPlan>)
    requires
        forall|i: int|
            0 <= i < layout.mmio@.len() ==> (#[trigger] layout.mmio@[i]).0 + layout.mmio@[i].1
                <= u64::MAX,
    ensures
        r@ == kernel_plans(layout),
{
    let mut plans: Vec<AreaPlan> = Vec::new();
    let rw: u8 = PERM_R + PERM_W;
    plans.push(
        AreaPlan {
            start: layout.stext,
            end: layout.etext,
            framed: false,
            perm: PERM_R + PERM_X,
            data: None,
        },
    );
    plans.push(
        AreaPlan {
            start: layout.srodata,
            end: layout.erodata,
            framed: false,
            perm: PERM_R,
            data: None,
        },
    );
    plans.push(
        AreaPlan { start: layout.sdata, end: layout.edata, framed: false, perm: rw, data: None },
    );
    plans.push(
        AreaPlan {
            start: layout.sbss_with_stack,
            end: layout.ebss,
            framed: false,
            perm: rw,
            data: None,
        },
    );
    plans.push(
        AreaPlan {
            start: layout.ekernel,
            end: layout.memory_end,
            framed: false,
            perm: rw,
            data: None,
        },
    );
    let ghost all = kernel_plans(layout);
    assert(plans@ =~= all.take(5));
    let mut i: usize = 0;
    while i < layout.mmio.len()
        invariant
            i <= layout.mmio@.len(),
            rw == 6,
            all == kernel_plans(layout),
            plans@ == all.take(5 + i),
            forall|j: int|
                0 <= j < layout.mmio@.len() ==> (#[trigger] layout.mmio@[j]).0 + layout.mmio@[j].1
                    <= u64::MAX,
        decreases layout.mmio@.len() - i,
    {
        let (start, len) = layout.mmio[i];
        assert(layout.mmio@[i as int].0 + layout.mmio@[i as int].1 <= u64::MAX);
        plans.push(AreaPlan { start, end: start + len, framed: false, perm: rw, data: None });
        assert(all[5 + i] == plans@.last());
        assert(plans@ =~= all.take(5 + i + 1));
        i += 1;
    }
    assert(all.take(5 + i) =~= all);
    plans
}

impl MemorySet {
    /// The address space of the kernel.
    pub fn new_kernel(layout: &KernelLayout, memory: &mut Memory) -> (r: Self)
        requires
            old(memory).wf(),
            layout.strampoline % 4096 == 0,
            layout.strampoline < 0x100_0000_0000_0000,
            forall|i: int|
                0 <= i < layout.mmio@.len() ==> (#[trigger] layout.mmio@[i]).0 + layout.mmio@[i].1
                    <= u64::MAX,
            fits(kernel_plans(layout), Seq::empty(), old(memory).free().len() as int),
        ensures
            built(
                &r,
                pieces_of(kernel_plans(layout), Seq::empty()),
                layout.strampoline,
                old(memory),
                final(memory),
            ),
    {
        let plans: Vec<AreaPlan> = plan_kernel(layout);
        let image: Vec<u8> = Vec::new();
        assert(image@ =~= Seq::empty());
        Self::build(&plans, image.as_slice(), layout.strampoline, memory)
    }
}

/// The page in the middle between two addresses.
pub open spec fn middle_page(start: u64, end: u64) -> int {
    va_of(((start + end) / 2) as u64) / 4096
}

/// The entry of a page in an address space lets it be written.
pub open spec fn can_be_written(ms: &MemorySet, memory: &Memory, v: int) -> bool {
    pte_flags(leaf(memory@, ms.root(), v)) / 4 % 2 == 1
}

/// The entry of a page in an address space lets it be executed.
pub open spec fn can_be_executed(ms: &MemorySet, memory: &Memory, v: int) -> bool {
    pte_flags(leaf(memory@, ms.root(), v)) / 8 % 2 == 1
}

/// Looks at the pages in the middle of the code, of the constants and of the data: whether neither of
/// the first two can be written and the third cannot be executed.
pub fn remap_test(kernel_space: &MemorySet, layout: &KernelLayout, memory: &Memory) -> (r: bool)
    requires
        kernel_space.wf(memory),
        layout.stext + layout.etext <= u64::MAX,
        layout.srodata + layout.erodata <= u64::MAX,
        layout.sdata + layout.edata <= u64::MAX,
        table_of(
            memory@,
            kernel_space.root(),
            middle_page(layout.stext, layout.etext),
        ) is Some,
        table_of(
            memory@,
            kernel_space.root(),
            middle_page(layout.srodata, layout.erodata),
        ) is Some,
        table_of(
            memory@,
            kernel_space.root(),
            middle_page(layout.sdata, layout.edata),
        ) is Some,
    ensures
        r == {
            &&& !can_be_written(kernel_space, memory, middle_page(layout.stext, layout.etext))
            &&& !can_be_written(kernel_space, memory, middle_page(layout.srodata, layout.erodata))
            &&& !can_be_executed(kernel_space, memory, middle_page(layout.sdata, layout.edata))
        },
{
    let mid_text: VirtAddr = VirtAddr::new((layout.stext + layout.etext) / 2);
    let mid_rodata: VirtAddr = VirtAddr::new((layout.srodata + layout.erodata) / 2);
    let mid_data: VirtAddr = VirtAddr::new((layout.sdata + layout.edata) / 2);
    let text: Option<PageTableEntry> = kernel_space.translate(mid_text.floor(), memory);
    let rodata: Option<PageTableEntry> = kernel_space.translate(mid_rodata.floor(), memory);
    let data: Option<PageTableEntry> = kernel_space.translate(mid_data.floor(), memory);
    let text: PageTableEntry = text.unwrap();
    let rodata: PageTableEntry = rodata.unwrap();
    let data: PageTableEntry = data.unwrap();
    !text.writable() && !rodata.writable() && !data.executable()
}

/// In the address space of the kernel the pages of the code and of the constants cannot be written,
/// and those of the constants, the data and the free memory cannot be executed.
pub proof fn law_kernel_parts_protected(
    ms: &MemorySet,
    layout: &KernelLayout,
    m0: &Memory,
    memory: &Memory,
)
    requires
        built(
            ms,
            pieces_of(kernel_plans(layout), Seq::empty()),
            layout.strampoline,
            m0,
            memory,
        ),
    ensures
        forall|v: int|
            in_part(layout.stext, layout.etext, v) ==> !#[trigger] can_be_written(ms, memory, v),
        forall|v: int|
            in_part(layout.srodata, layout.erodata, v) ==> !#[trigger] can_be_written(ms, memory, v)
                && !can_be_executed(ms, memory, v),
        forall|v: int|
            in_part(layout.sdata, layout.edata, v) ==> !#[trigger] can_be_executed(ms, memory, v),
        forall|v: int|
            in_part(layout.sbss_with_stack, layout.ebss, v) ==> !#[trigger] can_be_executed(
                ms,
                memory,
                v,
            ),
        forall|v: int|
            in_part(layout.ekernel, layout.memory_end, v) ==> !#[trigger] can_be_executed(
                ms,
                memory,
                v,
            ),
{
    let plans = kernel_plans(layout);
    let pieces = pieces_of(plans, Seq::empty());
    assert(pieces.len() >= 5);
    assert forall|k: int, v: int|
        0 <= k < 5 && plans[k].area().start <= v < plans[k].area().end implies pte_flags(
        #[trigger] leaf(memory@, ms.root(), v),
    ) == #[trigger] plans[k].perm + 1 by {
        assert(piece_done(ms, pieces, k, memory));
        assert(area_ok(ms.views()[k], &ms.page_table, memory));
        assert(leaf(memory@, ms.root(), v) == pte_of(v, in_use(plans[k].perm as int)));
        lemma_pte(v, in_use(plans[k].perm as int));
    }
    assert forall|v: int| in_part(layout.stext, layout.etext, v) implies !#[trigger] can_be_written(
        ms,
        memory,
        v,
    ) by {
        assert(pte_flags(leaf(memory@, ms.root(), v)) == plans[0].perm + 1);
    }
    assert forall|v: int| in_part(layout.srodata, layout.erodata, v) implies !#[trigger] can_be_written(
        ms,
        memory,
        v,
    ) && !can_be_executed(ms, memory, v) by {
        assert(pte_flags(leaf(memory@, ms.root(), v)) == plans[1].perm + 1);
    }
    assert forall|v: int| in_part(layout.sdata, layout.edata, v) implies !#[trigger] can_be_executed(
        ms,
        memory,
        v,
    ) by {
        assert(pte_flags(leaf(memory@, ms.root(), v)) == plans[2].perm + 1);
    }
    assert forall|v: int| in_part(layout.sbss_with_stack, layout.ebss, v) implies !#[trigger] can_be_executed(
        ms,
        memory,
        v,
    ) by {
        assert(pte_flags(leaf(memory@, ms.root(), v)) == plans[3].perm + 1);
    }
    assert forall|v: int| in_part(layout.ekernel, layout.memory_end, v) implies !#[trigger] can_be_executed(
        ms,
        memory,
        v,
    ) by {
        assert(pte_flags(leaf(memory@, ms.root(), v)) == plans[4].perm + 1);
    }
}

/// Page `v` belongs to a part of the kernel.
pub open spec fn in_part(start: u64, end: u64, v: int) -> bool {
    va_of(start) / 4096 <= v < (va_of(end) + 4095) / 4096
}

} // verus!
