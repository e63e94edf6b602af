//! How the kernel starts.

use vstd::prelude::*;
use vstd::string::StringSliceAdditionalSpecFns;

use super::guard::is_startable;
use super::state::{Kernel, IDLE_PID};
use crate::easy_fs::block_dev::BlockDevice;
use crate::easy_fs::efs::EasyFileSystem;
use crate::fs::file::first_files;
use crate::fs::inode::{file_named, rooted, OSInode};
use crate::mm::address::VirtAddr;
use crate::mm::elf::{segments_of, stack_top};
use crate::mm::frame_allocator::Memory;
use crate::mm::kernel_space::{kernel_plans, plan_kernel, KernelLayout};
use crate::mm::memory_set::MemorySet;
use crate::mm::page_table::{leaf, pte_valid};
use crate::mm::plan::{fits, pieces_of, plan_fits, AreaPlan};
use crate::mm::space::{built, covered, covers, piece_done};
use crate::syscall::process::read_file;
use crate::task::id::{stack_fits, RecycleAllocator};
use crate::task::manager::TaskManager;
use crate::task::processor::Processor;
use crate::task::shared::{
    in_upper_half, lemma_stack_addresses, stack_page, stacks_ok, Entry, Shared, UPPER_HALF,
};
use crate::task::task::{can_start, newborn, runs_file, TaskControlBlock};

verus! {

/// The parts of the kernel lie in the lower half of the address space.
pub open spec fn lies_low(layout: &KernelLayout) -> bool {
    forall|k: int|
        0 <= k < kernel_plans(layout).len() ==> {
            let a = (#[trigger] kernel_plans(layout)[k]).area();
            a.start < UPPER_HALF && a.end <= UPPER_HALF
        }
}

/// A layout from which the address space of the kernel can be built with the free frames of `memory`.
pub open spec fn layout_fits(layout: &KernelLayout, memory: &Memory) -> bool {
    &&& layout.strampoline % 4096 == 0
    &&& layout.strampoline < 0x100_0000_0000_0000
    &&& forall|i: int|
        0 <= i < layout.mmio@.len() ==> (#[trigger] layout.mmio@[i]).0 + layout.mmio@[i].1
            <= u64::MAX
    &&& fits(kernel_plans(layout), Seq::empty(), memory.free().len() as int)
    &&& lies_low(layout)
}

/// Whether the address space of the kernel can be built.
pub fn does_layout_fit(layout: &KernelLayout, memory: &Memory) -> (r: bool)
    requires
        memory.wf(),
    ensures
        r == layout_fits(layout, memory),
{
    let mut i: usize = 0;
    while i < layout.mmio.len()
        invariant
            i <= layout.mmio@.len(),
            forall|j: int|
                0 <= j < i ==> (#[trigger] layout.mmio@[j]).0 + layout.mmio@[j].1 <= u64::MAX,
        decreases layout.mmio@.len() - i,
    {
        let (start, len) = layout.mmio[i];
        assert(layout.mmio@[i as int] == (start, len));
        if len > u64::MAX - start {
            return false;
        }
        i += 1;
    }
    let plans: Vec<AreaPlan> = plan_kernel(layout);
    let mut k: usize = 0;
    while k < plans.len()
        invariant
            k <= plans@.len(),
            plans@ == kernel_plans(layout),
            forall|j: int|
                0 <= j < k ==> {
                    let a = (#[trigger] plans@[j]).area();
                    a.start < UPPER_HALF && a.end <= UPPER_HALF
                },
        decreases plans@.len() - k,
    {
        let start: u64 = VirtAddr::new(plans[k].start).floor().0;
        let end: u64 = VirtAddr::new(plans[k].end).ceil().0;
        let ghost a = plans@[k as int].area();
        assert(a.start == start && a.end == end);
        if start >= UPPER_HALF || end > UPPER_HALF {
            return false;
        }
        k += 1;
    }
    proof {
        memory.lemma_frames();
    }
    let image: Vec<u8> = Vec::new();
    assert(image@ =~= Seq::empty());
    layout.strampoline % 4096 == 0 && layout.strampoline < 0x100_0000_0000_0000 && plan_fits(
        &plans,
        image.as_slice(),
        memory.available(),
    )
}

impl Shared {
    /// Builds the address space of the kernel. No number is handed out yet.
    pub fn new(layout: &KernelLayout, memory: Memory, entry: Entry) -> (r: Self)
        requires
            memory.wf(),
            layout_fits(layout, &memory),
            entry.strampoline == layout.strampoline,
        ensures
            r.wf(),
            r.entry == entry,
            built(
                &r.kernel_space,
                pieces_of(kernel_plans(layout), Seq::empty()),
                layout.strampoline,
                &memory,
                &r.memory,
            ),
            r.pids.next() == 0,
            r.pids.returned() == Seq::<usize>::empty(),
            r.kstacks.next() == 0,
            r.kstacks.returned() == Seq::<usize>::empty(),
    {
        let ghost m0 = memory;
        let mut memory: Memory = memory;
        let kernel_space: MemorySet = MemorySet::new_kernel(layout, &mut memory);
        let kstacks: RecycleAllocator = RecycleAllocator::new();
        proof {
            lemma_no_stacks(&kernel_space, layout, &kstacks, &m0, &memory);
        }
        Shared { memory, kernel_space, pids: RecycleAllocator::new(), kstacks, entry }
    }
}

/// The kernel has no stack yet.
proof fn lemma_no_stacks(
    ms: &MemorySet,
    layout: &KernelLayout,
    ids: &RecycleAllocator,
    m0: &Memory,
    memory: &Memory,
)
    requires
        built(
            ms,
            pieces_of(kernel_plans(layout), Seq::empty()),
            layout.strampoline,
            m0,
            memory,
        ),
        lies_low(layout),
        ids.next() == 0,
    ensures
        stacks_ok(ms, ids, memory),
{
    let plans = kernel_plans(layout);
    let pieces = pieces_of(plans, Seq::empty());
    let views = ms.views();
    assert forall|k: int| 0 <= k < views.len() implies !#[trigger] in_upper_half(views[k]) by {
        assert(piece_done(ms, pieces, k, memory));
        assert(plans[k].area().start < UPPER_HALF);
    }
    assert forall|id: int, v: int|
        #![trigger stack_fits(id), leaf(memory@, ms.root(), v)]
        stack_fits(id) && !ids.in_use(id) && stack_page(id) <= v < stack_page(id)
            + 2 implies !pte_valid(leaf(memory@, ms.root(), v)) by {
        lemma_stack_addresses(id);
        assert(!covered(pieces, v)) by {
            if covered(pieces, v) {
                let k = choose|k: int|
                    0 <= k < pieces.len() && covers((#[trigger] pieces[k]).area, v);
                assert(plans[k].area().end <= UPPER_HALF);
            }
        }
    }
}

/// The name of the program of the first process.
pub open spec fn initproc_name() -> Seq<u8> {
    "ch6b_initproc".spec_bytes()
}

/// What the program of the first process is.
pub open spec fn initproc_content<D: BlockDevice>(fs: &EasyFileSystem<D>) -> Seq<u8> {
    fs.files()[file_named(fs, initproc_name())->0].content
}

/// Whether there is the program of the first process, and it can be started.
pub fn is_bootable<D: BlockDevice>(shared: &Shared, fs: &mut EasyFileSystem<D>) -> (r: bool)
    requires
        shared.wf(),
        rooted(old(fs)),
    ensures
        rooted(final(fs)),
        final(fs).same_shape(old(fs)),
        final(fs).disk() == old(fs).disk(),
        r == (file_named(old(fs), initproc_name()) is Some && can_start(
            shared,
            initproc_content(old(fs)),
        )),
{
    match read_file("ch6b_initproc", fs) {
        Some(data) => is_startable(shared, data.as_slice()),
        None => false,
    }
}

impl<D: BlockDevice> Kernel<D> {
    /// A kernel with the first process, which is ready to run the program `ch6b_initproc`.
    pub fn new(shared: Shared, fs: EasyFileSystem<D>) -> (r: Self)
        requires
            shared.wf(),
            shared.pids.next() == 0,
            shared.pids.returned().len() == 0,
            rooted(&fs),
            file_named(&fs, initproc_name()) is Some,
            can_start(&shared, initproc_content(&fs)),
        ensures
            r.wf(),
            r.tasks@.len() == 1,
            r.manager.queue() == seq![IDLE_PID],
            r.processor.running() is None,
            r.open_files@.len() == 0,
            r.fs.same_shape(&fs),
            r.fs.disk() == fs.disk(),
            ({
                let t = r.task(0);
                let content = initproc_content(&fs);
                &&& newborn(&t, None, &shared, &r.shared)
                &&& runs_file(&t.inner, content, t.kernel_stack.0 as int, &r.shared)
                &&& t.inner.fd_table@ == first_files()
                &&& t.inner.base_size == stack_top(segments_of(content))
                &&& t.inner.heap_bottom == t.inner.base_size
                &&& t.inner.program_brk == t.inner.base_size
            }),
    {
        let ghost s0 = shared;
        let mut shared: Shared = shared;
        let mut fs: EasyFileSystem<D> = fs;
        let data: Option<Vec<u8>> = read_file("ch6b_initproc", &mut fs);
        let data: Vec<u8> = data.unwrap();
        let init: TaskControlBlock = TaskControlBlock::new(data.as_slice(), &mut shared);
        let ghost t = init;
        let mut tasks: Vec<Option<TaskControlBlock>> = Vec::new();
        tasks.push(Some(init));
        let mut manager: TaskManager = TaskManager::new();
        manager.add(IDLE_PID);
        let open_files: Vec<OSInode> = Vec::new();
        let r: Kernel<D> = Kernel {
            shared,
            tasks,
            manager,
            processor: Processor::new(),
            fs,
            open_files,
        };
        proof {
            assert(r.manager.queue() =~= seq![IDLE_PID]);
            assert forall|j: int| #[trigger] r.has(j) == (j == 0) by {}
            assert(r.task(0) == t);
            assert(r.numbers_ok()) by {
                assert forall|j: int| #[trigger] r.has(j) == r.shared.pids.in_use(j) by {
                    assert(!s0.pids.in_use(j));
                }
            }
            assert(r.family_ok()) by {
                assert(r.has(0));
                assert forall|p: int, c: int| r.has(p) && #[trigger] r.is_child(p, c) implies r.has(
                    c,
                ) && r.inner(c).parent == Some(p as usize) by {}
            }
            assert(r.queue_ok()) by {
                let queue = r.manager.queue();
                assert(queue[0] == 0usize);
                assert forall|j: int| #[trigger] r.has(j) implies queue.contains(j as usize) by {}
            }
            assert(r.files_ok()) by {
                assert forall|j: int, fd: int|
                    #![trigger r.inner(j).fd_table@[fd]]
                    r.has(j) && 0 <= fd < r.inner(j).fd_table@.len() implies r.file_ok(
                    r.inner(j).fd_table@[fd],
                ) by {
                    assert(first_files()[fd] == r.inner(j).fd_table@[fd]);
                }
            }
        }
        r
    }
}

} // verus!
