use rcore_kernel::mm::address::PhysPageNum;
use rcore_kernel::mm::frame_allocator::Memory;
use rcore_kernel::task::context::TaskContext;
use rcore_kernel::task::id::{kernel_stack_position, KernelStack, RecycleAllocator};
use rcore_kernel::task::manager::TaskManager;
use rcore_kernel::task::processor::Processor;
use rcore_kernel::trap::cause::{read_cause, ExceptionKind, TrapCause};
use rcore_kernel::trap::context::TrapContext;
use rcore_kernel::trap::handler::{fault_place, FaultMap, KernelPart};

#[test]
fn causes_are_told_apart() {
    let exception = |n: u64| read_cause(n);
    assert_eq!(exception(8), TrapCause::Exception(ExceptionKind::UserEnvCall));
    assert_eq!(exception(7), TrapCause::Exception(ExceptionKind::StoreFault));
    assert_eq!(exception(15), TrapCause::Exception(ExceptionKind::StorePageFault));
    assert_eq!(exception(1), TrapCause::Exception(ExceptionKind::InstructionFault));
    assert_eq!(exception(12), TrapCause::Exception(ExceptionKind::InstructionPageFault));
    assert_eq!(exception(5), TrapCause::Exception(ExceptionKind::LoadFault));
    assert_eq!(exception(13), TrapCause::Exception(ExceptionKind::LoadPageFault));
    assert_eq!(exception(2), TrapCause::Exception(ExceptionKind::IllegalInstruction));
    assert_eq!(exception(3), TrapCause::Exception(ExceptionKind::Other));
    assert_eq!(exception(100), TrapCause::Exception(ExceptionKind::Other));
    assert_eq!(read_cause(0x8000_0000_0000_0005), TrapCause::SupervisorTimer);
    assert_eq!(read_cause(0x8000_0000_0000_0001), TrapCause::OtherInterrupt);
    assert_eq!(read_cause(0x8000_0000_0000_0009), TrapCause::OtherInterrupt);
}

#[test]
fn a_program_starts_with_its_stack() {
    let cx = TrapContext::app_init_context(0x1000, 0x2000, 3, 4, 5, 0x122);
    assert_eq!(cx.x[2], 0x2000);
    assert!(cx.x.iter().enumerate().all(|(i, x)| i == 2 || *x == 0));
    assert_eq!((cx.sepc, cx.kernel_satp, cx.kernel_sp, cx.trap_handler), (0x1000, 3, 4, 5));
    // bit 8 says that the processor came from the kernel
    assert_eq!(cx.sstatus, 0x22);
    let cx = TrapContext::app_init_context(0, 0, 0, 0, 0, u64::MAX);
    assert_eq!(cx.sstatus, 0x8000_0003_000d_e662);
}

#[test]
fn contexts_lie_in_pages() {
    let mut memory = Memory::new(PhysPageNum(7), 2);
    let mut cx = TrapContext::app_init_context(0x1000, 0x2000, 3, 4, 5, 0);
    for i in 0..32 {
        cx.x[i] = 100 + i as u64;
    }
    cx.store(PhysPageNum(8), &mut memory);
    assert_eq!(memory.read_word(PhysPageNum(8), 17), 117);
    assert_eq!(memory.read_word(PhysPageNum(8), 33), 0x1000);
    assert_eq!(memory.read_word(PhysPageNum(8), 36), 5);
    assert_eq!(memory.read_word(PhysPageNum(8), 37), 0);
    let back = TrapContext::load(PhysPageNum(8), &memory);
    assert_eq!(back.x, cx.x);
    assert_eq!((back.sepc, back.kernel_sp), (0x1000, 4));
}

#[test]
fn new_tasks_leave_the_kernel_first() {
    let zero = TaskContext::zero_init();
    let cx = TaskContext::goto_trap_return(0, 0);
    assert_eq!(zero, cx);
    assert_ne!(zero, TaskContext::goto_trap_return(0x1000, 0));
    assert_ne!(zero, TaskContext::goto_trap_return(0, 0x1000));
}

#[test]
fn numbers_come_back_last_first() {
    let mut ids = RecycleAllocator::new();
    assert_eq!((ids.allocate(), ids.allocate(), ids.allocate()), (0, 1, 2));
    ids.dealloc(0);
    ids.dealloc(1);
    assert_eq!(ids.peek(), 1);
    assert_eq!((ids.allocate(), ids.allocate(), ids.allocate()), (1, 0, 3));
}

#[test]
fn kernel_stacks_lie_below_the_trampoline() {
    assert_eq!(kernel_stack_position(0), (0xffff_ffff_ffff_d000, 0xffff_ffff_ffff_f000));
    assert_eq!(kernel_stack_position(1), (0xffff_ffff_ffff_a000, 0xffff_ffff_ffff_c000));
    assert_eq!(KernelStack(2).get_top(), 0xffff_ffff_ffff_9000);
}

#[test]
fn the_smallest_stride_runs_first() {
    let mut tasks = TaskManager::new();
    assert_eq!(tasks.fetch(&vec![]), None);
    for pid in [4, 9, 2, 7] {
        tasks.add(pid);
    }
    assert_eq!((tasks.len(), tasks.get(1)), (4, 9));
    assert_eq!(tasks.fetch(&vec![5, 3, 3, 4]), Some(9));
    assert_eq!(tasks.fetch(&vec![5, 3, 4]), Some(2));
    // also where the stride is the largest there is
    assert_eq!(tasks.fetch(&vec![i64::MAX, i64::MAX]), Some(4));
    assert_eq!(tasks.fetch(&vec![i64::MAX]), Some(7));
    assert_eq!(tasks.fetch(&vec![]), None);
}

#[test]
fn the_processor_runs_one_task() {
    let mut cpu = Processor::new();
    assert_eq!(cpu.current(), None);
    cpu.set_current(5);
    assert_eq!(cpu.current(), Some(5));
    assert_eq!(cpu.take_current(), Some(5));
    assert_eq!(cpu.take_current(), None);
}

#[test]
fn faults_are_placed() {
    let parts = FaultMap { stext: 10, etext: 20, srodata: 20, erodata: 30, sbss: 40, ebss: 50 };
    assert_eq!(fault_place(10, &parts), KernelPart::Text);
    assert_eq!(fault_place(20, &parts), KernelPart::Rodata);
    assert_eq!(fault_place(30, &parts), KernelPart::Elsewhere);
    assert_eq!(fault_place(49, &parts), KernelPart::Bss);
    assert_eq!(fault_place(50, &parts), KernelPart::Elsewhere);
}
