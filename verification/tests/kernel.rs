use rcore_kernel::easy_fs::block_dev::{BlockDevice, BLOCK_SZ};
use rcore_kernel::easy_fs::efs::EasyFileSystem;
use rcore_kernel::fs::file::FileRef;
use rcore_kernel::fs::inode::{OPEN_CREATE, OPEN_RDONLY, OPEN_RDWR, OPEN_WRONLY};
use rcore_kernel::fs::stdio::StdinStep;
use rcore_kernel::kernel::boot::{does_layout_fit, is_bootable};
use rcore_kernel::kernel::guard::{
    has_numbers_left, is_brk_movable, is_buffer, is_copyable, is_framed, is_startable, is_text_at,
};
use rcore_kernel::kernel::state::Kernel;
use rcore_kernel::mm::address::{PhysPageNum, VirtAddr, TRAMPOLINE, TRAP_CONTEXT_BASE};
use rcore_kernel::mm::frame_allocator::Memory;
use rcore_kernel::mm::kernel_space::KernelLayout;
use rcore_kernel::mm::memory_set::MemorySet;
use rcore_kernel::syscall::files::{
    read_key, sys_close, sys_fstat, sys_linkat, sys_open, sys_read, sys_unlinkat, sys_write,
    ReadStep, WriteStep,
};
use rcore_kernel::syscall::guard::{is_executable_at, is_spawnable_at};
use rcore_kernel::syscall::process::{
    sys_exec, sys_exit, sys_fork, sys_get_time, sys_getpid, sys_mmap, sys_munmap, sys_sbrk,
    sys_set_priority, sys_spawn, sys_yield,
};
use rcore_kernel::syscall::wait::{has_dead_child, sys_waitpid};
use rcore_kernel::task::shared::{Entry, Shared};
use rcore_kernel::task::task::{TaskControlBlockInner, TaskStatus};
use rcore_kernel::trap::handler::TrapStep;

struct Disk {
    blocks: Vec<[u8; BLOCK_SZ]>,
}

impl BlockDevice for Disk {
    fn read_block(&self, block_id: usize, buf: &mut [u8; BLOCK_SZ]) {
        *buf = self.blocks[block_id];
    }

    fn write_block(&mut self, block_id: usize, buf: &[u8; BLOCK_SZ]) {
        self.blocks[block_id] = *buf;
    }
}

/// A program with one segment of a page, which starts with this byte.
fn program(mark: u8) -> Vec<u8> {
    let mut f = vec![0x7f, 0x45, 0x4c, 0x46, 2, 1, 1, 0, 0, 0, 0, 0, 0, 0, 0, 0];
    f.extend(2u16.to_le_bytes());
    f.extend(243u16.to_le_bytes());
    f.extend(1u32.to_le_bytes());
    f.extend((0x10000 + mark as u64).to_le_bytes());
    f.extend(64u64.to_le_bytes());
    f.extend([0u8; 12]);
    f.extend(64u16.to_le_bytes());
    f.extend(56u16.to_le_bytes());
    f.extend(1u16.to_le_bytes());
    f.extend([0u8; 6]);
    f.extend(1u32.to_le_bytes());
    f.extend(7u32.to_le_bytes());
    for x in [120u64, 0x10000, 0x10000, 16, 4096, 4096] {
        f.extend(x.to_le_bytes());
    }
    f.extend([mark; 16]);
    f
}

const STACK_TOP: u64 = 0x14000;

fn file_system() -> EasyFileSystem<Disk> {
    let mut fs = EasyFileSystem::create(Disk { blocks: vec![[0; BLOCK_SZ]; 4096] }, 4096, 1);
    let root = fs.root_inode();
    for (name, mark) in [("ch6b_initproc", 1), ("prog", 2)] {
        let file = root.create(name, &mut fs).unwrap();
        file.write_at(0, &program(mark), &mut fs);
    }
    fs
}

fn layout() -> KernelLayout {
    KernelLayout {
        stext: 0x8000_0000,
        etext: 0x8001_0000,
        srodata: 0x8001_0000,
        erodata: 0x8001_8000,
        sdata: 0x8001_8000,
        edata: 0x8001_a000,
        sbss_with_stack: 0x8001_a000,
        ebss: 0x8010_0000,
        ekernel: 0x8010_0000,
        memory_end: 0x8040_0000,
        strampoline: 0x8000_1000,
        mmio: vec![],
    }
}

fn entry() -> Entry {
    Entry {
        strampoline: 0x8000_1000,
        trap_handler: 0x8000_2000,
        trap_return: 0x8000_3000,
        sstatus: 0x100,
    }
}

/// A kernel whose first process runs.
fn kernel() -> Kernel<Disk> {
    let mut memory = Memory::new(PhysPageNum(0x80000), 1024);
    memory.init_frame_allocator(0x8010_0000, 0x8040_0000);
    let shared = Shared::new(&layout(), memory, entry());
    let mut k = Kernel::new(shared, file_system());
    assert_eq!(k.run_tasks(), Some(0));
    k
}

fn space(k: &Kernel<Disk>, pid: usize) -> &MemorySet {
    &k.tasks[pid].as_ref().unwrap().inner.memory_set
}

fn place(k: &Kernel<Disk>, pid: usize, va: u64) -> (PhysPageNum, usize) {
    let va = VirtAddr::new(va);
    let pte = space(k, pid).translate(va.floor(), &k.shared.memory).unwrap();
    assert!(pte.is_valid());
    (pte.ppn(), va.page_offset() as usize)
}

fn peek(k: &Kernel<Disk>, pid: usize, va: u64) -> u8 {
    let (ppn, offset) = place(k, pid, va);
    k.shared.memory.read_byte(ppn, offset)
}

fn poke(k: &mut Kernel<Disk>, va: u64, bytes: &[u8]) {
    let pid = k.current_task().unwrap();
    for (i, b) in bytes.iter().enumerate() {
        let (ppn, offset) = place(k, pid, va + i as u64);
        k.shared.memory.write_byte(ppn, offset, *b);
    }
}

fn saved(k: &Kernel<Disk>, pid: usize, i: usize) -> u64 {
    let ppn = k.tasks[pid].as_ref().unwrap().inner.trap_cx_ppn;
    k.shared.memory.read_word(ppn, i)
}

fn status(k: &Kernel<Disk>, pid: usize) -> TaskStatus {
    k.tasks[pid].as_ref().unwrap().inner.get_status()
}

#[test]
fn the_first_process_is_ready_to_start() {
    let k = kernel();
    assert_eq!(sys_getpid(&k), 0);
    assert_eq!(status(&k, 0), TaskStatus::Running);
    let t = k.tasks[0].as_ref().unwrap();
    assert_eq!(t.getpid(), 0);
    assert_eq!(t.inner.base_size, STACK_TOP);
    assert_eq!((t.inner.priority, t.inner.stride), (16, 0));
    assert_eq!(
        t.inner.fd_table,
        vec![Some(FileRef::Stdin), Some(FileRef::Stdout), Some(FileRef::Stdout)]
    );
    assert_eq!(peek(&k, 0, 0x10000), 1);
    assert_eq!(peek(&k, 0, 0x10010), 0);
    let cx = k.current_trap_cx();
    assert_eq!((cx.sepc, cx.x[2]), (0x10001, STACK_TOP));
    assert_eq!(cx.kernel_satp, k.shared.kernel_space.token());
    assert_eq!((cx.kernel_sp, cx.trap_handler), (0xffff_ffff_ffff_f000, 0x8000_2000));
    assert_eq!(cx.sstatus, 0);
    assert_eq!(
        k.trap_return(0x8000_1000, 0x8000_1058),
        (TRAMPOLINE + 0x58, TRAP_CONTEXT_BASE, space(&k, 0).token())
    );
    assert_eq!(k.current_user_token(), space(&k, 0).token());
}

#[test]
fn fork_returns_twice() {
    let mut k = kernel();
    poke(&mut k, 0x10100, b"parent");
    assert_eq!(k.shared.memory.read_word(place(&k, 0, TRAP_CONTEXT_BASE).0, 2), STACK_TOP);
    let ppn = k.tasks[0].as_ref().unwrap().inner.trap_cx_ppn;
    k.shared.memory.write_word(ppn, 10, 77);
    k.shared.memory.write_word(ppn, 5, 55);
    assert_eq!(sys_fork(&mut k), 1);
    assert_eq!((saved(&k, 0, 10), saved(&k, 1, 10)), (77, 0));
    assert_eq!((saved(&k, 0, 5), saved(&k, 1, 5)), (55, 55));
    assert_eq!(saved(&k, 0, 35), 0xffff_ffff_ffff_f000);
    assert_eq!(saved(&k, 1, 35), 0xffff_ffff_ffff_c000);
    let child = k.tasks[1].as_ref().unwrap();
    assert_eq!(child.inner.parent, Some(0));
    assert_eq!(child.inner.fd_table, k.tasks[0].as_ref().unwrap().inner.fd_table);
    assert_eq!(k.tasks[0].as_ref().unwrap().inner.children, vec![1]);
    assert_eq!(peek(&k, 1, 0x10100), b'p');
    poke(&mut k, 0x10100, b"P");
    assert_eq!((peek(&k, 0, 0x10100), peek(&k, 1, 0x10100)), (b'P', b'p'));
    k.finish_syscall(1);
    assert_eq!(saved(&k, 0, 10), 1);
    // the child runs next
    assert_eq!(sys_yield(&mut k), 0);
    assert_eq!(k.run_tasks(), Some(1));
    assert_eq!(sys_getpid(&k), 1);
    k.suspend_current_and_run_next();
    assert_eq!(k.run_tasks(), Some(0));
}

#[test]
fn children_are_waited_for() {
    let mut k = kernel();
    let before = k.shared.memory.available();
    assert_eq!(sys_waitpid(-1, 0x10200, &mut k), -1);
    assert_eq!(sys_fork(&mut k), 1);
    assert_eq!(sys_waitpid(-1, 0x10200, &mut k), -2);
    assert_eq!(sys_waitpid(1, 0x10200, &mut k), -2);
    assert_eq!(sys_waitpid(2, 0x10200, &mut k), -1);
    sys_yield(&mut k);
    assert_eq!(k.run_tasks(), Some(1));
    assert_eq!(sys_exit(-5, &mut k), 1);
    assert_eq!(status(&k, 1), TaskStatus::Zombie);
    assert!(k.tasks[1].as_ref().unwrap().inner.is_zombie());
    assert_eq!(k.run_tasks(), Some(0));
    assert_eq!(sys_waitpid(2, 0x10200, &mut k), -1);
    assert_eq!(sys_waitpid(1, 0x10200, &mut k), 1);
    assert!(k.tasks[1].is_none());
    assert_eq!(peek(&k, 0, 0x10200), 0xfb);
    assert_eq!(peek(&k, 0, 0x10203), 0xff);
    assert_eq!(sys_waitpid(-1, 0x10200, &mut k), -1);
    // all frames are back, but for the tables of the kernel stacks
    assert!(before - k.shared.memory.available() <= 2);
    // and so is the number
    assert_eq!(sys_fork(&mut k), 1);
}

#[test]
fn orphans_go_to_the_first_process() {
    let mut k = kernel();
    assert_eq!(sys_fork(&mut k), 1);
    sys_yield(&mut k);
    assert_eq!(k.run_tasks(), Some(1));
    assert_eq!(sys_fork(&mut k), 2);
    assert_eq!(k.tasks[2].as_ref().unwrap().inner.parent, Some(1));
    sys_exit(3, &mut k);
    let init = k.tasks[0].as_ref().unwrap();
    assert_eq!(init.inner.children, vec![1, 2]);
    assert_eq!(k.tasks[2].as_ref().unwrap().inner.parent, Some(0));
    assert!(k.tasks[1].as_ref().unwrap().inner.children.is_empty());
    assert!(k.tasks[1].as_ref().unwrap().inner.fd_table.is_empty());
    assert_eq!(k.run_tasks(), Some(0));
    assert_eq!(sys_waitpid(2, 0x10200, &mut k), -2);
    assert_eq!(sys_waitpid(-1, 0x10200, &mut k), 1);
}

#[test]
fn exec_replaces_the_program() {
    let mut k = kernel();
    sys_fork(&mut k);
    sys_yield(&mut k);
    k.run_tasks();
    poke(&mut k, 0x10200, b"none\0prog\0");
    let free = k.shared.memory.available();
    assert_eq!(sys_exec(0x10200, &mut k), -1);
    assert_eq!(peek(&k, 1, 0x10200), b'n');
    assert_eq!(sys_exec(0x10205, &mut k), 0);
    assert_eq!(k.shared.memory.available(), free);
    assert_eq!(peek(&k, 1, 0x10000), 2);
    assert_eq!(peek(&k, 1, 0x10200), 0);
    assert_eq!(peek(&k, 0, 0x10000), 1);
    let cx = k.current_trap_cx();
    assert_eq!((cx.sepc, cx.x[2], cx.kernel_sp), (0x10002, STACK_TOP, 0xffff_ffff_ffff_c000));
}

#[test]
fn spawn_starts_a_program() {
    let mut k = kernel();
    poke(&mut k, 0x10200, b"none\0prog\0");
    assert_eq!(sys_spawn(0x10200, &mut k), -1);
    assert_eq!(sys_spawn(0x10205, &mut k), 1);
    assert_eq!(peek(&k, 1, 0x10000), 2);
    let child = k.tasks[1].as_ref().unwrap();
    assert_eq!((child.inner.parent, child.inner.fd_table.len()), (Some(0), 3));
    assert_eq!(saved(&k, 1, 33), 0x10002);
    assert_eq!(k.tasks[0].as_ref().unwrap().inner.children, vec![1]);
    assert_eq!(status(&k, 1), TaskStatus::Ready);
}

#[test]
fn memory_can_be_mapped() {
    let mut k = kernel();
    let free = k.shared.memory.available();
    assert_eq!(sys_mmap(0x2000_0001, 1, 1, &mut k), -1);
    assert_eq!(sys_mmap(0x2000_0000, 1, 0, &mut k), -1);
    assert_eq!(sys_mmap(0x2000_0000, 1, 8, &mut k), -1);
    assert_eq!(sys_mmap(0x10000, 1, 1, &mut k), -1);
    assert_eq!(k.shared.memory.available(), free);
    assert_eq!(sys_mmap(0x2000_0000, 0x1800, 3, &mut k), 0);
    assert_eq!(peek(&k, 0, 0x2000_1fff), 0);
    assert_eq!(sys_mmap(0x2000_1000, 1, 3, &mut k), -1);
    assert_eq!(sys_munmap(0x2000_0001, 1, &mut k), -1);
    let held = k.shared.memory.available();
    assert_eq!(sys_munmap(0x2000_0000, 0x1800, &mut k), 0);
    assert_eq!(k.shared.memory.available(), held + 2);
    assert_eq!(sys_munmap(0x2000_0000, 1, &mut k), -1);
}

#[test]
fn senseless_requests_are_refused_first() {
    let mut k = kernel();
    assert_eq!(sys_mmap(0x2000_0001, u64::MAX, 1, &mut k), -1);
    assert_eq!(sys_mmap(0x2000_0000, u64::MAX, 0, &mut k), -1);
    assert_eq!(sys_mmap(0x2000_0000, u64::MAX, 9, &mut k), -1);
    assert_eq!(sys_munmap(1, u64::MAX, &mut k), -1);
    assert_eq!(sys_munmap(TRAP_CONTEXT_BASE + 8, 8, &mut k), -1);
    // no buffer is looked at
    assert!(matches!(sys_read(9, 0x7777_7777, u64::MAX, &mut k), ReadStep::Done(-1)));
    assert!(matches!(sys_read(1, 0x7777_7777, u64::MAX, &mut k), ReadStep::Done(-1)));
    assert!(matches!(sys_write(9, 0x7777_7777, u64::MAX, &mut k), WriteStep::Done(-1)));
    assert!(matches!(sys_write(0, 0x7777_7777, u64::MAX, &mut k), WriteStep::Done(-1)));
    poke(&mut k, 0x10200, b"prog\0");
    assert_eq!(sys_open(0x10200, OPEN_RDONLY, &mut k), 3);
    assert!(matches!(sys_write(3, 0x7777_7777, u64::MAX, &mut k), WriteStep::Done(-1)));
    assert_eq!(k.current_task(), Some(0));
}

#[test]
fn only_mapped_pages_are_unmapped() {
    let mut k = kernel();
    let mapped = |k: &Kernel<Disk>, va: u64| {
        let pte = space(k, 0).translate(VirtAddr::new(va).floor(), &k.shared.memory);
        pte.is_some_and(|e| e.is_valid())
    };
    assert_eq!(sys_mmap(0x2000_0000, 0x2000, 3, &mut k), 0);
    assert_eq!(sys_mmap(0x2000_3000, 0x1000, 1, &mut k), 0);
    // the third page is not mapped: the two before it are lost
    assert_eq!(sys_munmap(0x2000_0000, 0x4000, &mut k), -1);
    assert!(!mapped(&k, 0x2000_0000) && !mapped(&k, 0x2000_1000));
    assert!(mapped(&k, 0x2000_3000) && mapped(&k, 0x10000));
    // pages of two areas
    assert_eq!(sys_mmap(0x2000_0000, 0x3000, 3, &mut k), 0);
    assert_eq!(sys_munmap(0x2000_1000, 0x3000, &mut k), 0);
    assert!(mapped(&k, 0x2000_0000));
    assert!(!mapped(&k, 0x2000_1000) && !mapped(&k, 0x2000_3000));
    // pages that the program came with
    assert_eq!(sys_munmap(0x10000, 1, &mut k), 0);
    assert!(!mapped(&k, 0x10000));
    // no page at all
    assert_eq!(sys_munmap(0x10000, 0, &mut k), 0);
    assert_eq!(sys_munmap(TRAMPOLINE, 1, &mut k), -1);
}

#[test]
fn the_heap_comes_back_to_where_it_was() {
    let mut k = kernel();
    let valid = |k: &Kernel<Disk>| {
        let pages = (STACK_TOP / 4096)..(STACK_TOP / 4096 + 8);
        pages
            .filter(|v| {
                let pte = space(k, 0).translate(VirtAddr::new(v * 4096).floor(), &k.shared.memory);
                pte.is_some_and(|e| e.is_valid())
            })
            .count()
    };
    assert_eq!(valid(&k), 0);
    assert_eq!(sys_sbrk(5000, &mut k), STACK_TOP as i64);
    assert_eq!(valid(&k), 2);
    let free = k.shared.memory.available();
    for n in [0i32, 1, 3192, 3193, 20000] {
        assert_eq!(sys_sbrk(n, &mut k), STACK_TOP as i64 + 5000);
        assert_eq!(valid(&k), (5000 + n as usize).div_ceil(4096));
        assert_eq!(sys_sbrk(-n, &mut k), STACK_TOP as i64 + 5000 + n as i64);
        assert_eq!(inner(&k, 0).program_brk, STACK_TOP + 5000);
        assert_eq!((valid(&k), k.shared.memory.available()), (2, free));
    }
    assert_eq!(sys_sbrk(-5000, &mut k), STACK_TOP as i64 + 5000);
    assert_eq!(valid(&k), 0);
    assert_eq!(sys_sbrk(5000, &mut k), STACK_TOP as i64);
    assert_eq!(valid(&k), 2);
    assert_eq!(sys_sbrk(-5001, &mut k), -1);
    assert_eq!(sys_sbrk(i32::MIN, &mut k), -1);
    assert_eq!((inner(&k, 0).program_brk, valid(&k)), (STACK_TOP + 5000, 2));
}

#[test]
fn the_heap_grows_and_shrinks() {
    let mut k = kernel();
    assert_eq!(sys_sbrk(0, &mut k), STACK_TOP as i64);
    assert_eq!(sys_sbrk(5000, &mut k), STACK_TOP as i64);
    assert_eq!(peek(&k, 0, STACK_TOP + 4999), 0);
    assert_eq!(sys_sbrk(-6000, &mut k), -1);
    assert_eq!(sys_sbrk(-4000, &mut k), STACK_TOP as i64 + 5000);
    assert_eq!(sys_sbrk(0, &mut k), STACK_TOP as i64 + 1000);
    assert_eq!(peek(&k, 0, STACK_TOP + 999), 0);
    let pte = space(&k, 0)
        .translate(VirtAddr::new(STACK_TOP + 4096).floor(), &k.shared.memory)
        .unwrap();
    assert!(!pte.is_valid());
}

#[test]
fn the_time_may_lie_in_two_pages() {
    let mut k = kernel();
    assert_eq!(sys_get_time(0x12ff8, 3_000_007, &mut k), 0);
    assert_eq!((peek(&k, 0, 0x12ff8), peek(&k, 0, 0x13000)), (3, 7));
    assert_eq!(peek(&k, 0, 0x13001), 0);
}

#[test]
fn priorities_share_the_time() {
    let mut k = kernel();
    assert_eq!(sys_set_priority(1, &mut k), -1);
    assert_eq!(sys_set_priority(8, &mut k), 8);
    sys_fork(&mut k);
    // the strides are 125 and 62 per slice
    let mut slices = [0; 2];
    for _ in 0..300 {
        let pid = k.tick(1000);
        slices[pid] += 1;
        let s = [0, 1].map(|p| k.tasks[p].as_ref().unwrap().inner.stride);
        assert!((s[0] - s[1]).abs() <= 500);
        k.run_tasks().unwrap();
    }
    assert!(slices[1] > 190 && slices[0] > 95);
}

#[test]
fn files_are_written_and_read() {
    let mut k = kernel();
    poke(&mut k, 0x10200, b"new\0");
    assert_eq!(sys_open(0x10200, OPEN_RDONLY, &mut k), -1);
    assert_eq!(sys_open(0x10200, OPEN_CREATE | OPEN_WRONLY, &mut k), 3);
    // a buffer in two pages
    poke(&mut k, 0x12ffd, b"abcdef");
    assert!(matches!(sys_write(3, 0x12ffd, 6, &mut k), WriteStep::Done(6)));
    assert!(matches!(sys_write(3, 0x12ffd, 2, &mut k), WriteStep::Done(2)));
    assert!(matches!(sys_write(3, 0x12ffd, 0, &mut k), WriteStep::Done(0)));
    assert!(matches!(sys_read(3, 0x10300, 4, &mut k), ReadStep::Done(-1)));
    assert!(matches!(sys_write(7, 0x12ffd, 2, &mut k), WriteStep::Done(-1)));
    assert_eq!(sys_close(3, &mut k), 0);
    assert_eq!(sys_close(3, &mut k), -1);
    assert_eq!(sys_close(9, &mut k), -1);
    assert!(matches!(sys_write(3, 0x12ffd, 2, &mut k), WriteStep::Done(-1)));
    assert_eq!(sys_open(0x10200, OPEN_RDONLY, &mut k), 3);
    assert!(matches!(sys_write(3, 0x12ffd, 2, &mut k), WriteStep::Done(-1)));
    poke(&mut k, 0x12fff, &[0; 8]);
    assert!(matches!(sys_read(3, 0x12ffe, 5, &mut k), ReadStep::Done(5)));
    let got: Vec<u8> = (0..6).map(|i| peek(&k, 0, 0x12ffe + i)).collect();
    assert_eq!(got, b"abcde\0".to_vec());
    assert!(matches!(sys_read(3, 0x10300, 100, &mut k), ReadStep::Done(3)));
    assert_eq!((peek(&k, 0, 0x10300), peek(&k, 0, 0x10302)), (b'f', b'b'));
    assert!(matches!(sys_read(3, 0x10300, 100, &mut k), ReadStep::Done(0)));
    assert!(matches!(sys_read(8, 0x10300, 100, &mut k), ReadStep::Done(-1)));
}

#[test]
fn a_fork_shares_the_place_in_a_file() {
    let mut k = kernel();
    poke(&mut k, 0x10200, b"prog\0");
    assert_eq!(sys_open(0x10200, OPEN_RDONLY, &mut k), 3);
    assert!(matches!(sys_read(3, 0x10300, 1, &mut k), ReadStep::Done(1)));
    sys_fork(&mut k);
    sys_yield(&mut k);
    k.run_tasks();
    assert!(matches!(sys_read(3, 0x10301, 3, &mut k), ReadStep::Done(3)));
    assert_eq!(peek(&k, 1, 0x10301), b'E');
    sys_yield(&mut k);
    k.run_tasks();
    assert!(matches!(sys_read(3, 0x10301, 1, &mut k), ReadStep::Done(1)));
    assert_eq!(peek(&k, 0, 0x10301), 2);
}

#[test]
fn the_console_is_a_file() {
    let mut k = kernel();
    poke(&mut k, 0x12ffe, "h\u{e9}!".as_bytes());
    match sys_write(1, 0x12ffe, 4, &mut k) {
        WriteStep::NoText => {},
        _ => panic!("a character lies in two pages"),
    }
    match sys_write(1, 0x12fff, 1, &mut k) {
        WriteStep::NoText => {},
        _ => panic!("half a character"),
    }
    poke(&mut k, 0x12ffd, "h\u{e9}!".as_bytes());
    match sys_write(2, 0x12ffd, 4, &mut k) {
        WriteStep::Screen(texts, n) => {
            assert_eq!(n, 4);
            assert_eq!(texts, vec!["h\u{e9}".to_string(), "!".to_string()]);
        },
        _ => panic!("no text"),
    }
    assert!(matches!(sys_write(0, 0x12ffd, 4, &mut k), WriteStep::Done(-1)));
    assert!(matches!(sys_read(1, 0x12ffd, 1, &mut k), ReadStep::Done(-1)));
    assert!(matches!(sys_read(0, 0x12ffd, 1, &mut k), ReadStep::Keyboard));
    assert!(matches!(read_key(0x12ffd, 0, &mut k), StdinStep::Wait));
    assert_eq!(k.current_task(), None);
    assert_eq!(k.run_tasks(), Some(0));
    assert!(matches!(read_key(0x12ffd, 0x141, &mut k), StdinStep::Done(1)));
    assert_eq!(peek(&k, 0, 0x12ffd), b'A');
}

#[test]
fn files_have_records_and_names() {
    let mut k = kernel();
    poke(&mut k, 0x10200, b"prog\0copy\0");
    assert_eq!(sys_linkat(0x10200, 0x10200, &mut k), -1);
    assert_eq!(sys_linkat(0x10201, 0x10205, &mut k), -1);
    assert_eq!(sys_linkat(0x10200, 0x10205, &mut k), 0);
    assert_eq!(sys_open(0x10205, 4, &mut k), -1);
    assert_eq!(sys_open(0x10205, OPEN_CREATE | 0x800, &mut k), -1);
    let fd = sys_open(0x10205, OPEN_RDONLY, &mut k);
    assert_eq!(sys_fstat(fd as usize, 0x12fec, &mut k), 0);
    // the second file of the disk, a regular file with two names
    assert_eq!(peek(&k, 0, 0x12ff4), 2);
    assert_eq!((peek(&k, 0, 0x12ffd), peek(&k, 0, 0x13000)), (0x80, 2));
    assert_eq!(sys_fstat(1, 0x12fec, &mut k), -1);
    assert_eq!(sys_fstat(9, 0x12fec, &mut k), -1);
    assert_eq!(sys_unlinkat(0x10200, &mut k), 0);
    assert_eq!(sys_unlinkat(0x10200, &mut k), -1);
    assert!(matches!(sys_read(fd as usize, 0x10300, 4, &mut k), ReadStep::Done(4)));
    assert_eq!(peek(&k, 0, 0x10301), b'E');
}

#[test]
fn traps_are_handled() {
    let mut k = kernel();
    let ppn = k.tasks[0].as_ref().unwrap().inner.trap_cx_ppn;
    for i in 0..32 {
        k.shared.memory.write_word(ppn, i, 200 + i as u64);
    }
    match k.trap_handler(8, 1000) {
        TrapStep::Syscall(id, args) => {
            assert_eq!(id, 217);
            assert_eq!(args, [210, 211, 212, 213]);
        },
        _ => panic!("a request"),
    }
    assert_eq!(saved(&k, 0, 33), 0x10001 + 4);
    k.finish_syscall(-1);
    assert_eq!(saved(&k, 0, 10), u64::MAX);
    assert_eq!(saved(&k, 0, 11), 211);
    assert!(matches!(k.trap_handler(3, 1000), TrapStep::Unsupported));
    assert!(matches!(k.trap_handler(0x8000_0000_0000_0009, 1000), TrapStep::Unsupported));
    sys_fork(&mut k);
    match k.trap_handler(0x8000_0000_0000_0005, 1000) {
        TrapStep::Suspended(pid) => assert_eq!(pid, 0),
        _ => panic!("the timer"),
    }
    assert_eq!(k.tasks[0].as_ref().unwrap().inner.stride, 62);
    assert_eq!(k.run_tasks(), Some(1));
    assert_eq!(sys_fork(&mut k), 2);
    match k.trap_handler(15, 1000) {
        TrapStep::Killed(pid) => assert_eq!(pid, 1),
        _ => panic!("a fault"),
    }
    assert_eq!(k.tasks[1].as_ref().unwrap().inner.exit_code, -2);
    assert_eq!(k.run_tasks(), Some(2));
    assert!(matches!(k.trap_handler(2, 1000), TrapStep::Killed(2)));
    assert_eq!(k.tasks[2].as_ref().unwrap().inner.exit_code, -3);
    assert_eq!(k.run_tasks(), Some(0));
}

#[test]
fn without_ready_tasks_nothing_runs() {
    let mut k = kernel();
    assert_eq!(k.take_current_task(), Some(0));
    assert_eq!(k.take_current_task(), None);
    assert_eq!(k.fetch_task(), None);
    k.add_task(0);
    assert_eq!(k.fetch_task(), Some(0));
}

fn inner(k: &Kernel<Disk>, pid: usize) -> &TaskControlBlockInner {
    &k.tasks[pid].as_ref().unwrap().inner
}

#[test]
fn addresses_are_tested_before_they_are_used() {
    let mut k = kernel();
    assert!(is_framed(space(&k, 0), 0x10000));
    assert!(is_framed(space(&k, 0), 0x10fff));
    assert!(!is_framed(space(&k, 0), 0x11000));
    assert!(!is_framed(space(&k, 0), TRAMPOLINE));
    // the page behind the program is free, then comes the stack
    assert!(is_buffer(space(&k, 0), 0x10ff0, 16));
    assert!(!is_buffer(space(&k, 0), 0x10ff0, 17));
    assert!(is_buffer(space(&k, 0), 0x12ff0, 0x1010));
    assert!(!is_buffer(space(&k, 0), 0x12ff0, 0x1011));
    assert!(is_buffer(space(&k, 0), 0, 0));
    assert!(!is_buffer(space(&k, 0), u64::MAX, 2));
    poke(&mut k, 0x10ffc, b"abc\0");
    assert!(is_text_at(space(&k, 0), 0x10ffc, &k.shared.memory));
    poke(&mut k, 0x10fff, b"d");
    assert!(!is_text_at(space(&k, 0), 0x10ffc, &k.shared.memory));
    assert!(!is_text_at(space(&k, 0), 0x11000, &k.shared.memory));
}

#[test]
fn requests_are_tested_before_they_are_met() {
    let mut k = kernel();
    assert!(has_numbers_left(&k.shared));
    assert!(is_startable(&k.shared, &program(7)));
    assert!(!is_startable(&k.shared, b"no program"));
    assert!(is_copyable(space(&k, 0), &k.shared));
    assert!(is_brk_movable(inner(&k, 0), 0x2000, &k.shared.memory));
    assert!(is_brk_movable(inner(&k, 0), -1, &k.shared.memory));
    assert!(!is_brk_movable(inner(&k, 0), 0x4000_0000, &k.shared.memory));
    poke(&mut k, 0x10100, b"prog\0none\0text\0");
    poke(&mut k, 0x10200, b"no program");
    let fd = sys_open(0x1010a, OPEN_CREATE | OPEN_WRONLY, &mut k);
    assert!(matches!(sys_write(fd as usize, 0x10200, 10, &mut k), WriteStep::Done(10)));
    assert!(is_executable_at(0x10100, &mut k));
    assert!(is_executable_at(0x10105, &mut k));
    assert!(!is_executable_at(0x1010a, &mut k));
    assert!(is_spawnable_at(0x10100, &mut k));
    assert!(is_spawnable_at(0x10105, &mut k));
    assert!(!is_spawnable_at(0x1010a, &mut k));
    // when few frames are left, the program still fits but not another process
    while k.shared.memory.available() > 8 {
        k.shared.memory.frame_alloc().unwrap();
    }
    assert!(!is_copyable(space(&k, 0), &k.shared));
    assert!(!is_startable(&k.shared, &program(7)));
    assert!(!is_spawnable_at(0x10100, &mut k));
    assert!(!is_brk_movable(inner(&k, 0), 0x9000, &k.shared.memory));
    assert_eq!(sys_mmap(0x100_0000, 0x9000, 3, &mut k), -1);
}

#[test]
fn dead_children_are_seen() {
    let mut k = kernel();
    assert!(!has_dead_child(-1, &k));
    assert_eq!(sys_fork(&mut k), 1);
    assert!(!has_dead_child(-1, &k));
    assert_eq!(sys_yield(&mut k), 0);
    assert_eq!(k.run_tasks(), Some(1));
    assert_eq!(sys_exit(3, &mut k), 1);
    assert_eq!(k.run_tasks(), Some(0));
    assert!(has_dead_child(-1, &k));
    assert!(has_dead_child(1, &k));
    assert!(!has_dead_child(2, &k));
}

#[test]
fn the_kernel_tests_how_it_starts() {
    let mut memory = Memory::new(PhysPageNum(0x80000), 1024);
    memory.init_frame_allocator(0x8010_0000, 0x8040_0000);
    assert!(does_layout_fit(&layout(), &memory));
    let mut crooked = layout();
    crooked.strampoline = 0x8000_1001;
    assert!(!does_layout_fit(&crooked, &memory));
    let mut high = layout();
    high.mmio = vec![(0x40_0000_0000, 0x1000)];
    assert!(!does_layout_fit(&high, &memory));
    high.mmio = vec![(u64::MAX, 1)];
    assert!(!does_layout_fit(&high, &memory));
    high.mmio = vec![(0x1000_0000, 0x1000)];
    assert!(does_layout_fit(&high, &memory));
    let shared = Shared::new(&layout(), memory, entry());
    assert_eq!(shared.kernel_token(), shared.kernel_space.token());
    assert!(is_bootable(&shared, &mut file_system()));
    let mut empty = EasyFileSystem::create(Disk { blocks: vec![[0; BLOCK_SZ]; 4096] }, 4096, 1);
    assert!(!is_bootable(&shared, &mut empty));
}

#[test]
fn files_can_be_read_when_their_name_is_gone() {
    let mut k = kernel();
    poke(&mut k, 0x10100, b"text\0");
    poke(&mut k, 0x10200, b"content");
    let fd = sys_open(0x10100, OPEN_CREATE | OPEN_RDWR, &mut k) as usize;
    assert!(matches!(sys_write(fd, 0x10200, 7, &mut k), WriteStep::Done(7)));
    assert_eq!(sys_unlinkat(0x10100, &mut k), 0);
    assert!(matches!(sys_read(fd, 0x10300, 7, &mut k), ReadStep::Done(0)));
    assert_eq!(sys_fstat(fd, 0x10400, &mut k), 0);
    assert_eq!(peek(&k, 0, 0x10414), 0);
    assert_eq!(sys_open(0x10100, OPEN_RDONLY, &mut k), -1);
}
