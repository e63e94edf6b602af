use rcore_kernel::mm::address::{
    PhysAddr, PhysPageNum, VPNRange, VirtAddr, VirtPageNum, TRAMPOLINE, TRAP_CONTEXT_BASE,
};
use rcore_kernel::mm::elf::{is_loadable, plan_program, read_image, SegmentKind};
use rcore_kernel::mm::frame_allocator::{Memory, StackFrameAllocator};
use rcore_kernel::mm::kernel_space::{remap_test, KernelLayout};
use rcore_kernel::mm::map_area::{MapArea, MapPermission, MapType};
use rcore_kernel::mm::memory_set::MemorySet;
use rcore_kernel::mm::page_table::{PTEFlags, PageTable, PageTableEntry};
use rcore_kernel::mm::user::{
    translated_byte_buffer, translated_ref, translated_refmut, translated_str, write_user_i32, UserBuffer,
};

/// 1024 pages from 0x80000 on, of which the upper 768 are handed out.
fn memory() -> Memory {
    let mut memory = Memory::new(PhysPageNum(0x80000), 1024);
    memory.init_frame_allocator(0x8010_0000, 0x8040_0000);
    memory
}

const STRAMPOLINE: u64 = 0x8000_1000;

fn segment(kind: u32, flags: u32, offset: u64, vaddr: u64, filesz: u64, memsz: u64) -> Vec<u8> {
    let mut h = Vec::new();
    h.extend(kind.to_le_bytes());
    h.extend(flags.to_le_bytes());
    for x in [offset, vaddr, vaddr, filesz, memsz, 4096] {
        h.extend(x.to_le_bytes());
    }
    h
}

/// A program file with these program headers and this data behind them.
fn elf(entry: u64, headers: &[Vec<u8>], data: &[u8]) -> Vec<u8> {
    let mut f = vec![0x7f, 0x45, 0x4c, 0x46, 2, 1, 1, 0, 0, 0, 0, 0, 0, 0, 0, 0];
    f.extend(2u16.to_le_bytes());
    f.extend(243u16.to_le_bytes());
    f.extend(1u32.to_le_bytes());
    f.extend(entry.to_le_bytes());
    f.extend(64u64.to_le_bytes());
    f.extend(0u64.to_le_bytes());
    f.extend(0u32.to_le_bytes());
    f.extend(64u16.to_le_bytes());
    f.extend(56u16.to_le_bytes());
    f.extend((headers.len() as u16).to_le_bytes());
    f.extend([0u8; 6]);
    for h in headers {
        f.extend(h);
    }
    f.extend(data);
    f
}

fn small_program() -> Vec<u8> {
    let data: Vec<u8> = (0..5000).map(|i| (i % 251) as u8).collect();
    let at = 64 + 2 * 56;
    elf(
        0x10010,
        &[
            segment(1, 5, at, 0x10000, 5000, 5000),
            segment(1, 6, at + 4000, 0x13000, 100, 9000),
        ],
        &data,
    )
}

fn byte(ms: &MemorySet, va: u64, memory: &Memory) -> u8 {
    let va = VirtAddr::new(va);
    let pte = ms.translate(va.floor(), memory).unwrap();
    assert!(pte.is_valid());
    memory.read_byte(pte.ppn(), va.page_offset() as usize)
}

#[test]
fn addresses_and_pages() {
    assert_eq!(PhysAddr::new(0xff00_0000_0000_1234).0, 0x1234);
    assert_eq!(PhysAddr::new(0x1fff).floor().0, 1);
    assert_eq!(PhysAddr::new(0x1001).ceil().0, 2);
    assert_eq!(PhysAddr::new(0x1234).page_offset(), 0x234);
    assert_eq!(PhysPageNum::new(3).start().0, 0x3000);
    assert_eq!(VirtAddr::new(TRAMPOLINE).floor().0, 0x7ff_ffff);
    assert_eq!(VirtAddr::new(TRAP_CONTEXT_BASE).floor().0, 0x7ff_fffe);
    assert_eq!(VirtPageNum::new(0x7ff_ffff).indexes(), [511, 511, 511]);
    assert_eq!(VirtPageNum::new(1 + (2 << 9) + (3 << 18)).indexes(), [3, 2, 1]);
    let range = VPNRange::new(VirtPageNum(2), VirtPageNum(5));
    assert_eq!((range.get_start().0, range.get_end().0), (2, 5));
}

#[test]
fn frames_come_back_last_first() {
    let mut frames = StackFrameAllocator::new();
    frames.init(PhysPageNum(10), PhysPageNum(13));
    assert_eq!(frames.available(), 3);
    assert_eq!(frames.allocate().unwrap().0, 10);
    assert_eq!(frames.allocate().unwrap().0, 11);
    frames.dealloc(PhysPageNum(10));
    frames.dealloc(PhysPageNum(11));
    assert_eq!(frames.allocate().unwrap().0, 11);
    assert_eq!(frames.allocate().unwrap().0, 10);
    assert_eq!(frames.allocate().unwrap().0, 12);
    assert!(frames.allocate().is_none());
    assert_eq!(frames.available(), 0);
}

#[test]
fn new_frames_are_empty() {
    let mut memory = memory();
    assert_eq!(memory.available(), 768);
    let a = memory.frame_alloc().unwrap().ppn;
    assert_eq!(a.0, 0x80100);
    memory.write_word(a, 3, 0x1122_3344_5566_7788);
    assert_eq!(memory.read_word(a, 3), 0x1122_3344_5566_7788);
    assert_eq!(memory.read_byte(a, 24), 0x88);
    memory.frame_dealloc(a);
    let b = memory.frame_alloc().unwrap().ppn;
    assert_eq!(b.0, a.0);
    assert_eq!(memory.read_word(b, 3), 0);
    let c = memory.frame_alloc().unwrap().ppn;
    memory.write_page(b, 4094, &[7, 8]);
    memory.copy_page(b, c);
    assert_eq!(memory.read_page(c, 4093, 4096), vec![0, 7, 8]);
    memory.clear_page(c);
    assert_eq!(memory.read_page(c, 4093, 4096), vec![0, 0, 0]);
}

#[test]
fn entries_hold_a_page_and_flags() {
    let pte = PageTableEntry::new(PhysPageNum(0xabc_def0_1234), PTEFlags::from_bits(0x0b).unwrap());
    assert_eq!(pte.ppn().0, 0xabc_def0_1234);
    assert_eq!(pte.flags().bits, 0x0b);
    assert!(pte.is_valid() && pte.readable() && !pte.writable() && pte.executable());
    assert!(!PageTableEntry::empty().is_valid());
    assert_eq!(PTEFlags::empty().bits, 0);
}

#[test]
fn pages_are_mapped_and_unmapped() {
    let mut memory = memory();
    let mut table = PageTable::new(&mut memory);
    let vpn = VirtPageNum(0x12345);
    assert!(table.find_pte(vpn, &memory).is_none());
    table.map(vpn, PhysPageNum(0x80055), PTEFlags { bits: 6 }, &mut memory);
    assert_eq!(memory.available(), 768 - 3);
    let pte = table.translate(vpn, &memory).unwrap();
    assert_eq!((pte.ppn().0, pte.flags().bits), (0x80055, 7));
    let pa = table.translate_va(VirtAddr::new(0x1234_5678), &memory).unwrap();
    assert_eq!(pa.0, 0x8005_5678);
    // a neighbour shares the tables
    table.map(VirtPageNum(0x12346), PhysPageNum(0x80056), PTEFlags { bits: 2 }, &mut memory);
    assert_eq!(memory.available(), 768 - 3);
    table.unmap(vpn, &mut memory);
    assert!(!table.translate(vpn, &memory).unwrap().is_valid());
    assert!(table.translate(VirtPageNum(0x12346), &memory).unwrap().is_valid());
    let again = PageTable::from_token(table.token());
    assert_eq!(again.translate(VirtPageNum(0x12346), &memory).unwrap().ppn().0, 0x80056);
    assert_eq!(table.token() >> 60, 8);
    table.release(&mut memory);
    assert_eq!(memory.available(), 768);
}

#[test]
fn areas_take_frames_and_give_them_back() {
    let mut memory = memory();
    let mut ms = MemorySet::new_bare(&mut memory);
    assert_eq!(memory.available(), 767);
    let area = MapArea::new(
        VirtAddr::new(0x1800),
        VirtAddr::new(0x4001),
        MapType::Framed,
        MapPermission { bits: 6 },
    );
    assert_eq!((area.get_start().0, area.get_end().0), (1, 5));
    let data: Vec<u8> = (0..6000).map(|i| (i % 253) as u8).collect();
    ms.push(area, Some(&data), &mut memory);
    assert_eq!(memory.available(), 767 - 2 - 4);
    for i in [0usize, 1, 4095, 4096, 5999] {
        assert_eq!(byte(&ms, 0x1000 + i as u64, &memory), data[i]);
    }
    assert_eq!(byte(&ms, 0x1000 + 6000, &memory), 0);
    let pte = ms.translate(VirtPageNum(1), &memory).unwrap();
    assert!(pte.readable() && pte.writable() && !pte.executable());
    assert!(!ms.translate(VirtPageNum(5), &memory).unwrap().is_valid());
    // the end of the area moves
    assert!(ms.append_to(VirtAddr(0x1000), VirtAddr(0x7000), &mut memory));
    assert!(ms.translate(VirtPageNum(6), &memory).unwrap().is_valid());
    assert!(ms.shrink_to(VirtAddr(0x1000), VirtAddr(0x3000), &mut memory));
    assert!(ms.translate(VirtPageNum(2), &memory).unwrap().is_valid());
    assert!(!ms.translate(VirtPageNum(3), &memory).unwrap().is_valid());
    assert!(!ms.append_to(VirtAddr(0x9000), VirtAddr(0xa000), &mut memory));
    assert_eq!(memory.available(), 767 - 2 - 2);
    ms.remove_area_with_start_vpn(VirtPageNum(1), &mut memory);
    assert_eq!(memory.available(), 767 - 2);
    assert!(!ms.translate(VirtPageNum(1), &memory).unwrap().is_valid());
    ms.release(&mut memory);
    assert_eq!(memory.available(), 768);
}

#[test]
fn mmap_and_munmap() {
    let mut memory = memory();
    let mut ms = MemorySet::new_bare(&mut memory);
    assert_eq!(ms.map(0x1000_0000, 0x1001, 3, &mut memory), 0);
    let pte = ms.translate(VirtPageNum(0x10001), &memory).unwrap();
    assert_eq!(pte.flags().bits, 1 + 16 + 2 + 4);
    assert_eq!(ms.map(0x1000_1000, 1, 1, &mut memory), -1);
    assert_eq!(ms.map(0x0fff_f000, 0x1000, 1, &mut memory), 0);
    let before = memory.available();
    // more than there is
    assert_eq!(ms.map(0x2000_0000, 0x1000_0000, 1, &mut memory), -1);
    assert_eq!(memory.available(), before);
    assert_eq!(ms.munmap(0x1000_0000, 0x2000, &mut memory), 0);
    assert_eq!(memory.available(), before + 2);
    assert_eq!(ms.munmap(0x1000_0000, 0x1000, &mut memory), -1);
    assert_eq!(ms.munmap(0x0fff_f000, 0x2000, &mut memory), -1);
    assert_eq!(memory.available(), before + 3);
    assert_eq!(ms.map(0x1000_0000, 0, 1, &mut memory), 0);
}

#[test]
fn data_pages_can_be_given_back_first() {
    let mut memory = memory();
    let mut ms = MemorySet::new_bare(&mut memory);
    ms.insert_framed_area(
        VirtAddr::new(0x1000),
        VirtAddr::new(0x9000),
        MapPermission { bits: 2 },
        &mut memory,
    );
    assert_eq!(memory.available(), 768 - 3 - 8);
    ms.recycle_data_pages(&mut memory);
    assert_eq!(memory.available(), 768 - 3);
    ms.release(&mut memory);
    assert_eq!(memory.available(), 768);
}

#[test]
fn program_files_are_read() {
    let file = small_program();
    let image = read_image(&file).unwrap();
    assert_eq!(image.entry, 0x10010);
    assert_eq!(image.segments.len(), 2);
    let s = image.segments[0];
    assert_eq!((s.kind, s.vaddr, s.memsz, s.offset, s.filesz), (
        SegmentKind::Load,
        0x10000,
        5000,
        176,
        5000,
    ));
    assert!(s.readable && !s.writable && s.executable);
    let s = image.segments[1];
    assert!(s.readable && s.writable && !s.executable);
    assert_eq!((s.memsz, s.filesz), (9000, 100));
    // from any address
    for shift in 0..9 {
        let mut shifted = vec![0u8; shift];
        shifted.extend(&file);
        let image = read_image(&shifted[shift..]).unwrap();
        assert_eq!((image.entry, image.segments.len()), (0x10010, 2));
        assert_eq!(image.segments[1].vaddr, s.vaddr);
    }
}

#[test]
fn other_files_are_no_programs() {
    let file = small_program();
    assert!(read_image(&[]).is_none());
    assert!(read_image(&file[..63]).is_none());
    assert!(read_image(&file[..64]).is_none());
    assert!(read_image(&file[..100]).is_none());
    let mut bad = file.clone();
    bad[0] = 0x7e;
    assert!(read_image(&bad).is_none());
    let mut bad = file.clone();
    bad[4] = 3;
    assert!(read_image(&bad).is_none());
    // a program header of no known kind, and one of another kind
    let odd = elf(0, &[segment(9, 4, 0, 0, 0, 0)], &[]);
    assert!(read_image(&odd).is_none());
    let note = elf(0, &[segment(4, 4, 0, 0, 0, 0)], &[]);
    assert_eq!(read_image(&note).unwrap().segments[0].kind, SegmentKind::Other);
}

#[test]
fn programs_with_narrow_headers_are_read() {
    let mut f = vec![0x7f, 0x45, 0x4c, 0x46, 1, 1, 1, 0, 0, 0, 0, 0, 0, 0, 0, 0];
    f.extend(2u16.to_le_bytes());
    f.extend(243u16.to_le_bytes());
    for x in [1u32, 0x1234, 52, 0, 0] {
        f.extend(x.to_le_bytes());
    }
    for x in [52u16, 32, 1, 0, 0, 0] {
        f.extend(x.to_le_bytes());
    }
    for x in [1u32, 84, 0x8000, 0x8000, 4, 8, 5, 4096] {
        f.extend(x.to_le_bytes());
    }
    f.extend([1, 2, 3, 4]);
    let image = read_image(&f).unwrap();
    assert_eq!(image.entry, 0x1234);
    let s = image.segments[0];
    assert_eq!((s.vaddr, s.memsz, s.offset, s.filesz), (0x8000, 8, 84, 4));
    assert!(s.readable && !s.writable && s.executable);
}

#[test]
fn a_program_gets_its_address_space() {
    let mut memory = memory();
    let file = small_program();
    assert!(is_loadable(&file, &memory));
    let (ms, sp, entry) = MemorySet::from_elf(&file, STRAMPOLINE, &mut memory);
    assert_eq!(entry, 0x10010);
    // 0x13000 + 9000 ends in page 0x15; one page is left free, then comes the stack
    assert_eq!(sp, 0x16000 + 0x1000 + 0x2000);
    for i in [0u64, 4095, 4096, 4999] {
        assert_eq!(byte(&ms, 0x10000 + i, &memory), (i % 251) as u8);
    }
    assert_eq!(byte(&ms, 0x10000 + 5000, &memory), 0);
    assert_eq!(byte(&ms, 0x13000 + 99, &memory), (4099 % 251) as u8);
    assert_eq!(byte(&ms, 0x13000 + 100, &memory), 0);
    assert_eq!(byte(&ms, 0x15fff, &memory), 0);
    let flags = |v: u64| ms.translate(VirtPageNum(v), &memory).unwrap().flags().bits;
    assert_eq!(flags(0x10), 1 + 16 + 2 + 8);
    assert_eq!(flags(0x13), 1 + 16 + 2 + 4);
    assert_eq!(flags(0x16), 0);
    assert_eq!(flags(0x17), 1 + 16 + 2 + 4);
    assert_eq!(flags(0x18), 1 + 16 + 2 + 4);
    assert_eq!(flags(0x19), 0);
    assert_eq!(flags(0x7ff_fffe), 1 + 2 + 4);
    assert_eq!(flags(0x7ff_ffff), 1 + 2 + 8);
    assert_eq!(ms.translate(VirtPageNum(0x7ff_ffff), &memory).unwrap().ppn().0, 0x80001);
    ms.release(&mut memory);
    assert_eq!(memory.available(), 768);
}

#[test]
fn programs_that_do_not_fit_are_not_loadable() {
    let memory = memory();
    let at = 64 + 56;
    let large = elf(0, &[segment(1, 4, at, 0x10000, 0, 768 * 4096)], &[]);
    assert!(!is_loadable(&large, &memory));
    let torn = elf(0, &[segment(1, 4, at, 0x10000, 10, 10)], &[1, 2, 3]);
    assert!(!is_loadable(&torn, &memory));
    let twice = elf(
        0,
        &[segment(1, 4, 0, 0x10000, 10, 10), segment(1, 4, 0, 0x10000, 10, 10)],
        &[],
    );
    assert!(!is_loadable(&twice, &memory));
    assert!(!is_loadable(b"no program", &memory));
    let image = read_image(&elf(0, &[segment(1, 4, 0, u64::MAX, 0, 1)], &[])).unwrap();
    assert!(plan_program(&image.segments).is_none());
}

#[test]
fn a_copy_has_its_own_frames() {
    let mut memory = memory();
    let (ms, _, _) = MemorySet::from_elf(&small_program(), STRAMPOLINE, &mut memory);
    let used = 768 - memory.available();
    let copy = MemorySet::from_existed_user(&ms, STRAMPOLINE, &mut memory);
    assert_eq!(768 - memory.available(), 2 * used);
    let (a, b) = (
        ms.translate(VirtPageNum(0x10), &memory).unwrap(),
        copy.translate(VirtPageNum(0x10), &memory).unwrap(),
    );
    assert_ne!(a.ppn().0, b.ppn().0);
    assert_eq!(a.flags().bits, b.flags().bits);
    assert_eq!(memory.read_page(a.ppn(), 0, 4096), memory.read_page(b.ppn(), 0, 4096));
    memory.write_byte(b.ppn(), 0, 99);
    assert_eq!(byte(&ms, 0x10000, &memory), 0);
    assert_eq!(byte(&copy, 0x10000, &memory), 99);
}

#[test]
fn the_kernel_maps_its_parts() {
    let mut memory = memory();
    let layout = KernelLayout {
        stext: 0x8000_0000,
        etext: 0x8001_0000,
        srodata: 0x8001_0000,
        erodata: 0x8001_8000,
        sdata: 0x8001_8000,
        edata: 0x8001_a000,
        sbss_with_stack: 0x8001_a000,
        ebss: 0x8010_0000,
        ekernel: 0x8010_0000,
        memory_end: 0x8040_0000,
        strampoline: STRAMPOLINE,
        mmio: vec![(0x10_0000, 0x2000), (0x1000_1000, 0x1000)],
    };
    let ms = MemorySet::new_kernel(&layout, &mut memory);
    assert!(remap_test(&ms, &layout, &memory));
    let entry = |v: u64| ms.translate(VirtPageNum(v), &memory).unwrap();
    assert_eq!((entry(0x80000).ppn().0, entry(0x80000).flags().bits), (0x80000, 1 + 2 + 8));
    assert_eq!(entry(0x80010).flags().bits, 1 + 2);
    assert_eq!(entry(0x80018).flags().bits, 1 + 2 + 4);
    assert_eq!(entry(0x8003f).flags().bits, 1 + 2 + 4);
    assert_eq!((entry(0x803ff).ppn().0, entry(0x803ff).flags().bits), (0x803ff, 1 + 2 + 4));
    assert!(ms.translate(VirtPageNum(0x80400), &memory).is_none());
    assert!(!entry(0x102).is_valid());
    assert_eq!(entry(0x100).flags().bits, 1 + 2 + 4);
    assert_eq!(entry(0x10001).ppn().0, 0x10001);
    assert_eq!(entry(0x7ff_ffff).ppn().0, 0x80001);
}

/// An address space of two pages at 0x1000, which lie in different frames.
fn two_pages(memory: &mut Memory) -> MemorySet {
    let mut ms = MemorySet::new_bare(memory);
    ms.insert_framed_area(
        VirtAddr::new(0x1000),
        VirtAddr::new(0x3000),
        MapPermission { bits: 22 },
        memory,
    );
    ms
}

#[test]
fn buffers_are_cut_at_pages() {
    let mut memory = memory();
    let ms = two_pages(&mut memory);
    let runs = translated_byte_buffer(ms.token(), 0x1ffe, 5, &memory);
    assert_eq!(runs.len(), 2);
    assert_eq!((runs[0].start, runs[0].end), (4094, 4096));
    assert_eq!((runs[1].start, runs[1].end), (0, 3));
    assert_eq!(runs[0].ppn.0, ms.translate(VirtPageNum(1), &memory).unwrap().ppn().0);
    assert!(translated_byte_buffer(ms.token(), 0x1000, 0, &memory).is_empty());
    let buf = UserBuffer::new(runs);
    assert_eq!(buf.len(), 5);
    buf.scatter(b"abcdefg", &mut memory);
    assert_eq!(byte(&ms, 0x1fff, &memory), b'b');
    assert_eq!(byte(&ms, 0x2002, &memory), b'e');
    assert_eq!(byte(&ms, 0x2003, &memory), 0);
    let back = UserBuffer::new(translated_byte_buffer(ms.token(), 0x1ffd, 6, &memory));
    assert_eq!(back.gather(&memory), b"\0abcde".to_vec());
    let mut places = back.into_iter();
    let mut n = 0;
    while let Some((_, offset)) = places.next() {
        assert_eq!(offset, [4093, 4094, 4095, 0, 1, 2][n]);
        n += 1;
    }
    assert_eq!(n, 6);
}

#[test]
fn texts_end_at_the_first_zero() {
    let mut memory = memory();
    let ms = two_pages(&mut memory);
    UserBuffer::new(translated_byte_buffer(ms.token(), 0x1ffc, 8, &memory))
        .scatter(b"user\xe9sh\0", &mut memory);
    assert_eq!(translated_str(ms.token(), 0x1ffc, &memory), "user\u{e9}sh");
    assert_eq!(translated_str(ms.token(), 0x2003, &memory), "");
}

#[test]
fn integers_are_stored_for_programs() {
    let mut memory = memory();
    let ms = two_pages(&mut memory);
    let pa = translated_ref(ms.token(), 0x2010, &memory);
    let pte = ms.translate(VirtPageNum(2), &memory).unwrap();
    assert_eq!(pa.0, pte.ppn().0 * 4096 + 0x10);
    assert_eq!(translated_refmut(ms.token(), 0x2010, &memory).0, pa.0);
    write_user_i32(ms.token(), 0x2010, -2, &mut memory);
    assert_eq!(memory.read_page(pte.ppn(), 15, 21), vec![0, 0xfe, 0xff, 0xff, 0xff, 0]);
}
