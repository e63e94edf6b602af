//! Programs: what an ELF file says about the address space that the program needs.

use vstd::arithmetic::div_mod::lemma_fundamental_div_mod_converse;
use vstd::prelude::*;
use xmas_elf::program::Type;
use xmas_elf::ElfFile;

use super::address::{
    va_of, VirtAddr, VirtPageNum, PAGE_SIZE, TRAMPOLINE, TRAP_CONTEXT_BASE, VPN_COUNT,
};
use super::frame_allocator::Memory;
use super::laws::{lemma_segment_mapped, segment_end};
use super::map_area::{PERM_R, PERM_U, PERM_W, PERM_X};
use super::memory_set::{MemorySet, TRAP_CONTEXT_VPN};
use super::page_table::leaf;
use super::plan::{fits, pieces_of, plan_fits, AreaPlan};
use super::space::{built, lemma_built_but};
use crate::bytes::{read_u16, read_u32, read_u64, u16_at, u32_at, u64_at};

verus! {

/// Bytes of the stack of a program.
pub const USER_STACK_SIZE: u64 = 8192;

/// What a program header is about.
#[derive(Copy, Clone, PartialEq, Eq, Structural, Debug)]
pub enum SegmentKind {
    /// Bytes to load.
    Load,
    /// Something else.
    Other,
    /// Nothing that is known.
    Invalid,
}

/// A program header.
#[derive(Copy, Clone, PartialEq, Eq, Structural, Debug)]
pub struct ElfSegment {
    pub kind: SegmentKind,
    pub vaddr: u64,
    pub memsz: u64,
    pub offset: u64,
    pub filesz: u64,
    pub readable: bool,
    pub writable: bool,
    pub executable: bool,
}

/// What a program file says: where the program starts, and its program headers.
pub struct ElfImage {
    pub entry: u64,
    pub segments: Vec<ElfSegment>,
}

/// The file has 64-bit headers.
pub open spec fn is_wide(file: Seq<u8>) -> bool {
    file[4] == 2
}

/// The file begins like an ELF file with 32-bit or 64-bit headers.
pub open spec fn is_elf(file: Seq<u8>) -> bool {
    &&& file.len() >= 16
    &&& file[0] == 0x7f
    &&& file[1] == 0x45
    &&& file[2] == 0x4c
    &&& file[3] == 0x46
    &&& file[4] == 1 || file[4] == 2
}

/// The file is long enough for the header that it begins with.
pub open spec fn header_complete(file: Seq<u8>) -> bool {
    is_elf(file) ==> file.len() >= (if is_wide(file) {
        64int
    } else {
        52
    })
}

/// Where the program starts.
pub open spec fn entry_of(file: Seq<u8>) -> u64 {
    if is_wide(file) {
        u64_at(file, 24)
    } else {
        u32_at(file, 24) as u64
    }
}

/// Where the program headers start.
pub open spec fn table_start(file: Seq<u8>) -> u64 {
    if is_wide(file) {
        u64_at(file, 32)
    } else {
        u32_at(file, 28) as u64
    }
}

/// The bytes from one program header to the next.
pub open spec fn table_step(file: Seq<u8>) -> u16 {
    u16_at(
        file,
        if is_wide(file) {
            54
        } else {
            42
        },
    )
}

/// The number of program headers.
pub open spec fn table_len(file: Seq<u8>) -> u16 {
    u16_at(
        file,
        if is_wide(file) {
            56
        } else {
            44
        },
    )
}

/// Where program header `i` starts.
pub open spec fn segment_start(file: Seq<u8>, i: int) -> int {
    table_start(file) + i * table_step(file)
}

/// Program header `i` lies in the file, at a place where its integers are aligned.
pub open spec fn segment_complete(file: Seq<u8>, i: int) -> bool {
    let start = segment_start(file, i);
    &&& table_start(file) > 0
    &&& table_step(file) >= (if is_wide(file) {
        56int
    } else {
        32
    })
    &&& start + table_step(file) <= file.len()
    &&& start % (if is_wide(file) {
        8int
    } else {
        4
    }) == 0
}

/// What a type number in a program header stands for.
pub open spec fn kind_of(number: u32) -> SegmentKind {
    if number == 1 {
        SegmentKind::Load
    } else if number <= 7 || 0x6000_0000 <= number <= 0x7fff_ffff {
        SegmentKind::Other
    } else {
        SegmentKind::Invalid
    }
}

/// Program header `i`.
pub open spec fn segment_of(file: Seq<u8>, i: int) -> ElfSegment {
    let start = segment_start(file, i);
    let flags = u32_at(
        file,
        start + (if is_wide(file) {
            4int
        } else {
            24
        }),
    );
    ElfSegment {
        kind: kind_of(u32_at(file, start)),
        vaddr: if is_wide(file) {
            u64_at(file, start + 16)
        } else {
            u32_at(file, start + 8) as u64
        },
        memsz: if is_wide(file) {
            u64_at(file, start + 40)
        } else {
            u32_at(file, start + 20) as u64
        },
        offset: if is_wide(file) {
            u64_at(file, start + 8)
        } else {
            u32_at(file, start + 4) as u64
        },
        filesz: if is_wide(file) {
            u64_at(file, start + 32)
        } else {
            u32_at(file, start + 16) as u64
        },
        readable: flags / 4 % 2 == 1,
        writable: flags / 2 % 2 == 1,
        executable: flags % 2 == 1,
    }
}

/// The file is an ELF file, its headers are complete, and every program header is of a known kind.
pub open spec fn is_program(file: Seq<u8>) -> bool {
    &&& is_elf(file)
    &&& header_complete(file)
    &&& forall|i: int|
        0 <= i < table_len(file) ==> segment_complete(file, i) && !((#[trigger] segment_of(
            file,
            i,
        )).kind is Invalid)
}

/// Whether the bytes begin like an ELF file. Calls `xmas_elf::ElfFile::new`, whose source accepts
/// exactly the bytes that begin with the ELF mark and one of the two classes.
///
/// The source also asserts that the bytes lie at an address that is a multiple of eight, or of four
/// for 32-bit headers. So the bytes are handed over in a copy that lies at a multiple of eight, here
/// and in the functions below.
#[verifier::external_body]
fn elf_accepted(file: &[u8]) -> (r: bool)
    requires
        header_complete(file@),
    ensures
        r == is_elf(file@),
{
    let mut room = vec![0u8; file.len() + 8];
    let start = room.as_ptr().align_offset(8);
    let copy = &mut room[start..start + file.len()];
    copy.copy_from_slice(file);
    ElfFile::new(copy).is_ok()
}

/// The number of program headers. Calls `xmas_elf::header::HeaderPt2::ph_count`, whose source gives
/// the field of the header as the machine reads it; the machine is taken to be little-endian.
#[verifier::external_body]
fn elf_ph_count(file: &[u8]) -> (r: u16)
    requires
        is_elf(file@),
        header_complete(file@),
    ensures
        r == table_len(file@),
{
    let mut room = vec![0u8; file.len() + 8];
    let start = room.as_ptr().align_offset(8);
    let copy = &mut room[start..start + file.len()];
    copy.copy_from_slice(file);
    ElfFile::new(copy).unwrap().header.pt2.ph_count()
}

/// Where the program starts. Calls `xmas_elf::header::HeaderPt2::entry_point`, whose source gives
/// the field of the header as the machine reads it; the machine is taken to be little-endian.
#[verifier::external_body]
fn elf_entry_point(file: &[u8]) -> (r: u64)
    requires
        is_elf(file@),
        header_complete(file@),
    ensures
        r == entry_of(file@),
{
    let mut room = vec![0u8; file.len() + 8];
    let start = room.as_ptr().align_offset(8);
    let copy = &mut room[start..start + file.len()];
    copy.copy_from_slice(file);
    ElfFile::new(copy).unwrap().header.pt2.entry_point()
}

/// Program header `i`. Calls `xmas_elf::ElfFile::program_header` and takes the fields from its
/// result, whose source reads them where the header lies; the machine is taken to be little-endian.
#[verifier::external_body]
fn elf_program_header(file: &[u8], i: u16) -> (r: ElfSegment)
    requires
        is_elf(file@),
        header_complete(file@),
        i < table_len(file@),
        segment_complete(file@, i as int),
    ensures
        r == segment_of(file@, i as int),
{
    let mut room = vec![0u8; file.len() + 8];
    let start = room.as_ptr().align_offset(8);
    let copy = &mut room[start..start + file.len()];
    copy.copy_from_slice(file);
    let ph = ElfFile::new(copy).unwrap().program_header(i).unwrap();
    let flags = ph.flags();
    ElfSegment {
        kind: match ph.get_type() {
            Ok(Type::Load) => SegmentKind::Load,
            Ok(_) => SegmentKind::Other,
            Err(_) => SegmentKind::Invalid,
        },
        vaddr: ph.virtual_addr(), memsz: ph.mem_size(), offset: ph.offset(), filesz: ph.file_size(),
        readable: flags.is_read(), writable: flags.is_write(), executable: flags.is_execute(),
    }
}

/// Reads a program file; `None` if it is no ELF file, a header is not complete, or a program header
/// is of no known kind.
pub fn read_image(file: &[u8]) -> (r: Option<ElfImage>)
    ensures
        r is Some <==> is_program(file@),
        r matches Some(image) ==> {
            &&& image.entry == entry_of(file@)
            &&& image.segments@ == segments_of(file@)
        },
{
    let len: usize = file.len();
    if len < 16 {
        return None;
    }
    let wide: bool = file[4] == 2;
    if wide && len < 64 || !wide && len < 52 {
        return None;
    }
    if !elf_accepted(file) {
        return None;
    }
    let count: u16 = elf_ph_count(file);
    let start: u64 = if wide {
        read_u64(file, 32)
    } else {
        read_u32(file, 28) as u64
    };
    let step: u64 = if wide {
        read_u16(file, 54) as u64
    } else {
        read_u16(file, 42) as u64
    };
    let (least, align): (u64, u64) = if wide {
        (56, 8)
    } else {
        (32, 4)
    };
    let mut segments: Vec<ElfSegment> = Vec::new();
    let mut i: u16 = 0;
    while i < count
        invariant
            i <= count,
            len == file@.len(),
            is_elf(file@),
            header_complete(file@),
            wide == is_wide(file@),
            count == table_len(file@),
            start == table_start(file@),
            step == table_step(file@),
            least == (if wide {
                56int
            } else {
                32
            }),
            align == (if wide {
                8int
            } else {
                4
            }),
            segments@.len() == i,
            forall|j: int|
                0 <= j < i ==> segment_complete(file@, j) && !((#[trigger] segment_of(
                    file@,
                    j,
                )).kind is Invalid) && segments@[j] == segment_of(file@, j),
        decreases count - i,
    {
        let ghost at = segment_start(file@, i as int);
        proof {
            assert(i * step <= 0xffff * 0xffff) by (nonlinear_arith)
                requires
                    i <= 0xffff,
                    step <= 0xffff,
            ;
            assert(0 <= i * step) by (nonlinear_arith)
                requires
                    0 <= i,
                    0 <= step,
            ;
        }
        let offset: u64 = i as u64 * step;
        assert(at == start + offset);
        let complete: bool = start > 0 && step >= least && start <= len as u64 && offset + step
            <= len as u64 - start && (start + offset) % align == 0;
        assert(complete == segment_complete(file@, i as int));
        if !complete {
            assert(!is_program(file@)) by {
                assert(segment_of(file@, i as int) == segment_of(file@, i as int));
            }
            return None;
        }
        let segment: ElfSegment = elf_program_header(file, i);
        if segment.kind == SegmentKind::Invalid {
            assert(!is_program(file@)) by {
                assert(segment_of(file@, i as int) == segment);
            }
            return None;
        }
        segments.push(segment);
        i += 1;
    }
    proof {
        assert(segments@ =~= segments_of(file@));
    }
    Some(ElfImage { entry: elf_entry_point(file), segments })
}

/// The program headers.
pub open spec fn segments_of(file: Seq<u8>) -> Seq<ElfSegment> {
    Seq::new(table_len(file) as nat, |i: int| segment_of(file, i))
}

/// The area for a segment that is to be loaded: programs can use it, and otherwise as the segment
/// says.
pub open spec fn load_plan(s: ElfSegment) -> AreaPlan {
    AreaPlan {
        start: s.vaddr,
        end: (s.vaddr + s.memsz) as u64,
        framed: true,
        perm: (16 + (if s.readable {
            2int
        } else {
            0
        }) + (if s.writable {
            4int
        } else {
            0
        }) + (if s.executable {
            8int
        } else {
            0
        })) as u8,
        data: Some((s.offset as usize, s.filesz as usize)),
    }
}

/// The areas for those of the first `n` segments that are to be loaded.
pub open spec fn load_plans(segments: Seq<ElfSegment>, n: int) -> Seq<AreaPlan>
    decreases n,
{
    if n <= 0 {
        Seq::empty()
    } else if segments[n - 1].kind is Load {
        load_plans(segments, n - 1).push(load_plan(segments[n - 1]))
    } else {
        load_plans(segments, n - 1)
    }
}

/// The first page behind all of the first `n` segments that are to be loaded.
pub open spec fn load_end(segments: Seq<ElfSegment>, n: int) -> int
    decreases n,
{
    if n <= 0 {
        0
    } else if segments[n - 1].kind is Load && load_plan(segments[n - 1]).area().end > load_end(
        segments,
        n - 1,
    ) {
        load_plan(segments[n - 1]).area().end
    } else {
        load_end(segments, n - 1)
    }
}

/// The sums that the plan needs do not overflow, and there is room for the stack.
pub open spec fn sums_ok(segments: Seq<ElfSegment>) -> bool {
    &&& forall|i: int|
        0 <= i < segments.len() && (#[trigger] segments[i]).kind is Load ==> segments[i].vaddr
            + segments[i].memsz <= u64::MAX && segments[i].offset + segments[i].filesz <= usize::MAX
    &&& load_end(segments, segments.len() as int) <= VPN_COUNT - 4
}

/// An address as the machine has it: the highest of its 39 bits fills the bits above.
pub open spec fn extended(va: int) -> int {
    if va >= 0x40_0000_0000 {
        va + 0xffff_ff80_0000_0000
    } else {
        va
    }
}

/// The 39 bits of an address are those of the address as the machine has it.
pub proof fn law_extension_keeps_the_address(va: int)
    requires
        0 <= va < 0x80_0000_0000,
    ensures
        extended(va) <= u64::MAX,
        va_of(extended(va) as u64) == va,
{
    if va >= 0x40_0000_0000 {
        lemma_fundamental_div_mod_converse(
            va + 0xffff_ff80_0000_0000,
            0x80_0000_0000,
            0x1ff_ffff,
            va,
        );
    }
}

/// The top of the stack: one page behind the segments is left free, then comes the stack.
pub open spec fn stack_top(segments: Seq<ElfSegment>) -> int {
    extended(load_end(segments, segments.len() as int) * 4096) + 4096 + USER_STACK_SIZE
}

/// The address space of a program: its segments, its stack, an empty area behind the stack that can
/// grow, and the page for the saved registers.
pub open spec fn program_plans(segments: Seq<ElfSegment>) -> Seq<AreaPlan> {
    let top = stack_top(segments);
    load_plans(segments, segments.len() as int).push(
        AreaPlan {
            start: (top - USER_STACK_SIZE) as u64,
            end: top as u64,
            framed: true,
            perm: 22,
            data: None,
        },
    ).push(
        AreaPlan { start: top as u64, end: top as u64, framed: true, perm: 22, data: None },
    ).push(
        AreaPlan {
            start: TRAP_CONTEXT_BASE,
            end: TRAMPOLINE,
            framed: true,
            perm: 6,
            data: None,
        },
    )
}

/// The plan of the address space for a program, and the top of its stack; `None` if a sum overflows
/// or there is no room for the stack.
pub fn plan_program(segments: &Vec<ElfSegment>) -> (r: Option<(Vec<AreaPlan>, u64)>)
    ensures
        r is Some <==> sums_ok(segments@),
        r matches Some((plans, top)) ==> plans@ == program_plans(segments@) && top == stack_top(
            segments@,
        ),
{
    let ghost segs = segments@;
    let mut plans: Vec<AreaPlan> = Vec::new();
    let mut max_end: u64 = 0;
    let mut i: usize = 0;
    while i < segments.len()
        invariant
            i <= segs.len(),
            segs == segments@,
            plans@ == load_plans(segs, i as int),
            max_end == load_end(segs, i as int),
            max_end <= VPN_COUNT,
            forall|j: int|
                0 <= j < i && (#[trigger] segs[j]).kind is Load ==> segs[j].vaddr + segs[j].memsz
                    <= u64::MAX && segs[j].offset + segs[j].filesz <= usize::MAX,
        decreases segs.len() - i,
    {
        let s: ElfSegment = segments[i];
        assert(segs[i as int] == s);
        if s.kind == SegmentKind::Load {
            let room: u64 = usize::MAX as u64;
            if s.memsz > u64::MAX - s.vaddr || s.offset > room || s.filesz > room - s.offset {
                return None;
            }
            let end: u64 = s.vaddr + s.memsz;
            let mut perm: u8 = PERM_U;
            if s.readable {
                perm = perm + PERM_R;
            }
            if s.writable {
                perm = perm + PERM_W;
            }
            if s.executable {
                perm = perm + PERM_X;
            }
            plans.push(
                AreaPlan {
                    start: s.vaddr,
                    end,
                    framed: true,
                    perm,
                    data: Some((s.offset as usize, s.filesz as usize)),
                },
            );
            let end_vpn: u64 = VirtAddr::new(end).ceil().0;
            if end_vpn > max_end {
                max_end = end_vpn;
            }
        }
        i += 1;
    }
    if max_end > VPN_COUNT - 4 {
        return None;
    }
    let bottom: u64 = VirtPageNum(max_end).start().value() + PAGE_SIZE;
    let top: u64 = bottom + USER_STACK_SIZE;
    plans.push(
        AreaPlan { start: bottom, end: top, framed: true, perm: PERM_R + PERM_W + PERM_U, data: None },
    );
    plans.push(
        AreaPlan { start: top, end: top, framed: true, perm: PERM_R + PERM_W + PERM_U, data: None },
    );
    plans.push(
        AreaPlan {
            start: TRAP_CONTEXT_BASE,
            end: TRAMPOLINE,
            framed: true,
            perm: PERM_R + PERM_W,
            data: None,
        },
    );
    assert(plans@ =~= program_plans(segs));
    Some((plans, top))
}

/// A program file from which an address space can be built with this many free frames.
pub open spec fn loadable(file: Seq<u8>, frames: int) -> bool {
    &&& is_program(file)
    &&& sums_ok(segments_of(file))
    &&& fits(program_plans(segments_of(file)), file, frames)
}

impl MemorySet {
    /// The address space for a program file, the top of its stack, and where it starts.
    pub fn from_elf(elf_data: &[u8], strampoline: u64, memory: &mut Memory) -> (r: (Self, u64, u64))
        requires
            old(memory).wf(),
            strampoline % 4096 == 0,
            strampoline < 0x100_0000_0000_0000,
            loadable(elf_data@, old(memory).free().len() as int),
        ensures
            built(
                &r.0,
                pieces_of(program_plans(segments_of(elf_data@)), elf_data@),
                strampoline,
                old(memory),
                final(memory),
            ),
            r.1 == stack_top(segments_of(elf_data@)),
            r.2 == entry_of(elf_data@),
            forall|i: int, v: int|
                0 <= i < segments_of(elf_data@).len() && (#[trigger] segments_of(
                    elf_data@,
                )[i]).kind is Load && segments_of(elf_data@)[i].vaddr as int % 0x80_0000_0000 / 4096
                    <= v < segment_end(segments_of(elf_data@)[i]) ==> {
                    let e = #[trigger] leaf(final(memory)@, r.0.root(), v);
                    &&& e % 2 == 1
                    &&& (e / 2 % 2 == 1) == segments_of(elf_data@)[i].readable
                    &&& (e / 4 % 2 == 1) == segments_of(elf_data@)[i].writable
                    &&& (e / 8 % 2 == 1) == segments_of(elf_data@)[i].executable
                    &&& e / 16 % 2 == 1
                },
    {
        let ghost m0 = *memory;
        let image: Option<ElfImage> = read_image(elf_data);
        let image: ElfImage = image.unwrap();
        let planned: Option<(Vec<AreaPlan>, u64)> = plan_program(&image.segments);
        let (plans, user_stack_top) = planned.unwrap();
        let memory_set: MemorySet = Self::build(&plans, elf_data, strampoline, memory);
        proof {
            let segments = segments_of(elf_data@);
            lemma_built_but(
                &memory_set,
                pieces_of(program_plans(segments), elf_data@),
                strampoline,
                &m0,
                memory,
                TRAP_CONTEXT_VPN as int,
            );
            assert forall|i: int, v: int|
                0 <= i < segments.len() && (#[trigger] segments[i]).kind is Load && segments[i].vaddr as int
                    % 0x80_0000_0000 / 4096 <= v < segment_end(segments[i]) implies {
                let e = #[trigger] leaf(memory@, memory_set.root(), v);
                &&& e % 2 == 1
                &&& (e / 2 % 2 == 1) == segments[i].readable
                &&& (e / 4 % 2 == 1) == segments[i].writable
                &&& (e / 8 % 2 == 1) == segments[i].executable
                &&& e / 16 % 2 == 1
            } by {
                assert(segments[i].vaddr + segments[i].memsz <= u64::MAX);
                lemma_segment_mapped(
                    &memory_set,
                    elf_data@,
                    m0.free().len() as int,
                    strampoline,
                    memory,
                    i,
                    v,
                );
            }
        }
        (memory_set, user_stack_top, image.entry)
    }
}

/// Whether an address space can be built from a program file with this many frames.
pub fn is_loadable_with(elf_data: &[u8], frames: u64) -> (r: bool)
    requires
        frames <= 0x1000_0000_0000,
    ensures
        r == loadable(elf_data@, frames as int),
{
    match read_image(elf_data) {
        Some(image) => match plan_program(&image.segments) {
            Some((plans, _top)) => plan_fits(&plans, elf_data, frames),
            None => false,
        },
        None => false,
    }
}

/// Whether an address space can be built from a program file.
pub fn is_loadable(elf_data: &[u8], memory: &Memory) -> (r: bool)
    requires
        memory.wf(),
    ensures
        r == loadable(elf_data@, memory.free().len() as int),
{
    proof {
        memory.lemma_frames();
    }
    is_loadable_with(elf_data, memory.available())
}

} // verus!
