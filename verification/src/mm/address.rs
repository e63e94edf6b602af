//! Addresses and page numbers of the Sv39 scheme.

use vstd::prelude::*;

verus! {

/// Bytes of a page.
pub const PAGE_SIZE: u64 = 4096;

/// The highest page of every address space: the code that enters and leaves the kernel.
pub const TRAMPOLINE: u64 = 0xffff_ffff_ffff_f000;

/// The page below it in an address space of a process: the saved registers.
pub const TRAP_CONTEXT_BASE: u64 = 0xffff_ffff_ffff_e000;

/// The number of virtual pages.
pub const VPN_COUNT: u64 = 0x800_0000;

/// The number of physical pages.
pub const PPN_COUNT: u64 = 0x1000_0000_0000;

/// A virtual address: 39 bits.
#[derive(Copy, Clone, PartialEq, Eq, Structural, Debug)]
pub struct VirtAddr(pub u64);

/// A physical address: 56 bits.
#[derive(Copy, Clone, PartialEq, Eq, Structural, Debug)]
pub struct PhysAddr(pub u64);

/// The number of a virtual page: 27 bits.
#[derive(Copy, Clone, PartialEq, Eq, Structural, Debug)]
pub struct VirtPageNum(pub u64);

/// The number of a physical page: 44 bits.
#[derive(Copy, Clone, PartialEq, Eq, Structural, Debug)]
pub struct PhysPageNum(pub u64);

/// The lowest address of a page.
pub open spec fn page_floor(va: int) -> int {
    va / 4096
}

/// The first page that starts at or behind an address.
pub open spec fn page_ceil(va: int) -> int {
    (va + 4095) / 4096
}

/// What is left of an address in 39 bits.
pub open spec fn va_of(v: u64) -> int {
    v as int % 0x80_0000_0000
}

impl VirtAddr {
    /// The lower 39 bits of an address.
    pub fn new(v: u64) -> (r: Self)
        ensures
            r.0 == va_of(v),
            r.0 < 0x80_0000_0000,
    {
        assert(v & 0x7f_ffff_ffff == v % 0x80_0000_0000) by (bit_vector);
        VirtAddr(v & 0x7f_ffff_ffff)
    }

    /// The address as the machine has it: the highest of the 39 bits fills the bits above.
    pub fn value(&self) -> (r: u64)
        requires
            self.0 < 0x80_0000_0000,
        ensures
            r == if self.0 >= 0x40_0000_0000 {
                self.0 + 0xffff_ff80_0000_0000
            } else {
                self.0 as int
            },
    {
        if self.0 >= 0x40_0000_0000 {
            self.0 + 0xffff_ff80_0000_0000
        } else {
            self.0
        }
    }

    /// The page that holds the address.
    pub fn floor(&self) -> (r: VirtPageNum)
        ensures
            r.0 == page_floor(self.0 as int),
    {
        VirtPageNum(self.0 / PAGE_SIZE)
    }

    /// The first page that starts at or behind the address.
    pub fn ceil(&self) -> (r: VirtPageNum)
        ensures
            r.0 == page_ceil(self.0 as int),
    {
        if self.0 == 0 {
            VirtPageNum(0)
        } else {
            VirtPageNum((self.0 - 1) / PAGE_SIZE + 1)
        }
    }

    /// Where in its page the address lies.
    pub fn page_offset(&self) -> (r: u64)
        ensures
            r == self.0 as int % 4096,
    {
        self.0 % PAGE_SIZE
    }
}

impl VirtPageNum {
    /// The lower 27 bits of a page number.
    pub fn new(v: u64) -> (r: Self)
        ensures
            r.0 == v as int % 0x800_0000,
    {
        assert(v & 0x7ff_ffff == v % 0x800_0000) by (bit_vector);
        VirtPageNum(v & 0x7ff_ffff)
    }

    /// The places of the page in the three levels of a page table, the root first.
    pub fn indexes(&self) -> (r: [usize; 3])
        requires
            self.0 < VPN_COUNT,
        ensures
            r@[0] == top_index(self.0 as int),
            r@[1] == mid_index(self.0 as int),
            r@[2] == low_index(self.0 as int),
    {
        let v: u64 = self.0;
        [(v / 0x4_0000 % 512) as usize, (v / 512 % 512) as usize, (v % 512) as usize]
    }

    /// The lowest address of the page.
    pub fn start(&self) -> (r: VirtAddr)
        requires
            self.0 < VPN_COUNT,
        ensures
            r.0 == self.0 * 4096,
    {
        VirtAddr(self.0 * PAGE_SIZE)
    }
}

/// The place of a page in the root table.
pub open spec fn top_index(v: int) -> int {
    v / 0x4_0000
}

/// The place of a page in the table of the second level.
pub open spec fn mid_index(v: int) -> int {
    v / 512 % 512
}

/// The place of a page in the table of the third level.
pub open spec fn low_index(v: int) -> int {
    v % 512
}

impl PhysAddr {
    /// The lower 56 bits of an address.
    pub fn new(v: u64) -> (r: Self)
        ensures
            r.0 == v as int % 0x100_0000_0000_0000,
    {
        assert(v & 0xff_ffff_ffff_ffff == v % 0x100_0000_0000_0000) by (bit_vector);
        PhysAddr(v & 0xff_ffff_ffff_ffff)
    }

    /// The page that holds the address.
    pub fn floor(&self) -> (r: PhysPageNum)
        ensures
            r.0 == page_floor(self.0 as int),
    {
        PhysPageNum(self.0 / PAGE_SIZE)
    }

    /// The first page that starts at or behind the address.
    pub fn ceil(&self) -> (r: PhysPageNum)
        ensures
            r.0 == page_ceil(self.0 as int),
    {
        if self.0 == 0 {
            PhysPageNum(0)
        } else {
            PhysPageNum((self.0 - 1) / PAGE_SIZE + 1)
        }
    }

    /// Where in its page the address lies.
    pub fn page_offset(&self) -> (r: u64)
        ensures
            r == self.0 as int % 4096,
    {
        self.0 % PAGE_SIZE
    }
}

impl PhysPageNum {
    /// The lower 44 bits of a page number.
    pub fn new(v: u64) -> (r: Self)
        ensures
            r.0 == v as int % 0x1000_0000_0000,
    {
        assert(v & 0xfff_ffff_ffff == v % 0x1000_0000_0000) by (bit_vector);
        PhysPageNum(v & 0xfff_ffff_ffff)
    }

    /// The lowest address of the page.
    pub fn start(&self) -> (r: PhysAddr)
        requires
            self.0 < PPN_COUNT,
        ensures
            r.0 == self.0 * 4096,
    {
        PhysAddr(self.0 * PAGE_SIZE)
    }
}

/// The pages from `l` on, up to but without `r`.
#[derive(Copy, Clone)]
pub struct VPNRange {
    pub l: VirtPageNum,
    pub r: VirtPageNum,
}

impl VPNRange {
    /// The pages from `start` on, up to but without `end`.
    pub fn new(start: VirtPageNum, end: VirtPageNum) -> (r: Self)
        requires
            start.0 <= end.0,
        ensures
            r.l == start,
            r.r == end,
    {
        VPNRange { l: start, r: end }
    }

    /// The first page.
    pub fn get_start(&self) -> (r: VirtPageNum)
        ensures
            r == self.l,
    {
        self.l
    }

    /// The first page behind the range.
    pub fn get_end(&self) -> (r: VirtPageNum)
        ensures
            r == self.r,
    {
        self.r
    }
}

/// A page is known by its places in the three levels.
pub proof fn lemma_indexes(a: int, b: int)
    requires
        0 <= a,
        0 <= b,
        top_index(a) == top_index(b),
        mid_index(a) == mid_index(b),
        low_index(a) == low_index(b),
    ensures
        a == b,
{
    assert(a == a / 0x4_0000 * 0x4_0000 + a / 512 % 512 * 512 + a % 512);
    assert(b == b / 0x4_0000 * 0x4_0000 + b / 512 % 512 * 512 + b % 512);
}

} // verus!
