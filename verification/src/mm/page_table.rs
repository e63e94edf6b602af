//! Sv39 page tables.

use vstd::arithmetic::div_mod::{lemma_fundamental_div_mod, lemma_fundamental_div_mod_converse};
use vstd::prelude::*;

use super::address::{
    lemma_indexes, low_index, mid_index, top_index, PhysAddr, PhysPageNum, VirtAddr, VirtPageNum,
    PPN_COUNT, VPN_COUNT,
};
use super::frame_allocator::{lemma_zero_word, word_at, zero_page, FrameTracker, Memory};

verus! {

/// The control bits of a page table entry.
#[derive(Copy, Clone, PartialEq, Eq, Structural, Debug)]
pub struct PTEFlags {
    pub bits: u8,
}

/// The entry is in use.
pub const PTE_V: u8 = 1;

/// The page can be read.
pub const PTE_R: u8 = 2;

/// The page can be written.
pub const PTE_W: u8 = 4;

/// The page can be executed.
pub const PTE_X: u8 = 8;

/// Programs can use the page.
pub const PTE_U: u8 = 16;

impl PTEFlags {
    /// The flags with these bits; all bits have a meaning.
    pub fn from_bits(bits: u8) -> (r: Option<Self>)
        ensures
            r == Some(PTEFlags { bits }),
    {
        Some(PTEFlags { bits })
    }

    /// No flags.
    pub fn empty() -> (r: Self)
        ensures
            r.bits == 0,
    {
        PTEFlags { bits: 0 }
    }
}

/// A page table entry.
#[derive(Copy, Clone, PartialEq, Eq, Structural, Debug)]
pub struct PageTableEntry {
    pub bits: u64,
}

/// The entry is in use.
pub open spec fn pte_valid(bits: u64) -> bool {
    bits % 2 == 1
}

/// The physical page that an entry names.
pub open spec fn pte_ppn(bits: u64) -> int {
    bits as int / 1024 % 0x1000_0000_0000
}

/// The control bits of an entry.
pub open spec fn pte_flags(bits: u64) -> int {
    bits as int % 256
}

/// The entry that names a page with these control bits.
pub open spec fn pte_of(ppn: int, flags: int) -> u64 {
    (ppn * 1024 + flags) as u64
}

/// `flags` with the bit that says that the entry is in use.
pub open spec fn in_use(flags: int) -> int {
    if flags % 2 == 1 {
        flags
    } else {
        flags + 1
    }
}

/// An entry is taken apart into what it was made of.
pub proof fn lemma_pte(ppn: int, flags: int)
    requires
        0 <= ppn < PPN_COUNT,
        0 <= flags < 256,
    ensures
        pte_of(ppn, flags) == ppn * 1024 + flags,
        pte_ppn(pte_of(ppn, flags)) == ppn,
        pte_flags(pte_of(ppn, flags)) == flags,
        pte_valid(pte_of(ppn, flags)) == (flags % 2 == 1),
{
    let bits = ppn * 1024 + flags;
    lemma_fundamental_div_mod_converse(bits, 1024, ppn, flags);
    lemma_fundamental_div_mod_converse(ppn, 0x1000_0000_0000, 0, ppn);
    lemma_fundamental_div_mod_converse(bits, 256, 4 * ppn, flags);
    lemma_fundamental_div_mod(flags, 2);
    lemma_fundamental_div_mod_converse(bits, 2, 512 * ppn + flags / 2, flags % 2);
}

impl PageTableEntry {
    /// The entry that names a page with these control bits.
    pub fn new(ppn: PhysPageNum, flags: PTEFlags) -> (r: Self)
        requires
            ppn.0 < PPN_COUNT,
        ensures
            r.bits == pte_of(ppn.0 as int, flags.bits as int),
    {
        let p: u64 = ppn.0;
        let f: u64 = flags.bits as u64;
        assert(p << 10u64 | f == p * 1024 + f) by (bit_vector)
            requires
                p < 0x1000_0000_0000,
                f < 256,
        ;
        PageTableEntry { bits: p << 10u64 | f }
    }

    /// An entry that is not in use.
    pub fn empty() -> (r: Self)
        ensures
            r.bits == 0,
    {
        PageTableEntry { bits: 0 }
    }

    /// The physical page that the entry names.
    pub fn ppn(&self) -> (r: PhysPageNum)
        ensures
            r.0 == pte_ppn(self.bits),
            r.0 < PPN_COUNT,
    {
        PhysPageNum::new(self.bits / 1024)
    }

    /// The control bits.
    pub fn flags(&self) -> (r: PTEFlags)
        ensures
            r.bits == pte_flags(self.bits),
    {
        PTEFlags { bits: (self.bits % 256) as u8 }
    }

    /// Whether the entry is in use.
    pub fn is_valid(&self) -> (r: bool)
        ensures
            r == pte_valid(self.bits),
    {
        self.bits % 2 == 1
    }

    /// Whether the page can be read.
    pub fn readable(&self) -> (r: bool)
        ensures
            r == (pte_flags(self.bits) / 2 % 2 == 1),
    {
        self.flags().bits / PTE_R % 2 == 1
    }

    /// Whether the page can be written.
    pub fn writable(&self) -> (r: bool)
        ensures
            r == (pte_flags(self.bits) / 4 % 2 == 1),
    {
        self.flags().bits / PTE_W % 2 == 1
    }

    /// Whether the page can be executed.
    pub fn executable(&self) -> (r: bool)
        ensures
            r == (pte_flags(self.bits) / 8 % 2 == 1),
    {
        self.flags().bits / PTE_X % 2 == 1
    }
}

/// The table that entry `idx` of a table leads to.
pub open spec fn child(mem: Map<int, Seq<u8>>, table: int, idx: int) -> Option<int> {
    if pte_valid(word_at(mem, table, idx)) {
        Some(pte_ppn(word_at(mem, table, idx)))
    } else {
        None
    }
}

/// The table of the second level under entry `i` of the root.
pub open spec fn mid_table(mem: Map<int, Seq<u8>>, root: int, i: int) -> Option<int> {
    child(mem, root, i)
}

/// The table of the third level under entries `i` and `j`.
pub open spec fn low_table(mem: Map<int, Seq<u8>>, root: int, i: int, j: int) -> Option<int> {
    match mid_table(mem, root, i) {
        Some(t) => child(mem, t, j),
        None => None,
    }
}

/// The table of the third level that is responsible for page `v`.
pub open spec fn table_of(mem: Map<int, Seq<u8>>, root: int, v: int) -> Option<int> {
    low_table(mem, root, top_index(v), mid_index(v))
}

/// The entry for page `v`; zero if there is no table for it.
pub open spec fn leaf(mem: Map<int, Seq<u8>>, root: int, v: int) -> u64 {
    match table_of(mem, root, v) {
        Some(t) => word_at(mem, t, low_index(v)),
        None => 0,
    }
}

/// Every table under the root is a page of the memory.
pub open spec fn walkable(mem: Map<int, Seq<u8>>, root: int) -> bool {
    &&& mem.dom().contains(root)
    &&& forall|i: int|
        0 <= i < 512 && (#[trigger] mid_table(mem, root, i)) is Some ==> mem.dom().contains(
            mid_table(mem, root, i)->0,
        )
    &&& forall|i: int, j: int|
        0 <= i < 512 && 0 <= j < 512 && (#[trigger] low_table(mem, root, i, j)) is Some
            ==> mem.dom().contains(low_table(mem, root, i, j)->0)
}

/// The tables under the root are `tables`, and none of them is reached in two ways.
pub open spec fn is_tree(mem: Map<int, Seq<u8>>, root: int, tables: Set<int>) -> bool {
    &&& tables.contains(root)
    &&& forall|p: int| #[trigger] tables.contains(p) ==> mem.dom().contains(p)
    &&& forall|i: int|
        0 <= i < 512 && (#[trigger] mid_table(mem, root, i)) is Some ==> tables.contains(
            mid_table(mem, root, i)->0,
        ) && mid_table(mem, root, i)->0 != root
    &&& forall|i: int, j: int|
        0 <= i < 512 && 0 <= j < 512 && (#[trigger] low_table(mem, root, i, j)) is Some
            ==> tables.contains(low_table(mem, root, i, j)->0) && low_table(mem, root, i, j)->0
            != root
    &&& forall|i: int, k: int|
        0 <= i < 512 && 0 <= k < 512 && i != k && (#[trigger] mid_table(mem, root, i)) is Some
            ==> #[trigger] mid_table(mem, root, k) != mid_table(mem, root, i)
    &&& forall|i: int, j: int, k: int, l: int|
        0 <= i < 512 && 0 <= j < 512 && 0 <= k < 512 && 0 <= l < 512 && (i != k || j != l) && (
        #[trigger] low_table(mem, root, i, j)) is Some ==> #[trigger] low_table(mem, root, k, l)
            != low_table(mem, root, i, j)
    &&& forall|i: int, k: int, l: int|
        0 <= i < 512 && 0 <= k < 512 && 0 <= l < 512 && (#[trigger] mid_table(mem, root, i)) is Some
            ==> #[trigger] low_table(mem, root, k, l) != mid_table(mem, root, i)
}

/// How many tables page `v` still needs.
pub open spec fn tables_missing(mem: Map<int, Seq<u8>>, root: int, v: int) -> nat {
    if mid_table(mem, root, top_index(v)) is None {
        2
    } else if table_of(mem, root, v) is None {
        1
    } else {
        0
    }
}

/// There is a table of the second level for entry `i`, or of the third level for `i` and `j`,
/// after page `v` has got its tables.
pub open spec fn same_tables_but(
    mem: Map<int, Seq<u8>>,
    mem2: Map<int, Seq<u8>>,
    root: int,
    v: int,
) -> bool {
    &&& forall|i: int|
        0 <= i < 512 ==> ((#[trigger] mid_table(mem2, root, i)) is Some) == (i == top_index(v)
            || mid_table(mem, root, i) is Some)
    &&& forall|i: int, j: int|
        0 <= i < 512 && 0 <= j < 512 ==> ((#[trigger] low_table(mem2, root, i, j)) is Some) == (i
            == top_index(v) && j == mid_index(v) || low_table(mem, root, i, j) is Some)
}

/// A new table of the second level.
proof fn lemma_new_mid(
    mem: Map<int, Seq<u8>>,
    mem2: Map<int, Seq<u8>>,
    root: int,
    tables: Set<int>,
    i0: int,
    t: int,
)
    requires
        is_tree(mem, root, tables),
        0 <= i0 < 512,
        mid_table(mem, root, i0) is None,
        !tables.contains(t),
        0 <= t < PPN_COUNT,
        mem2.dom() == mem.dom(),
        mem.dom().contains(t),
        mem2[t] == zero_page(),
        forall|p: int| p != t && p != root ==> #[trigger] mem2[p] == mem[p],
        word_at(mem2, root, i0) == pte_of(t, 1),
        forall|i: int|
            0 <= i < 512 && i != i0 ==> #[trigger] word_at(mem2, root, i) == word_at(mem, root, i),
    ensures
        is_tree(mem2, root, tables.insert(t)),
        forall|i: int|
            0 <= i < 512 ==> #[trigger] mid_table(mem2, root, i) == (if i == i0 {
                Some(t)
            } else {
                mid_table(mem, root, i)
            }),
        forall|i: int, j: int|
            0 <= i < 512 && 0 <= j < 512 ==> #[trigger] low_table(mem2, root, i, j) == low_table(
                mem,
                root,
                i,
                j,
            ),
        forall|v: int|
            0 <= v < VPN_COUNT ==> #[trigger] leaf(mem2, root, v) == leaf(mem, root, v),
{
    lemma_pte(t, 1);
    assert forall|i: int| 0 <= i < 512 implies #[trigger] mid_table(mem2, root, i) == (if i == i0 {
        Some(t)
    } else {
        mid_table(mem, root, i)
    }) by {
        if i != i0 {
            assert(word_at(mem2, root, i) == word_at(mem, root, i));
        }
    }
    assert forall|i: int, j: int| 0 <= i < 512 && 0 <= j < 512 implies #[trigger] low_table(
        mem2,
        root,
        i,
        j,
    ) == low_table(mem, root, i, j) by {
        if i == i0 {
            lemma_zero_word(mem2, t, j);
        } else {
            assert(mid_table(mem2, root, i) == mid_table(mem, root, i));
            if mid_table(mem, root, i) is Some {
                let m = mid_table(mem, root, i)->0;
                assert(tables.contains(m) && m != root);
                assert(mem2[m] == mem[m]);
            }
        }
    }
    assert forall|v: int| 0 <= v < VPN_COUNT implies #[trigger] leaf(mem2, root, v) == leaf(
        mem,
        root,
        v,
    ) by {
        let i = top_index(v);
        let j = mid_index(v);
        assert(low_table(mem2, root, i, j) == low_table(mem, root, i, j));
        if low_table(mem, root, i, j) is Some {
            let m = low_table(mem, root, i, j)->0;
            assert(tables.contains(m) && m != root);
            assert(mem2[m] == mem[m]);
        }
    }
}

/// A new table of the third level.
proof fn lemma_new_low(
    mem: Map<int, Seq<u8>>,
    mem2: Map<int, Seq<u8>>,
    root: int,
    tables: Set<int>,
    i0: int,
    j0: int,
    t: int,
)
    requires
        is_tree(mem, root, tables),
        0 <= i0 < 512,
        0 <= j0 < 512,
        mid_table(mem, root, i0) is Some,
        low_table(mem, root, i0, j0) is None,
        !tables.contains(t),
        0 <= t < PPN_COUNT,
        mem2.dom() == mem.dom(),
        mem.dom().contains(t),
        mem2[t] == zero_page(),
        forall|p: int|
            p != t && p != mid_table(mem, root, i0)->0 ==> #[trigger] mem2[p] == mem[p],
        word_at(mem2, mid_table(mem, root, i0)->0, j0) == pte_of(t, 1),
        forall|j: int|
            0 <= j < 512 && j != j0 ==> #[trigger] word_at(
                mem2,
                mid_table(mem, root, i0)->0,
                j,
            ) == word_at(mem, mid_table(mem, root, i0)->0, j),
    ensures
        is_tree(mem2, root, tables.insert(t)),
        forall|i: int|
            0 <= i < 512 ==> #[trigger] mid_table(mem2, root, i) == mid_table(mem, root, i),
        forall|i: int, j: int|
            0 <= i < 512 && 0 <= j < 512 ==> #[trigger] low_table(mem2, root, i, j) == (if i == i0
                && j == j0 {
                Some(t)
            } else {
                low_table(mem, root, i, j)
            }),
        forall|v: int|
            0 <= v < VPN_COUNT ==> #[trigger] leaf(mem2, root, v) == leaf(mem, root, v),
{
    let m0 = mid_table(mem, root, i0)->0;
    lemma_pte(t, 1);
    assert(tables.contains(m0) && m0 != root);
    assert(mem2[root] == mem[root]);
    assert forall|i: int| 0 <= i < 512 implies #[trigger] mid_table(mem2, root, i) == mid_table(
        mem,
        root,
        i,
    ) by {}
    assert forall|i: int, j: int| 0 <= i < 512 && 0 <= j < 512 implies #[trigger] low_table(
        mem2,
        root,
        i,
        j,
    ) == (if i == i0 && j == j0 {
        Some(t)
    } else {
        low_table(mem, root, i, j)
    }) by {
        assert(mid_table(mem2, root, i) == mid_table(mem, root, i));
        if i == i0 {
            if j != j0 {
                assert(word_at(mem2, m0, j) == word_at(mem, m0, j));
            }
        } else if mid_table(mem, root, i) is Some {
            let m = mid_table(mem, root, i)->0;
            assert(mid_table(mem, root, i0) != mid_table(mem, root, i));
            assert(tables.contains(m) && m != m0);
            assert(mem2[m] == mem[m]);
        }
    }
    assert forall|v: int| 0 <= v < VPN_COUNT implies #[trigger] leaf(mem2, root, v) == leaf(
        mem,
        root,
        v,
    ) by {
        let i = top_index(v);
        let j = mid_index(v);
        if i == i0 && j == j0 {
            assert(low_table(mem2, root, i, j) == Some(t));
            lemma_zero_word(mem2, t, low_index(v));
        } else {
            assert(low_table(mem2, root, i, j) == low_table(mem, root, i, j));
            if low_table(mem, root, i, j) is Some {
                let m = low_table(mem, root, i, j)->0;
                assert(low_table(mem, root, i, j) != mid_table(mem, root, i0));
                assert(tables.contains(m) && m != m0);
                assert(mem2[m] == mem[m]);
            }
        }
    }
}

/// A change of the entry for page `v0`.
proof fn lemma_set_leaf(
    mem: Map<int, Seq<u8>>,
    mem2: Map<int, Seq<u8>>,
    root: int,
    tables: Set<int>,
    v0: int,
)
    requires
        is_tree(mem, root, tables),
        0 <= v0 < VPN_COUNT,
        table_of(mem, root, v0) is Some,
        mem2.dom() == mem.dom(),
        forall|p: int| p != table_of(mem, root, v0)->0 ==> #[trigger] mem2[p] == mem[p],
        forall|k: int|
            0 <= k < 512 && k != low_index(v0) ==> #[trigger] word_at(
                mem2,
                table_of(mem, root, v0)->0,
                k,
            ) == word_at(mem, table_of(mem, root, v0)->0, k),
    ensures
        is_tree(mem2, root, tables),
        forall|i: int|
            0 <= i < 512 ==> #[trigger] mid_table(mem2, root, i) == mid_table(mem, root, i),
        forall|i: int, j: int|
            0 <= i < 512 && 0 <= j < 512 ==> #[trigger] low_table(mem2, root, i, j) == low_table(
                mem,
                root,
                i,
                j,
            ),
        leaf(mem2, root, v0) == word_at(mem2, table_of(mem, root, v0)->0, low_index(v0)),
        forall|v: int|
            0 <= v < VPN_COUNT && v != v0 ==> #[trigger] leaf(mem2, root, v) == leaf(mem, root, v),
{
    let i0 = top_index(v0);
    let j0 = mid_index(v0);
    let t0 = table_of(mem, root, v0)->0;
    assert(low_table(mem, root, i0, j0) == Some(t0));
    assert(mem2[root] == mem[root]);
    assert forall|i: int| 0 <= i < 512 implies #[trigger] mid_table(mem2, root, i) == mid_table(
        mem,
        root,
        i,
    ) by {}
    assert forall|i: int, j: int| 0 <= i < 512 && 0 <= j < 512 implies #[trigger] low_table(
        mem2,
        root,
        i,
        j,
    ) == low_table(mem, root, i, j) by {
        assert(mid_table(mem2, root, i) == mid_table(mem, root, i));
        if mid_table(mem, root, i) is Some {
            let m = mid_table(mem, root, i)->0;
            assert(low_table(mem, root, i0, j0) != mid_table(mem, root, i));
            assert(mem2[m] == mem[m]);
        }
    }
    assert(low_table(mem2, root, i0, j0) == Some(t0));
    assert forall|v: int| 0 <= v < VPN_COUNT && v != v0 implies #[trigger] leaf(mem2, root, v)
        == leaf(mem, root, v) by {
        let i = top_index(v);
        let j = mid_index(v);
        assert(low_table(mem2, root, i, j) == low_table(mem, root, i, j));
        if i == i0 && j == j0 {
            if low_index(v) == low_index(v0) {
                lemma_indexes(v, v0);
            }
            assert(word_at(mem2, t0, low_index(v)) == word_at(mem, t0, low_index(v)));
        } else if low_table(mem, root, i, j) is Some {
            assert(low_table(mem, root, i, j) != low_table(mem, root, i0, j0));
            assert(mem2[low_table(mem, root, i, j)->0] == mem[low_table(mem, root, i, j)->0]);
        }
    }
}

/// A tree whose tables are as before means what it meant before.
pub proof fn lemma_same_tree(
    mem: Map<int, Seq<u8>>,
    mem2: Map<int, Seq<u8>>,
    root: int,
    tables: Set<int>,
)
    requires
        is_tree(mem, root, tables),
        mem2.dom() == mem.dom(),
        forall|p: int| #[trigger] tables.contains(p) ==> mem2[p] == mem[p],
    ensures
        is_tree(mem2, root, tables),
        forall|i: int|
            0 <= i < 512 ==> #[trigger] mid_table(mem2, root, i) == mid_table(mem, root, i),
        forall|i: int, j: int|
            0 <= i < 512 && 0 <= j < 512 ==> #[trigger] low_table(mem2, root, i, j) == low_table(
                mem,
                root,
                i,
                j,
            ),
        forall|v: int|
            0 <= v < VPN_COUNT ==> #[trigger] leaf(mem2, root, v) == leaf(mem, root, v),
{
    assert forall|i: int| 0 <= i < 512 implies #[trigger] mid_table(mem2, root, i) == mid_table(
        mem,
        root,
        i,
    ) by {}
    assert forall|i: int, j: int| 0 <= i < 512 && 0 <= j < 512 implies #[trigger] low_table(
        mem2,
        root,
        i,
        j,
    ) == low_table(mem, root, i, j) by {
        assert(mid_table(mem2, root, i) == mid_table(mem, root, i));
        if mid_table(mem, root, i) is Some {
            assert(tables.contains(mid_table(mem, root, i)->0));
        }
    }
    assert forall|v: int| 0 <= v < VPN_COUNT implies #[trigger] leaf(mem2, root, v) == leaf(
        mem,
        root,
        v,
    ) by {
        let i = top_index(v);
        let j = mid_index(v);
        assert(low_table(mem2, root, i, j) == low_table(mem, root, i, j));
        if low_table(mem, root, i, j) is Some {
            assert(tables.contains(low_table(mem, root, i, j)->0));
        }
    }
}

/// Where an entry lies: the table and the place in it.
#[derive(Copy, Clone)]
pub struct PteSlot {
    pub table: PhysPageNum,
    pub idx: usize,
}

/// A page table and the frames that its tables take.
pub struct PageTable {
    root_ppn: PhysPageNum,
    frames: Vec<FrameTracker>,
}

/// From the free frames `free` some were taken: `free2` are left, and the others are now among
/// `owned2`.
pub open spec fn took(
    free: Set<int>,
    free2: Set<int>,
    owned: Set<int>,
    owned2: Set<int>,
) -> bool {
    &&& free2.subset_of(free)
    &&& owned2 == owned.union(free.difference(free2))
}

impl PageTable {
    /// The page of the root table.
    pub closed spec fn root(&self) -> int {
        self.root_ppn.0 as int
    }

    /// The frames of the tables, in the order in which they were taken.
    pub closed spec fn frame_list(&self) -> Seq<int> {
        self.frames@.map_values(|f: FrameTracker| f.ppn.0 as int)
    }

    /// The frames of the tables.
    pub open spec fn tables(&self) -> Set<int> {
        self.frame_list().to_set()
    }

    /// The tables form a tree in memory, and their frames are taken.
    pub open spec fn wf(&self, memory: &Memory) -> bool {
        &&& memory.wf()
        &&& self.frame_list().no_duplicates()
        &&& is_tree(memory@, self.root(), self.tables())
        &&& forall|p: int| #[trigger]
            self.tables().contains(p) ==> !memory.free().contains(p) && p < memory.limit()
    }

    /// A table can be walked that is in order.
    pub proof fn lemma_walkable(&self, memory: &Memory)
        requires
            self.wf(memory),
        ensures
            walkable(memory@, self.root()),
    {
    }

    /// A page table without entries.
    pub fn new(memory: &mut Memory) -> (r: Self)
        requires
            old(memory).wf(),
            old(memory).free().len() > 0,
        ensures
            r.wf(final(memory)),
            final(memory).limit() == old(memory).limit(),
            r.root() == old(memory).next_frame(),
            took(old(memory).free(), final(memory).free(), Set::empty(), r.tables()),
            final(memory).free().len() == old(memory).free().len() - 1,
            r.tables() == set![r.root()],
            final(memory)@ == old(memory)@.insert(r.root(), zero_page()),
            forall|i: int|
                0 <= i < 512 ==> (#[trigger] mid_table(final(memory)@, r.root(), i)) is None,
            forall|v: int|
                0 <= v < VPN_COUNT ==> #[trigger] leaf(final(memory)@, r.root(), v) == 0,
    {
        proof {
            memory.lemma_wf();
        }
        let frame: Option<FrameTracker> = memory.frame_alloc();
        let frame: FrameTracker = frame.unwrap();
        let root_ppn: PhysPageNum = frame.ppn;
        let mut frames: Vec<FrameTracker> = Vec::new();
        frames.push(frame);
        let r: PageTable = PageTable { root_ppn, frames };
        proof {
            memory.lemma_wf();
            let p = root_ppn.0 as int;
            assert(r.frame_list() =~= seq![p]);
            assert(r.frame_list()[0] == p);
            assert forall|q: int| #[trigger] r.tables().contains(q) <==> q == p by {
                if q == p {
                    assert(r.frame_list().contains(q));
                }
            }
            assert(r.tables() =~= set![p]);
            assert forall|i: int| 0 <= i < 512 implies (#[trigger] mid_table(
                memory@,
                p,
                i,
            )) is None by {
                lemma_zero_word(memory@, p, i);
            }
            assert forall|v: int| 0 <= v < VPN_COUNT implies #[trigger] leaf(memory@, p, v)
                == 0 by {
                assert(mid_table(memory@, p, top_index(v)) is None);
            }
            assert(took(old(memory).free(), memory.free(), Set::empty(), r.tables())) by {
                assert(Set::<int>::empty().union(
                    old(memory).free().difference(memory.free()),
                ) =~= r.tables());
            }
            assert(memory@.dom() =~= old(memory)@.dom());
        }
        r
    }

    /// A page table to read in, from the value of the control register. It owns no frames.
    pub fn from_token(satp: u64) -> (r: Self)
        ensures
            r.root() == satp as int % 0x1000_0000_0000,
            r.frame_list() == Seq::<int>::empty(),
    {
        let r: PageTable = PageTable { root_ppn: PhysPageNum::new(satp), frames: Vec::new() };
        assert(r.frame_list() =~= Seq::<int>::empty());
        r
    }

    /// The table that entry `idx` of a table leads to. If the entry is not in use, a new empty table
    /// is made for it.
    fn next_table(&mut self, table: PhysPageNum, idx: usize, memory: &mut Memory) -> (r: PhysPageNum)
        requires
            old(memory).wf(),
            old(memory)@.dom().contains(table.0 as int),
            !old(memory).free().contains(table.0 as int),
            idx < 512,
            child(old(memory)@, table.0 as int, idx as int) is None ==> old(memory).free().len()
                > 0,
        ensures
            final(memory).wf(),
            final(memory).limit() == old(memory).limit(),
            final(memory)@.dom() == old(memory)@.dom(),
            final(self).root() == old(self).root(),
            match child(old(memory)@, table.0 as int, idx as int) {
                Some(t) => {
                    &&& r.0 == t
                    &&& final(memory)@ == old(memory)@
                    &&& final(memory).free() == old(memory).free()
                    &&& final(self).frame_list() == old(self).frame_list()
                },
                None => {
                    let t = r.0 as int;
                    &&& old(memory).free().contains(t)
                    &&& t < PPN_COUNT
                    &&& final(memory).free() == old(memory).free().remove(t)
                    &&& final(self).frame_list() == old(self).frame_list().push(t)
                    &&& final(memory)@[t] == zero_page()
                    &&& forall|p: int|
                        p != t && p != table.0 ==> #[trigger] final(memory)@[p] == old(memory)@[p]
                    &&& word_at(final(memory)@, table.0 as int, idx as int) == pte_of(t, 1)
                    &&& forall|k: int|
                        0 <= k < 512 && k != idx ==> #[trigger] word_at(
                            final(memory)@,
                            table.0 as int,
                            k,
                        ) == word_at(old(memory)@, table.0 as int, k)
                },
            },
    {
        proof {
            memory.lemma_wf();
        }
        let mut pte: PageTableEntry = PageTableEntry { bits: memory.read_word(table, idx) };
        if !pte.is_valid() {
            let frame: Option<FrameTracker> = memory.frame_alloc();
            let frame: FrameTracker = frame.unwrap();
            let ghost t = frame.ppn.0 as int;
            let ghost mid = memory@;
            pte = PageTableEntry::new(frame.ppn, PTEFlags { bits: PTE_V });
            memory.write_word(table, idx, pte.bits);
            self.frames.push(frame);
            proof {
                lemma_pte(t, 1);
                assert(self.frame_list() =~= old(self).frame_list().push(t));
                assert(memory@.dom() =~= old(memory)@.dom());
                assert forall|k: int| 0 <= k < 512 && k != idx implies #[trigger] word_at(
                    memory@,
                    table.0 as int,
                    k,
                ) == word_at(old(memory)@, table.0 as int, k) by {
                    assert(word_at(mid, table.0 as int, k) == word_at(
                        old(memory)@,
                        table.0 as int,
                        k,
                    ));
                }
            }
        }
        pte.ppn()
    }

    /// Where the entry for page `vpn` lies. Tables that are missing on the way are made.
    pub fn find_pte_create(&mut self, vpn: VirtPageNum, memory: &mut Memory) -> (r: Option<PteSlot>)
        requires
            old(self).wf(old(memory)),
            vpn.0 < VPN_COUNT,
            tables_missing(old(memory)@, old(self).root(), vpn.0 as int) <= old(
                memory,
            ).free().len(),
        ensures
            final(self).wf(final(memory)),
            final(self).root() == old(self).root(),
            final(memory).limit() == old(memory).limit(),
            final(memory)@.dom() == old(memory)@.dom(),
            took(
                old(memory).free(),
                final(memory).free(),
                old(self).tables(),
                final(self).tables(),
            ),
            final(memory).free().len() == old(memory).free().len() - tables_missing(
                old(memory)@,
                old(self).root(),
                vpn.0 as int,
            ),
            same_tables_but(old(memory)@, final(memory)@, old(self).root(), vpn.0 as int),
            forall|v: int|
                0 <= v < VPN_COUNT ==> #[trigger] leaf(final(memory)@, old(self).root(), v) == leaf(
                    old(memory)@,
                    old(self).root(),
                    v,
                ),
            forall|p: int|
                !final(self).tables().contains(p) ==> #[trigger] final(memory)@[p] == old(
                    memory,
                )@[p],
            r matches Some(slot) && table_of(final(memory)@, old(self).root(), vpn.0 as int) == Some(
                slot.table.0 as int,
            ) && slot.idx == low_index(vpn.0 as int),
    {
        let ghost mem0 = memory@;
        let ghost root = self.root();
        let ghost tables0 = self.tables();
        let ghost free0 = memory.free();
        let ghost v0 = vpn.0 as int;
        let ghost i0 = top_index(v0);
        let ghost j0 = mid_index(v0);
        let idxs: [usize; 3] = vpn.indexes();
        proof {
            memory.lemma_wf();
            assert(tables0.contains(root));
        }
        let ghost list0 = self.frame_list();
        let mid: PhysPageNum = self.next_table(self.root_ppn, idxs[0], memory);
        let ghost mem1 = memory@;
        let ghost list1 = self.frame_list();
        proof {
            if mid_table(mem0, root, i0) is None {
                lemma_new_mid(mem0, mem1, root, tables0, i0, mid.0 as int);
                lemma_list_push(list0, mid.0 as int);
            }
            memory.lemma_wf();
            assert(mid_table(mem1, root, i0) == Some(mid.0 as int));
            assert(self.tables().contains(mid.0 as int));
            assert(is_tree(mem1, root, self.tables()));
            assert(low_table(mem1, root, i0, j0) == low_table(mem0, root, i0, j0));
            assert(memory.free().len() == free0.len() - (if mid_table(mem0, root, i0) is None {
                1int
            } else {
                0
            }));
        }
        let low: PhysPageNum = self.next_table(mid, idxs[1], memory);
        let ghost mem2 = memory@;
        proof {
            if low_table(mem1, root, i0, j0) is None {
                assert(!list1.to_set().contains(low.0 as int));
                lemma_new_low(mem1, mem2, root, list1.to_set(), i0, j0, low.0 as int);
                lemma_list_push(list1, low.0 as int);
            }
            memory.lemma_wf();
            assert(low_table(mem2, root, i0, j0) == Some(low.0 as int));
            assert(table_of(mem2, root, v0) == Some(low.0 as int));
            assert(self.tables() =~= tables0.union(free0.difference(memory.free())));
            assert forall|p: int| !self.tables().contains(p) implies #[trigger] memory@[p]
                == mem0[p] by {
                assert(mem2[p] == mem1[p]);
                assert(mem1[p] == mem0[p]);
            }
            assert(same_tables_but(mem0, mem2, root, v0)) by {
                assert forall|i: int| 0 <= i < 512 implies ((#[trigger] mid_table(
                    mem2,
                    root,
                    i,
                )) is Some) == (i == i0 || mid_table(mem0, root, i) is Some) by {
                    assert(mid_table(mem2, root, i) == mid_table(mem1, root, i));
                }
                assert forall|i: int, j: int| 0 <= i < 512 && 0 <= j < 512 implies ((
                #[trigger] low_table(mem2, root, i, j)) is Some) == (i == i0 && j == j0
                    || low_table(mem0, root, i, j) is Some) by {
                    assert(low_table(mem1, root, i, j) == low_table(mem0, root, i, j));
                }
            }
            assert forall|v: int| 0 <= v < VPN_COUNT implies #[trigger] leaf(mem2, root, v) == leaf(
                mem0,
                root,
                v,
            ) by {
                assert(leaf(mem1, root, v) == leaf(mem0, root, v));
            }
        }
        Some(PteSlot { table: low, idx: idxs[2] })
    }

    /// Where the entry for page `vpn` lies, if there are tables for it.
    pub fn find_pte(&self, vpn: VirtPageNum, memory: &Memory) -> (r: Option<PteSlot>)
        requires
            walkable(memory@, self.root()),
            vpn.0 < VPN_COUNT,
        ensures
            match r {
                Some(slot) => table_of(memory@, self.root(), vpn.0 as int) == Some(
                    slot.table.0 as int,
                ) && slot.idx == low_index(vpn.0 as int) && memory@.dom().contains(
                    slot.table.0 as int,
                ),
                None => table_of(memory@, self.root(), vpn.0 as int) is None,
            },
    {
        let ghost root = self.root();
        let ghost i0 = top_index(vpn.0 as int);
        let ghost j0 = mid_index(vpn.0 as int);
        let idxs: [usize; 3] = vpn.indexes();
        let pte: PageTableEntry = PageTableEntry {
            bits: memory.read_word(self.root_ppn, idxs[0]),
        };
        if !pte.is_valid() {
            assert(mid_table(memory@, root, i0) is None);
            return None;
        }
        let mid: PhysPageNum = pte.ppn();
        assert(mid_table(memory@, root, i0) == Some(mid.0 as int));
        let pte: PageTableEntry = PageTableEntry { bits: memory.read_word(mid, idxs[1]) };
        if !pte.is_valid() {
            assert(low_table(memory@, root, i0, j0) is None);
            return None;
        }
        let low: PhysPageNum = pte.ppn();
        assert(low_table(memory@, root, i0, j0) == Some(low.0 as int));
        Some(PteSlot { table: low, idx: idxs[2] })
    }

    /// How many tables page `vpn` still needs.
    pub fn tables_missing(&self, vpn: VirtPageNum, memory: &Memory) -> (r: u64)
        requires
            walkable(memory@, self.root()),
            vpn.0 < VPN_COUNT,
        ensures
            r == tables_missing(memory@, self.root(), vpn.0 as int),
    {
        let idxs: [usize; 3] = vpn.indexes();
        let pte: PageTableEntry = PageTableEntry {
            bits: memory.read_word(self.root_ppn, idxs[0]),
        };
        if !pte.is_valid() {
            2
        } else if self.find_pte(vpn, memory).is_none() {
            1
        } else {
            0
        }
    }

    /// Maps page `vpn`, which is not mapped, to the physical page `ppn`.
    pub fn map(&mut self, vpn: VirtPageNum, ppn: PhysPageNum, flags: PTEFlags, memory: &mut Memory)
        requires
            old(self).wf(old(memory)),
            vpn.0 < VPN_COUNT,
            ppn.0 < PPN_COUNT,
            !pte_valid(leaf(old(memory)@, old(self).root(), vpn.0 as int)),
            tables_missing(old(memory)@, old(self).root(), vpn.0 as int) <= old(
                memory,
            ).free().len(),
        ensures
            final(self).wf(final(memory)),
            final(self).root() == old(self).root(),
            final(memory).limit() == old(memory).limit(),
            final(memory)@.dom() == old(memory)@.dom(),
            took(
                old(memory).free(),
                final(memory).free(),
                old(self).tables(),
                final(self).tables(),
            ),
            final(memory).free().len() == old(memory).free().len() - tables_missing(
                old(memory)@,
                old(self).root(),
                vpn.0 as int,
            ),
            same_tables_but(old(memory)@, final(memory)@, old(self).root(), vpn.0 as int),
            leaf(final(memory)@, old(self).root(), vpn.0 as int) == pte_of(
                ppn.0 as int,
                in_use(flags.bits as int),
            ),
            forall|v: int|
                0 <= v < VPN_COUNT && v != vpn.0 ==> #[trigger] leaf(
                    final(memory)@,
                    old(self).root(),
                    v,
                ) == leaf(old(memory)@, old(self).root(), v),
            forall|p: int|
                !final(self).tables().contains(p) ==> #[trigger] final(memory)@[p] == old(
                    memory,
                )@[p],
    {
        let ghost mem0 = memory@;
        let ghost root = self.root();
        let slot: Option<PteSlot> = self.find_pte_create(vpn, memory);
        let slot: PteSlot = slot.unwrap();
        let ghost mem1 = memory@;
        let flags: PTEFlags = if flags.bits % 2 == 1 {
            flags
        } else {
            PTEFlags { bits: flags.bits + PTE_V }
        };
        let pte: PageTableEntry = PageTableEntry::new(ppn, flags);
        assert(low_table(mem1, root, top_index(vpn.0 as int), mid_index(vpn.0 as int)) is Some);
        assert(self.tables().contains(slot.table.0 as int));
        memory.write_word(slot.table, slot.idx, pte.bits);
        proof {
            assert(memory@.dom() =~= mem1.dom());
            lemma_set_leaf(mem1, memory@, root, self.tables(), vpn.0 as int);
            assert(same_tables_but(mem0, memory@, root, vpn.0 as int));
        }
    }

    /// Ends the mapping of page `vpn`.
    pub fn unmap(&mut self, vpn: VirtPageNum, memory: &mut Memory)
        requires
            old(self).wf(old(memory)),
            vpn.0 < VPN_COUNT,
            pte_valid(leaf(old(memory)@, old(self).root(), vpn.0 as int)),
        ensures
            final(self).wf(final(memory)),
            final(self).root() == old(self).root(),
            final(self).frame_list() == old(self).frame_list(),
            final(memory).limit() == old(memory).limit(),
            final(memory)@.dom() == old(memory)@.dom(),
            final(memory).free() == old(memory).free(),
            final(memory).next_frame() == old(memory).next_frame(),
            same_tables(old(memory)@, final(memory)@, old(self).root()),
            leaf(final(memory)@, old(self).root(), vpn.0 as int) == 0,
            forall|v: int|
                0 <= v < VPN_COUNT && v != vpn.0 ==> #[trigger] leaf(
                    final(memory)@,
                    old(self).root(),
                    v,
                ) == leaf(old(memory)@, old(self).root(), v),
            forall|p: int|
                !final(self).tables().contains(p) ==> #[trigger] final(memory)@[p] == old(
                    memory,
                )@[p],
    {
        let ghost mem0 = memory@;
        let ghost root = self.root();
        proof {
            self.lemma_walkable(memory);
        }
        let slot: Option<PteSlot> = self.find_pte(vpn, memory);
        let slot: PteSlot = slot.unwrap();
        assert(low_table(mem0, root, top_index(vpn.0 as int), mid_index(vpn.0 as int)) is Some);
        assert(self.tables().contains(slot.table.0 as int));
        memory.write_word(slot.table, slot.idx, PageTableEntry::empty().bits);
        proof {
            assert(memory@.dom() =~= mem0.dom());
            lemma_set_leaf(mem0, memory@, root, self.tables(), vpn.0 as int);
        }
    }

    /// The entry for page `vpn`, if there are tables for it. The entry need not be in use.
    pub fn translate(&self, vpn: VirtPageNum, memory: &Memory) -> (r: Option<PageTableEntry>)
        requires
            walkable(memory@, self.root()),
            vpn.0 < VPN_COUNT,
        ensures
            match r {
                Some(pte) => table_of(memory@, self.root(), vpn.0 as int) is Some && pte.bits
                    == leaf(memory@, self.root(), vpn.0 as int),
                None => table_of(memory@, self.root(), vpn.0 as int) is None,
            },
    {
        match self.find_pte(vpn, memory) {
            Some(slot) => Some(PageTableEntry { bits: memory.read_word(slot.table, slot.idx) }),
            None => None,
        }
    }

    /// The physical address of a virtual one, if there are tables for its page.
    pub fn translate_va(&self, va: VirtAddr, memory: &Memory) -> (r: Option<PhysAddr>)
        requires
            walkable(memory@, self.root()),
            va.0 < 0x80_0000_0000,
        ensures
            match r {
                Some(pa) => table_of(memory@, self.root(), va.0 as int / 4096) is Some && pa.0
                    == pte_ppn(leaf(memory@, self.root(), va.0 as int / 4096)) * 4096 + va.0 as int
                    % 4096,
                None => table_of(memory@, self.root(), va.0 as int / 4096) is None,
            },
    {
        match self.translate(va.floor(), memory) {
            Some(pte) => {
                let aligned: PhysAddr = pte.ppn().start();
                Some(PhysAddr(aligned.0 + va.page_offset()))
            },
            None => None,
        }
    }

    /// The value of the control register for this page table: the Sv39 mode and the root.
    pub fn token(&self) -> (r: u64)
        requires
            self.root() < PPN_COUNT,
        ensures
            r == 0x8000_0000_0000_0000 + self.root(),
    {
        let p: u64 = self.root_ppn.0;
        assert(8u64 << 60u64 | p == 0x8000_0000_0000_0000u64 + p) by (bit_vector)
            requires
                p < 0x1000_0000_0000,
        ;
        8u64 << 60u64 | p
    }

    /// Gives back the frames of all tables.
    pub fn release(self, memory: &mut Memory)
        requires
            self.wf(old(memory)),
        ensures
            final(memory).wf(),
            final(memory).limit() == old(memory).limit(),
            final(memory)@ == old(memory)@,
            final(memory).free() == old(memory).free().union(self.tables()),
    {
        let ghost list = self.frame_list();
        proof {
            assert forall|k: int| 0 <= k < list.len() implies memory@.dom().contains(
                #[trigger] list[k],
            ) && !memory.free().contains(list[k]) && list[k] < memory.limit() by {
                assert(list.contains(list[k]));
                assert(self.tables().contains(list[k]));
            }
        }
        let mut i: usize = 0;
        while i < self.frames.len()
            invariant
                i <= self.frames@.len(),
                list == self.frame_list(),
                list.len() == self.frames@.len(),
                list.no_duplicates(),
                memory.wf(),
                memory.limit() == old(memory).limit(),
                memory@ == old(memory)@,
                forall|p: int| #[trigger]
                    memory.free().contains(p) <==> old(memory).free().contains(p)
                        || list.take(i as int).contains(p),
                forall|k: int|
                    0 <= k < list.len() ==> memory@.dom().contains(#[trigger] list[k]) && !old(
                        memory,
                    ).free().contains(list[k]) && list[k] < memory.limit(),
            decreases self.frames@.len() - i,
        {
            let ppn: PhysPageNum = self.frames[i].ppn;
            proof {
                assert(list[i as int] == ppn.0);
                if list.take(i as int).contains(list[i as int]) {
                    let k = list.take(i as int).index_of(list[i as int]);
                    assert(list[k] == list[i as int]);
                }
            }
            memory.frame_dealloc(ppn);
            proof {
                lemma_take_next(list, i as int);
            }
            i += 1;
        }
        proof {
            assert(list.take(list.len() as int) =~= list);
            assert(memory.free() =~= old(memory).free().union(self.tables()));
        }
    }
}

/// The same tables are there.
pub open spec fn same_tables(mem: Map<int, Seq<u8>>, mem2: Map<int, Seq<u8>>, root: int) -> bool {
    &&& forall|i: int|
        0 <= i < 512 ==> ((#[trigger] mid_table(mem2, root, i)) is Some) == (mid_table(
            mem,
            root,
            i,
        ) is Some)
    &&& forall|i: int, j: int|
        0 <= i < 512 && 0 <= j < 512 ==> ((#[trigger] low_table(mem2, root, i, j)) is Some) == (
        low_table(mem, root, i, j) is Some)
}

proof fn lemma_list_push(list: Seq<int>, p: int)
    requires
        list.no_duplicates(),
        !list.to_set().contains(p),
    ensures
        list.push(p).no_duplicates(),
        list.push(p).to_set() == list.to_set().insert(p),
{
    let list2 = list.push(p);
    assert forall|q: int| #[trigger] list2.to_set().contains(q) == list.to_set().insert(
        p,
    ).contains(q) by {
        if list2.contains(q) {
            let k = list2.index_of(q);
            if k < list.len() {
                assert(list[k] == q);
            }
        }
        if list.contains(q) {
            let k = list.index_of(q);
            assert(list2[k] == q);
        }
        assert(list2[list.len() as int] == p);
    }
    assert(list2.to_set() =~= list.to_set().insert(p));
    assert forall|i: int, j: int| 0 <= i < j < list2.len() implies list2[i] != list2[j] by {
        if j == list.len() {
            assert(list.contains(list[i]));
        }
    }
}

proof fn lemma_take_next(list: Seq<int>, i: int)
    requires
        0 <= i < list.len(),
    ensures
        forall|p: int| #[trigger]
            list.take(i + 1).contains(p) <==> list.take(i).contains(p) || p == list[i],
{
    let a = list.take(i);
    let b = list.take(i + 1);
    assert forall|p: int| #[trigger] b.contains(p) <==> a.contains(p) || p == list[i] by {
        if b.contains(p) {
            let k = b.index_of(p);
            if k < i {
                assert(a[k] == p);
            }
        }
        if a.contains(p) {
            let k = a.index_of(p);
            assert(b[k] == p);
        }
        assert(b[i] == list[i]);
    }
}

} // verus!
