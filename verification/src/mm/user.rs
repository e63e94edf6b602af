//! The memory of programs as the kernel reaches it, through their page tables.

use vstd::arithmetic::div_mod::{lemma_fundamental_div_mod, lemma_fundamental_div_mod_converse};
use vstd::prelude::*;

use super::address::{va_of, PhysAddr, PhysPageNum, VirtAddr, VirtPageNum, PAGE_SIZE};
use super::frame_allocator::Memory;
use super::page_table::{leaf, pte_ppn, table_of, walkable, PageTable, PageTableEntry};
use crate::bytes::{lemma_u32_bytes, splice, u32_bytes, write_u32};

verus! {

/// The root of the page table that a value of the control register names.
pub open spec fn root_of(token: u64) -> int {
    token as int % 0x1000_0000_0000
}

/// The value of the control register for a root leads back to the root.
pub proof fn law_token_names_root(root: int)
    requires
        0 <= root < 0x1000_0000_0000,
    ensures
        root_of((0x8000_0000_0000_0000 + root) as u64) == root,
{
}

/// Where a byte of a program lies: the physical page, and the place in it.
pub open spec fn cell(mem: Map<int, Seq<u8>>, root: int, va: u64) -> (int, int) {
    (pte_ppn(leaf(mem, root, va_of(va) / 4096)), va_of(va) % 4096)
}

/// A byte of a program.
pub open spec fn user_byte(mem: Map<int, Seq<u8>>, root: int, va: u64) -> u8 {
    mem[cell(mem, root, va).0][cell(mem, root, va).1]
}

/// There is a table for the page of the address.
pub open spec fn has_table(mem: Map<int, Seq<u8>>, root: int, va: u64) -> bool {
    table_of(mem, root, va_of(va) / 4096) is Some
}

/// The addresses from `ptr` on lie in one half of the address space.
pub open spec fn in_one_half(ptr: u64, len: u64) -> bool {
    &&& ptr + len <= u64::MAX
    &&& ptr + len <= 0x40_0000_0000 || ptr >= 0xffff_ffc0_0000_0000
}

/// A run of bytes in a physical page.
#[derive(Copy, Clone)]
pub struct UserSegment {
    pub ppn: PhysPageNum,
    pub start: usize,
    pub end: usize,
}

impl UserSegment {
    /// The places of the bytes.
    pub open spec fn cells(self) -> Seq<(int, int)> {
        Seq::new(
            (self.end - self.start) as nat,
            |i: int| (self.ppn.0 as int, self.start + i),
        )
    }

    /// It is a run of at least one byte of a page.
    pub open spec fn wf(self) -> bool {
        self.start < self.end <= 4096
    }
}

/// The places of the bytes of several runs, one behind the other.
pub open spec fn cells_of(segments: Seq<UserSegment>) -> Seq<(int, int)>
    decreases segments.len(),
{
    if segments.len() == 0 {
        Seq::empty()
    } else {
        cells_of(segments.drop_last()) + segments.last().cells()
    }
}

/// How far from `ptr` the bytes of its page number `i` lie, from the page of `ptr` on.
pub open spec fn run_start(ptr: u64, i: int) -> int {
    if i == 0 {
        0
    } else {
        i * 4096 - ptr as int % 4096
    }
}

/// The number of pages in which `len` bytes from `ptr` on lie.
pub open spec fn run_count(ptr: u64, len: u64) -> int {
    if len == 0 {
        0
    } else {
        (ptr as int % 4096 + len + 4095) / 4096
    }
}

/// The runs are those of `len` bytes from `ptr` on, page by page.
pub open spec fn page_by_page(segments: Seq<UserSegment>, ptr: u64, len: u64) -> bool {
    &&& segments.len() == run_count(ptr, len)
    &&& forall|i: int|
        0 <= i < segments.len() ==> {
            let before = #[trigger] cells_of(segments.take(i)).len();
            &&& before == run_start(ptr, i)
            &&& before + segments[i].cells().len() == shorter(run_start(ptr, i + 1), len as int)
        }
}

/// The bytes of a program from `ptr` on, as runs in physical pages.
pub fn translated_byte_buffer(token: u64, ptr: u64, len: u64, memory: &Memory) -> (r: Vec<
    UserSegment,
>)
    requires
        walkable(memory@, root_of(token)),
        in_one_half(ptr, len),
        forall|k: int|
            0 <= k < len ==> has_table(memory@, root_of(token), #[trigger] ((ptr + k) as u64)),
    ensures
        cells_of(r@) == Seq::new(
            len as nat,
            |k: int| cell(memory@, root_of(token), (ptr + k) as u64),
        ),
        forall|i: int| 0 <= i < r@.len() ==> (#[trigger] r@[i]).wf(),
        page_by_page(r@, ptr, len),
{
    let ghost mem = memory@;
    let ghost root = root_of(token);
    let ghost all = Seq::new(len as nat, |k: int| cell(mem, root, (ptr + k) as u64));
    let page_table: PageTable = PageTable::from_token(token);
    let mut start: u64 = ptr;
    let end: u64 = ptr + len;
    let mut v: Vec<UserSegment> = Vec::new();
    assert(all.take(0) =~= cells_of(v@));
    while start < end
        invariant
            ptr <= start <= end,
            end == ptr + len,
            mem == memory@,
            root == root_of(token),
            page_table.root() == root,
            walkable(mem, root),
            in_one_half(ptr, len),
            all == Seq::new(len as nat, |k: int| cell(mem, root, (ptr + k) as u64)),
            forall|k: int|
                0 <= k < len ==> has_table(mem, root, #[trigger] ((ptr + k) as u64)),
            cells_of(v@) == all.take(start - ptr),
            forall|i: int| 0 <= i < v@.len() ==> (#[trigger] v@[i]).wf(),
            if start < end {
                start - ptr == run_start(ptr, v@.len() as int)
            } else {
                v@.len() == run_count(ptr, len)
            },
            forall|i: int|
                0 <= i < v@.len() ==> {
                    let before = #[trigger] cells_of(v@.take(i)).len();
                    &&& before == run_start(ptr, i)
                    &&& before + v@[i].cells().len() == shorter(run_start(ptr, i + 1), len as int)
                },
        decreases end - start,
    {
        let start_va: VirtAddr = VirtAddr::new(start);
        let vpn: VirtPageNum = start_va.floor();
        assert(has_table(mem, root, (ptr + (start - ptr)) as u64));
        let pte: Option<PageTableEntry> = page_table.translate(vpn, memory);
        let ppn: PhysPageNum = pte.unwrap().ppn();
        let offset: u64 = start_va.page_offset();
        let left: u64 = end - start;
        let count: u64 = if left <= PAGE_SIZE - offset {
            left
        } else {
            PAGE_SIZE - offset
        };
        let segment: UserSegment = UserSegment {
            ppn,
            start: offset as usize,
            end: (offset + count) as usize,
        };
        let ghost before = v@;
        v.push(segment);
        proof {
            assert(v@.drop_last() =~= before);
            assert forall|i: int| 0 <= i < count implies #[trigger] segment.cells()[i] == all[start
                - ptr + i] by {
                lemma_within_page(start, i as u64);
                assert((ptr + (start - ptr + i)) as u64 == (start + i) as u64);
            }
            assert(cells_of(v@) =~= all.take(start + count - ptr));
            let n = before.len() as int;
            assert(start as int % 4096 == offset) by {
                lemma_page_offset(start);
            }
            assert forall|i: int| 0 <= i < v@.len() implies {
                let bytes = #[trigger] cells_of(v@.take(i)).len();
                &&& bytes == run_start(ptr, i)
                &&& bytes + v@[i].cells().len() == shorter(run_start(ptr, i + 1), len as int)
            } by {
                assert(v@.take(i) =~= before.take(i));
                if i < n {
                    assert(cells_of(before.take(i)).len() == run_start(ptr, i));
                } else {
                    assert(before.take(n) =~= before);
                }
            }
        }
        start += count;
    }
    assert(all.take(len as int) =~= all);
    v
}

/// The place of an address in its page.
proof fn lemma_page_offset(va: u64)
    ensures
        va as int % 4096 == va_of(va) % 4096,
{
    lemma_fundamental_div_mod(va as int, 0x80_0000_0000);
}

/// Addresses in the same page.
proof fn lemma_within_page(start: u64, i: u64)
    requires
        va_of(start) % 4096 + i < 4096,
        start + i <= u64::MAX,
    ensures
        va_of((start + i) as u64) / 4096 == va_of(start) / 4096,
        va_of((start + i) as u64) % 4096 == va_of(start) % 4096 + i,
{
    let a = va_of(start);
    assert(a < 0x80_0000_0000);
    assert(a == a / 4096 * 4096 + a % 4096);
    assert(a + i < 0x80_0000_0000);
    assert((start + i) as int % 0x80_0000_0000 == a + i) by {
        lemma_fundamental_div_mod(start as int, 0x80_0000_0000);
        lemma_fundamental_div_mod_converse(
            start + i,
            0x80_0000_0000,
            start as int / 0x80_0000_0000,
            a + i,
        );
    }
}

/// A buffer of a program: runs of bytes in physical pages.
pub struct UserBuffer {
    pub segments: Vec<UserSegment>,
}

/// The bytes at these places.
pub open spec fn bytes_at(mem: Map<int, Seq<u8>>, cells: Seq<(int, int)>) -> Seq<u8> {
    cells.map_values(|c: (int, int)| mem[c.0][c.1])
}

/// The runs lie in memory.
pub open spec fn in_memory(segments: Seq<UserSegment>, mem: Map<int, Seq<u8>>) -> bool {
    forall|i: int|
        0 <= i < segments.len() ==> (#[trigger] segments[i]).wf() && mem.dom().contains(
            segments[i].ppn.0 as int,
        )
}

impl UserBuffer {
    /// The places of the bytes of the buffer.
    pub open spec fn cells(&self) -> Seq<(int, int)> {
        cells_of(self.segments@)
    }

    /// A buffer of these runs.
    pub fn new(segments: Vec<UserSegment>) -> (r: Self)
        ensures
            r.segments == segments,
    {
        UserBuffer { segments }
    }

    /// The number of bytes.
    pub fn len(&self) -> (r: usize)
        requires
            forall|i: int|
                0 <= i < self.segments@.len() ==> (#[trigger] self.segments@[i]).wf(),
            self.cells().len() <= usize::MAX,
        ensures
            r == self.cells().len(),
    {
        let ghost segs = self.segments@;
        let mut total: usize = 0;
        let mut i: usize = 0;
        assert(segs.take(0) =~= Seq::empty());
        while i < self.segments.len()
            invariant
                i <= segs.len(),
                segs == self.segments@,
                total == cells_of(segs.take(i as int)).len(),
                cells_of(segs).len() <= usize::MAX,
                forall|j: int| 0 <= j < segs.len() ==> (#[trigger] segs[j]).wf(),
            decreases segs.len() - i,
        {
            let b: UserSegment = self.segments[i];
            proof {
                assert(segs.take(i + 1).drop_last() =~= segs.take(i as int));
                lemma_cells_grow(segs, i + 1);
                assert(segs[i as int].wf());
            }
            total += b.end - b.start;
            i += 1;
        }
        assert(segs.take(i as int) =~= segs);
        total
    }

    /// The bytes of the buffer.
    pub fn gather(&self, memory: &Memory) -> (r: Vec<u8>)
        requires
            in_memory(self.segments@, memory@),
        ensures
            r@ == bytes_at(memory@, self.cells()),
    {
        let ghost segs = self.segments@;
        let mut out: Vec<u8> = Vec::new();
        let mut i: usize = 0;
        assert(segs.take(0) =~= Seq::empty());
        assert(out@ =~= bytes_at(memory@, cells_of(segs.take(0))));
        while i < self.segments.len()
            invariant
                i <= segs.len(),
                segs == self.segments@,
                in_memory(segs, memory@),
                out@ == bytes_at(memory@, cells_of(segs.take(i as int))),
            decreases segs.len() - i,
        {
            let b: UserSegment = self.segments[i];
            assert(segs[i as int].wf());
            let ghost before = out@;
            let mut k: usize = b.start;
            while k < b.end
                invariant
                    b.start <= k <= b.end <= 4096,
                    memory@.dom().contains(b.ppn.0 as int),
                    out@ == before + Seq::new(
                        (k - b.start) as nat,
                        |j: int| memory@[b.ppn.0 as int][b.start + j],
                    ),
                decreases b.end - k,
            {
                out.push(memory.read_byte(b.ppn, k));
                k += 1;
                assert(out@ =~= before + Seq::new(
                    (k - b.start) as nat,
                    |j: int| memory@[b.ppn.0 as int][b.start + j],
                ));
            }
            proof {
                assert(segs.take(i + 1).drop_last() =~= segs.take(i as int));
                assert(out@ =~= bytes_at(memory@, cells_of(segs.take(i + 1))));
            }
            i += 1;
        }
        assert(segs.take(i as int) =~= segs);
        out
    }
}

/// More runs have more places.
proof fn lemma_cells_grow(segs: Seq<UserSegment>, n: int)
    requires
        0 <= n <= segs.len(),
    ensures
        cells_of(segs.take(n)).len() <= cells_of(segs).len(),
    decreases segs.len() - n,
{
    if n < segs.len() {
        lemma_cells_grow(segs, n + 1);
        assert(segs.take(n + 1).drop_last() =~= segs.take(n));
    } else {
        assert(segs.take(n) =~= segs);
    }
}

/// The places of run `n` stand behind those of the runs before it.
pub proof fn lemma_cells_index(segs: Seq<UserSegment>, n: int, m: int)
    requires
        0 <= n < m <= segs.len(),
        forall|i: int| 0 <= i < segs.len() ==> (#[trigger] segs[i]).wf(),
    ensures
        cells_of(segs.take(n)).len() + segs[n].cells().len() <= cells_of(segs.take(m)).len(),
        forall|i: int|
            0 <= i < segs[n].cells().len() ==> cells_of(segs.take(m))[cells_of(segs.take(n)).len()
                + i] == #[trigger] segs[n].cells()[i],
    decreases m - n,
{
    assert(segs.take(m).drop_last() =~= segs.take(m - 1));
    if n + 1 < m {
        lemma_cells_index(segs, n, m - 1);
        assert(segs[m - 1].wf());
    }
}

/// Goes through the places of a buffer.
pub struct UserBufferIterator {
    segments: Vec<UserSegment>,
    current_buffer: usize,
    current_idx: usize,
}

impl UserBufferIterator {
    /// The places of the bytes of the buffer.
    pub closed spec fn cells(&self) -> Seq<(int, int)> {
        cells_of(self.segments@)
    }

    /// How many places it has gone through.
    pub closed spec fn done(&self) -> int {
        cells_of(self.segments@.take(self.current_buffer as int)).len() + self.current_idx
    }

    /// It stands at a place of the buffer or at its end.
    pub closed spec fn wf(&self) -> bool {
        &&& forall|i: int|
            0 <= i < self.segments@.len() ==> (#[trigger] self.segments@[i]).wf()
        &&& self.current_buffer <= self.segments@.len()
        &&& if self.current_buffer < self.segments@.len() {
            self.current_idx < self.segments@[self.current_buffer as int].cells().len()
        } else {
            self.current_idx == 0
        }
    }

    /// The next place, if there is one.
    pub fn next(&mut self) -> (r: Option<(PhysPageNum, usize)>)
        requires
            old(self).wf(),
        ensures
            final(self).wf(),
            final(self).cells() == old(self).cells(),
            old(self).done() <= old(self).cells().len(),
            match r {
                Some((ppn, offset)) => {
                    &&& old(self).done() < old(self).cells().len()
                    &&& old(self).cells()[old(self).done()] == (ppn.0 as int, offset as int)
                    &&& final(self).done() == old(self).done() + 1
                    &&& offset < 4096
                },
                None => {
                    &&& old(self).done() == old(self).cells().len()
                    &&& final(self).done() == old(self).done()
                },
            },
    {
        let ghost segs = self.segments@;
        let ghost n = self.current_buffer as int;
        assert(segs.take(segs.len() as int) =~= segs);
        if self.current_buffer >= self.segments.len() {
            None
        } else {
            let b: UserSegment = self.segments[self.current_buffer];
            proof {
                lemma_cells_index(segs, n, segs.len() as int);
                assert(segs[n].wf());
                assert(segs.take(n + 1).drop_last() =~= segs.take(n));
                assert(segs[n].cells()[self.current_idx as int] == (
                    b.ppn.0 as int,
                    b.start + self.current_idx,
                ));
            }
            let place: usize = b.start + self.current_idx;
            if self.current_idx + 1 == b.end - b.start {
                self.current_idx = 0;
                self.current_buffer = self.current_buffer + 1;
                proof {
                    if n + 1 < segs.len() {
                        assert(segs[n + 1].wf());
                    }
                }
            } else {
                self.current_idx = self.current_idx + 1;
            }
            Some((b.ppn, place))
        }
    }
}

impl UserBuffer {
    /// Goes through the places of the buffer from the first on.
    pub fn into_iter(self) -> (r: UserBufferIterator)
        requires
            forall|i: int|
                0 <= i < self.segments@.len() ==> (#[trigger] self.segments@[i]).wf(),
        ensures
            r.wf(),
            r.cells() == self.cells(),
            r.done() == 0,
    {
        let r: UserBufferIterator = UserBufferIterator {
            segments: self.segments,
            current_buffer: 0,
            current_idx: 0,
        };
        proof {
            assert(r.segments@.take(0) =~= Seq::empty());
            if r.segments@.len() > 0 {
                assert(r.segments@[0].wf());
            }
        }
        r
    }

    /// Puts data into the buffer, byte by byte, as far as the data and the buffer go.
    pub fn scatter(self, data: &[u8], memory: &mut Memory)
        requires
            in_memory(self.segments@, old(memory)@),
        ensures
            final(memory)@ == put_bytes(
                old(memory)@,
                self.cells(),
                data@,
                shorter(self.cells().len() as int, data@.len() as int),
            ),
            final(memory)@.dom() == old(memory)@.dom(),
            final(memory).free() == old(memory).free(),
            final(memory).limit() == old(memory).limit(),
            final(memory).next_frame() == old(memory).next_frame(),
            old(memory).wf() ==> final(memory).wf(),
    {
        let ghost cells = self.cells();
        let ghost segs = self.segments@;
        let ghost mem0 = memory@;
        proof {
            assert forall|k: int| 0 <= k < cells.len() implies mem0.dom().contains(
                (#[trigger] cells[k]).0,
            ) by {
                lemma_cells_in_memory(segs, mem0, k);
            }
        }
        let mut iter: UserBufferIterator = self.into_iter();
        let mut k: usize = 0;
        while k < data.len()
            invariant_except_break
                iter.done() == k,
                memory@ == put_bytes(mem0, cells, data@, k as int),
            invariant
                k <= data@.len(),
                iter.wf(),
                iter.cells() == cells,
                k <= cells.len(),
                memory@.dom() == mem0.dom(),
                forall|j: int|
                    0 <= j < cells.len() ==> mem0.dom().contains((#[trigger] cells[j]).0),
                memory.free() == old(memory).free(),
                memory.limit() == old(memory).limit(),
                memory.next_frame() == old(memory).next_frame(),
                old(memory).wf() ==> memory.wf(),
            ensures
                memory@ == put_bytes(
                    mem0,
                    cells,
                    data@,
                    shorter(cells.len() as int, data@.len() as int),
                ),
            decreases data@.len() - k,
        {
            match iter.next() {
                Some((ppn, offset)) => {
                    assert(mem0.dom().contains(cells[k as int].0));
                    let ghost m1 = memory@;
                    memory.write_byte(ppn, offset, data[k]);
                    proof {
                        assert(memory@.dom() =~= mem0.dom());
                        assert(memory@ == put_bytes(mem0, cells, data@, k + 1));
                    }
                },
                None => {
                    break ;
                },
            }
            k += 1;
        }
    }
}

/// The smaller number.
pub open spec fn shorter(a: int, b: int) -> int {
    if a <= b {
        a
    } else {
        b
    }
}

/// Memory after the first `n` bytes of `data` were put to these places, one after the other.
pub open spec fn put_bytes(
    mem: Map<int, Seq<u8>>,
    cells: Seq<(int, int)>,
    data: Seq<u8>,
    n: int,
) -> Map<int, Seq<u8>>
    decreases n,
{
    if n <= 0 {
        mem
    } else {
        let m = put_bytes(mem, cells, data, n - 1);
        let c = cells[n - 1];
        m.insert(c.0, m[c.0].update(c.1, data[n - 1]))
    }
}

/// A place of a buffer lies in memory.
proof fn lemma_cells_in_memory(segs: Seq<UserSegment>, mem: Map<int, Seq<u8>>, k: int)
    requires
        in_memory(segs, mem),
        0 <= k < cells_of(segs).len(),
    ensures
        mem.dom().contains(cells_of(segs)[k].0),
        0 <= cells_of(segs)[k].1 < 4096,
    decreases segs.len(),
{
    let n = segs.len() - 1;
    let before = cells_of(segs.drop_last());
    if k < before.len() {
        assert forall|i: int| 0 <= i < n implies (#[trigger] segs.drop_last()[i]).wf()
            && mem.dom().contains(segs.drop_last()[i].ppn.0 as int) by {
            assert(segs.drop_last()[i] == segs[i]);
        }
        lemma_cells_in_memory(segs.drop_last(), mem, k);
    } else {
        assert(segs[n].wf());
        assert(cells_of(segs)[k] == segs[n].cells()[k - before.len()]);
    }
}

/// Putting bytes changes only the pages of the places, and keeps their sizes.
pub proof fn lemma_put_bytes(
    mem: Map<int, Seq<u8>>,
    cells: Seq<(int, int)>,
    data: Seq<u8>,
    n: int,
)
    requires
        0 <= n <= cells.len(),
        n <= data.len(),
        forall|k: int|
            0 <= k < n ==> {
                let c = #[trigger] cells[k];
                mem.dom().contains(c.0) && 0 <= c.1 < mem[c.0].len()
            },
    ensures
        put_bytes(mem, cells, data, n).dom() == mem.dom(),
        forall|q: int|
            (forall|k: int| 0 <= k < n ==> (#[trigger] cells[k]).0 != q) ==> #[trigger] put_bytes(
                mem,
                cells,
                data,
                n,
            )[q] == mem[q],
        forall|q: int| (#[trigger] put_bytes(mem, cells, data, n)[q]).len() == mem[q].len(),
        forall|q: int, i: int|
            0 <= i < mem[q].len() && (forall|k: int|
                0 <= k < n ==> #[trigger] cells[k] != (q, i)) ==> #[trigger] put_bytes(
                mem,
                cells,
                data,
                n,
            )[q][i] == mem[q][i],
    decreases n,
{
    if n > 0 {
        lemma_put_bytes(mem, cells, data, n - 1);
        let m = put_bytes(mem, cells, data, n - 1);
        let c = cells[n - 1];
        let m2 = put_bytes(mem, cells, data, n);
        assert(mem.dom().contains(c.0) && 0 <= c.1 < mem[c.0].len());
        assert(m[c.0].len() == mem[c.0].len());
        assert(m2.dom() =~= mem.dom());
        assert forall|q: int|
            (forall|k: int| 0 <= k < n ==> (#[trigger] cells[k]).0 != q) implies #[trigger] m2[q]
            == mem[q] by {
            assert(cells[n - 1].0 != q);
            assert(m[q] == mem[q]);
        }
        assert forall|q: int, i: int|
            0 <= i < mem[q].len() && (forall|k: int|
                0 <= k < n ==> #[trigger] cells[k] != (q, i)) implies #[trigger] m2[q][i]
            == mem[q][i] by {
            assert(cells[n - 1] != (q, i));
            assert(m[q][i] == mem[q][i]);
        }
    }
}

/// What is put into a buffer whose places are apart is what is then in it.
pub proof fn law_read_gives_what_was_put(
    mem: Map<int, Seq<u8>>,
    cells: Seq<(int, int)>,
    data: Seq<u8>,
    n: int,
)
    requires
        0 <= n <= cells.len(),
        n <= data.len(),
        cells.no_duplicates(),
        forall|k: int| 0 <= k < cells.len() ==> {
            let c = #[trigger] cells[k];
            mem.dom().contains(c.0) && 0 <= c.1 < mem[c.0].len()
        },
    ensures
        bytes_at(put_bytes(mem, cells, data, n), cells.take(n)) == data.take(n),
    decreases n,
{
    let m2 = put_bytes(mem, cells, data, n);
    if n > 0 {
        law_read_gives_what_was_put(mem, cells, data, n - 1);
        lemma_put_bytes(mem, cells, data, n - 1);
        let m = put_bytes(mem, cells, data, n - 1);
        let before = bytes_at(m, cells.take(n - 1));
        assert forall|k: int| 0 <= k < n implies #[trigger] bytes_at(m2, cells.take(n))[k]
            == data[k] by {
            let c = cells[k];
            assert(mem.dom().contains(c.0) && 0 <= c.1 < mem[c.0].len());
            if k < n - 1 {
                assert(before[k] == data.take(n - 1)[k]);
                assert(m[c.0][c.1] == data[k]);
                assert(cells[k] != cells[n - 1]);
            }
        }
    }
    assert(bytes_at(m2, cells.take(n)) =~= data.take(n));
}

/// Adds a character at the end of a text. Calls `String::push`, whose documentation says just that.
#[verifier::external_body]
pub(crate) fn push_char(text: &mut String, c: char)
    ensures
        final(text)@ == old(text)@.push(c),
{
    text.push(c);
}

/// The text of `n` bytes at `ptr` ends there with a zero; all of it can be reached.
pub open spec fn is_text(mem: Map<int, Seq<u8>>, root: int, ptr: u64, n: int) -> bool {
    &&& 0 <= n
    &&& ptr + n <= u64::MAX
    &&& forall|k: int|
        0 <= k <= n ==> {
            let va = #[trigger] ((ptr + k) as u64);
            has_table(mem, root, va) && mem.dom().contains(cell(mem, root, va).0)
        }
    &&& forall|k: int|
        0 <= k < n ==> user_byte(mem, root, #[trigger] ((ptr + k) as u64)) != 0
    &&& user_byte(mem, root, (ptr + n) as u64) == 0
}

/// The text at `ptr`: each byte up to the zero is a character.
pub open spec fn text_at(mem: Map<int, Seq<u8>>, root: int, ptr: u64) -> Seq<char> {
    let n = choose|n: int| is_text(mem, root, ptr, n);
    Seq::new(n as nat, |k: int| user_byte(mem, root, (ptr + k) as u64) as char)
}

/// The text of a program at `ptr`, up to the first zero.
pub fn translated_str(token: u64, ptr: u64, memory: &Memory) -> (r: String)
    requires
        walkable(memory@, root_of(token)),
        exists|n: int| is_text(memory@, root_of(token), ptr, n),
    ensures
        r@ == text_at(memory@, root_of(token), ptr),
{
    let ghost mem = memory@;
    let ghost root = root_of(token);
    let ghost n = choose|n: int| is_text(mem, root, ptr, n);
    let page_table: PageTable = PageTable::from_token(token);
    let mut string: String = String::new();
    let mut va: u64 = ptr;
    let ghost text = text_at(mem, root, ptr);
    assert(string@ =~= text.take(0));
    loop
        invariant_except_break
            ptr <= va <= ptr + n,
            string@ == text.take(va - ptr),
        invariant
            mem == memory@,
            root == root_of(token),
            page_table.root() == root,
            walkable(mem, root),
            is_text(mem, root, ptr, n),
            text == Seq::new(n as nat, |k: int| user_byte(mem, root, (ptr + k) as u64) as char),
        ensures
            string@ == text,
        decreases ptr + n - va,
    {
        let ghost k = va - ptr;
        assert(has_table(mem, root, (ptr + k) as u64));
        let pa: Option<PhysAddr> = page_table.translate_va(VirtAddr::new(va), memory);
        let pa: PhysAddr = pa.unwrap();
        let ppn: PhysPageNum = pa.floor();
        let offset: usize = pa.page_offset() as usize;
        proof {
            let p = cell(mem, root, va).0;
            lemma_fundamental_div_mod_converse(pa.0 as int, 4096, p, va_of(va) % 4096);
        }
        let ch: u8 = memory.read_byte(ppn, offset);
        assert(ch == user_byte(mem, root, (ptr + k) as u64));
        if ch == 0 {
            assert(k == n);
            assert(text.take(n) =~= text);
            break ;
        }
        assert(k < n);
        push_char(&mut string, ch as char);
        va += 1;
        assert(string@ =~= text.take(va - ptr));
    }
    string
}

/// The physical address of an object of a program.
pub fn translated_ref(token: u64, ptr: u64, memory: &Memory) -> (r: PhysAddr)
    requires
        walkable(memory@, root_of(token)),
        has_table(memory@, root_of(token), ptr),
    ensures
        r.0 == cell(memory@, root_of(token), ptr).0 * 4096 + cell(memory@, root_of(token), ptr).1,
{
    let page_table: PageTable = PageTable::from_token(token);
    let pa: Option<PhysAddr> = page_table.translate_va(VirtAddr::new(ptr), memory);
    pa.unwrap()
}

/// The physical address of an object of a program that is to be changed.
pub fn translated_refmut(token: u64, ptr: u64, memory: &Memory) -> (r: PhysAddr)
    requires
        walkable(memory@, root_of(token)),
        has_table(memory@, root_of(token), ptr),
    ensures
        r.0 == cell(memory@, root_of(token), ptr).0 * 4096 + cell(memory@, root_of(token), ptr).1,
{
    let page_table: PageTable = PageTable::from_token(token);
    let pa: Option<PhysAddr> = page_table.translate_va(VirtAddr::new(ptr), memory);
    pa.unwrap()
}

/// Stores a 32-bit integer in the memory of a program.
pub fn write_user_i32(token: u64, ptr: u64, value: i32, memory: &mut Memory)
    requires
        old(memory).wf(),
        walkable(old(memory)@, root_of(token)),
        has_table(old(memory)@, root_of(token), ptr),
        old(memory)@.dom().contains(cell(old(memory)@, root_of(token), ptr).0),
        ptr % 4 == 0,
    ensures
        final(memory).wf(),
        final(memory).free() == old(memory).free(),
        final(memory).limit() == old(memory).limit(),
        final(memory).next_frame() == old(memory).next_frame(),
        ({
            let c = cell(old(memory)@, root_of(token), ptr);
            final(memory)@ == old(memory)@.insert(
                c.0,
                splice(old(memory)@[c.0], c.1, u32_bytes(value as u32)),
            )
        }),
{
    let ghost c = cell(memory@, root_of(token), ptr);
    let pa: PhysAddr = translated_refmut(token, ptr, memory);
    let ppn: PhysPageNum = pa.floor();
    let offset: usize = pa.page_offset() as usize;
    proof {
        lemma_fundamental_div_mod_converse(pa.0 as int, 4096, c.0, c.1);
        let v = ptr as int;
        assert(v % 0x80_0000_0000 % 4096 % 4 == 0) by {
            lemma_fundamental_div_mod(v, 0x80_0000_0000);
            lemma_fundamental_div_mod(v % 0x80_0000_0000, 4096);
        }
    }
    let mut bytes: [u8; 4] = [0u8; 4];
    write_u32(&mut bytes, 0, value as u32);
    proof {
        lemma_u32_bytes();
        assert(bytes@ =~= u32_bytes(value as u32));
    }
    memory.write_page(ppn, offset, bytes.as_slice());
}

} // verus!
