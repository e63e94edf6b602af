//! Physical memory and the allocation of its frames.

use vstd::prelude::*;
use vstd::set_lib::{lemma_int_range, lemma_len_subset, set_int_range};

use super::address::{page_ceil, page_floor, PhysAddr, PhysPageNum, PPN_COUNT};
use crate::bytes::{
    lemma_zero_u64, read_u64, same_outside, splice, u64_at, write_bytes, write_u64,
};

verus! {

/// Frames, page by page. It hands out frames that came back first, the last one of them before the
/// others, and then those that were never handed out, in ascending order.
pub struct StackFrameAllocator {
    current: u64,
    end: u64,
    recycled: Vec<u64>,
}

impl StackFrameAllocator {
    /// The first frame that was never handed out.
    pub closed spec fn next(&self) -> int {
        self.current as int
    }

    /// The first frame behind those that it hands out.
    pub closed spec fn limit(&self) -> int {
        self.end as int
    }

    /// The frames that came back, in the order in which they came.
    pub closed spec fn returned(&self) -> Seq<u64> {
        self.recycled@
    }

    /// The frames that can be handed out.
    pub open spec fn free(&self) -> Set<int> {
        Set::new(
            |p: int|
                self.next() <= p < self.limit() || 0 <= p <= u64::MAX && self.returned().contains(
                    p as u64,
                ),
        )
    }

    /// No frame came back twice, and only frames that were handed out came back.
    pub open spec fn wf(&self) -> bool {
        &&& self.next() <= self.limit()
        &&& self.returned().no_duplicates()
        &&& forall|i: int|
            0 <= i < self.returned().len() ==> #[trigger] self.returned()[i] < self.next()
    }

    /// An allocator without frames.
    pub fn new() -> (r: Self)
        ensures
            r.wf(),
            r.next() == 0,
            r.limit() == 0,
            r.returned() == Seq::<u64>::empty(),
    {
        StackFrameAllocator { current: 0, end: 0, recycled: Vec::new() }
    }

    /// Gives it the frames from `l` on, up to but without `r`.
    pub fn init(&mut self, l: PhysPageNum, r: PhysPageNum)
        ensures
            final(self).next() == l.0,
            final(self).limit() == r.0,
            final(self).returned() == old(self).returned(),
    {
        self.current = l.0;
        self.end = r.0;
    }

    /// Hands out a frame: the one that came back last, or else the first that was never handed out.
    pub fn allocate(&mut self) -> (r: Option<PhysPageNum>)
        requires
            old(self).wf(),
        ensures
            final(self).wf(),
            final(self).limit() == old(self).limit(),
            match r {
                Some(ppn) => {
                    &&& final(self).free() == old(self).free().remove(ppn.0 as int)
                    &&& old(self).free().contains(ppn.0 as int)
                    &&& if old(self).returned().len() > 0 {
                        &&& ppn.0 == old(self).returned().last()
                        &&& final(self).returned() == old(self).returned().drop_last()
                        &&& final(self).next() == old(self).next()
                    } else {
                        &&& ppn.0 == old(self).next()
                        &&& final(self).returned() == old(self).returned()
                        &&& final(self).next() == old(self).next() + 1
                    }
                },
                None => {
                    &&& final(self).next() == old(self).next()
                    &&& final(self).returned() == old(self).returned()
                    &&& old(self).returned().len() == 0
                    &&& old(self).next() == old(self).limit()
                    &&& old(self).free() == Set::<int>::empty()
                },
            },
    {
        let ghost before = self.recycled@;
        let last: Option<u64> = self.recycled.pop();
        match last {
            Some(ppn) => {
                proof {
                    let n = before.len() - 1;
                    assert(self.recycled@ =~= before.drop_last());
                    assert(before[n] == ppn);
                    assert forall|p: int| #[trigger] self.free().contains(p) implies old(
                        self,
                    ).free().remove(ppn as int).contains(p) by {
                        if self.recycled@.contains(p as u64) && 0 <= p <= u64::MAX {
                            let i = self.recycled@.index_of(p as u64);
                            assert(before[i] == p);
                        }
                    }
                    assert forall|p: int| #[trigger] old(self).free().remove(ppn as int).contains(
                        p,
                    ) implies self.free().contains(p) by {
                        if before.contains(p as u64) && 0 <= p <= u64::MAX {
                            let i = before.index_of(p as u64);
                            assert(i != n);
                            assert(self.recycled@[i] == p);
                        }
                    }
                    assert(self.free() =~= old(self).free().remove(ppn as int));
                    assert(old(self).free().contains(ppn as int)) by {
                        assert(before.contains(ppn));
                    }
                }
                Some(PhysPageNum(ppn))
            },
            None => {
                if self.current == self.end {
                    assert(self.free() =~= Set::<int>::empty());
                    assert(self.recycled@ =~= before);
                    None
                } else {
                    self.current = self.current + 1;
                    assert(self.recycled@ =~= before);
                    assert(self.free() =~= old(self).free().remove(self.current - 1));
                    Some(PhysPageNum(self.current - 1))
                }
            },
        }
    }

    /// How many frames can be handed out.
    pub fn available(&self) -> (r: u64)
        requires
            self.wf(),
            self.limit() - self.next() + self.returned().len() <= u64::MAX,
        ensures
            r == self.limit() - self.next() + self.returned().len(),
    {
        self.end - self.current + self.recycled.len() as u64
    }

    /// The number of frames that can be handed out.
    pub proof fn lemma_free_len(&self)
        requires
            self.wf(),
        ensures
            self.free().finite(),
            self.free().len() == self.limit() - self.next() + self.returned().len(),
    {
        let fresh = set_int_range(self.next(), self.limit());
        lemma_int_range(self.next(), self.limit());
        let ids = self.returned().map_values(|p: u64| p as int);
        let back = ids.to_set();
        assert(ids.no_duplicates()) by {
            assert forall|i: int, j: int| 0 <= i < j < ids.len() implies ids[i] != ids[j] by {
                assert(self.returned()[i] != self.returned()[j]);
            }
        }
        ids.unique_seq_to_set();
        assert forall|p: int| #[trigger] back.contains(p) implies p < self.next() && 0 <= p
            <= u64::MAX && self.returned().contains(p as u64) by {
            let i = ids.index_of(p);
            assert(self.returned()[i] < self.next());
        }
        assert(fresh.disjoint(back));
        vstd::set_lib::lemma_set_disjoint_lens(fresh, back);
        assert forall|p: int| #[trigger] self.free().contains(p) == fresh.union(back).contains(p) by {
            if 0 <= p <= u64::MAX && self.returned().contains(p as u64) {
                let i = self.returned().index_of(p as u64);
                assert(ids[i] == p);
                assert(ids.contains(p));
            }
        }
        assert(self.free() =~= fresh.union(back));
    }

    /// Takes a frame back that was handed out.
    pub fn dealloc(&mut self, ppn: PhysPageNum)
        requires
            old(self).wf(),
            ppn.0 < old(self).next(),
            !old(self).returned().contains(ppn.0),
        ensures
            final(self).wf(),
            final(self).next() == old(self).next(),
            final(self).limit() == old(self).limit(),
            final(self).returned() == old(self).returned().push(ppn.0),
            final(self).free() == old(self).free().insert(ppn.0 as int),
    {
        let ghost before = self.recycled@;
        self.recycled.push(ppn.0);
        proof {
            let after = self.recycled@;
            assert forall|p: int| #[trigger] self.free().contains(p) == old(self).free().insert(
                ppn.0 as int,
            ).contains(p) by {
                if before.contains(p as u64) {
                    let i = before.index_of(p as u64);
                    assert(after[i] == p as u64);
                }
                if after.contains(p as u64) {
                    let i = after.index_of(p as u64);
                    if i < before.len() {
                        assert(before[i] == p as u64);
                    }
                }
                assert(after[before.len() as int] == ppn.0);
            }
            assert(self.free() =~= old(self).free().insert(ppn.0 as int));
        }
    }
}

/// A frame that was handed out. Whoever has it owns the frame.
#[derive(Debug)]
pub struct FrameTracker {
    pub ppn: PhysPageNum,
}

impl FrameTracker {
    /// Owns a frame and fills it with zeros.
    pub fn new(ppn: PhysPageNum, memory: &mut Memory) -> (r: Self)
        requires
            old(memory)@.dom().contains(ppn.0 as int),
        ensures
            r.ppn == ppn,
            final(memory)@ == old(memory)@.insert(ppn.0 as int, zero_page()),
            final(memory).free() == old(memory).free(),
            final(memory).limit() == old(memory).limit(),
            old(memory).wf() ==> final(memory).wf(),
    {
        memory.clear_page(ppn);
        FrameTracker { ppn }
    }
}

/// A page of zeros.
pub open spec fn zero_page() -> Seq<u8> {
    Seq::new(4096, |i: int| 0u8)
}

/// Physical memory from page `base` on, and the allocator of its frames.
pub struct Memory {
    base: u64,
    pages: Vec<[u8; 4096]>,
    allocator: StackFrameAllocator,
}

impl Memory {
    /// The pages of the memory by their numbers.
    pub closed spec fn view(&self) -> Map<int, Seq<u8>> {
        Map::new(
            |p: int| self.base <= p < self.base + self.pages@.len(),
            |p: int| self.pages@[p - self.base]@,
        )
    }

    /// The frames that can be handed out.
    pub closed spec fn free(&self) -> Set<int> {
        self.allocator.free()
    }

    /// The first frame behind those that are handed out.
    pub closed spec fn limit(&self) -> int {
        self.allocator.limit()
    }

    /// What is handed out next, if anything is.
    pub closed spec fn next_frame(&self) -> int {
        if self.allocator.returned().len() > 0 {
            self.allocator.returned().last() as int
        } else {
            self.allocator.next()
        }
    }

    /// The allocator is in order and hands out frames of this memory only.
    pub closed spec fn wf(&self) -> bool {
        &&& self.allocator.wf()
        &&& self.base + self.pages@.len() <= PPN_COUNT
        &&& forall|p: int| #[trigger] self.free().contains(p) ==> self@.dom().contains(p)
    }

    /// What follows of a memory in order.
    pub proof fn lemma_wf(&self)
        requires
            self.wf(),
        ensures
            forall|p: int| #[trigger] self@.dom().contains(p) ==> 0 <= p < PPN_COUNT && self@[p].len()
                == 4096,
            forall|p: int| #[trigger]
                self.free().contains(p) ==> self@.dom().contains(p) && p < self.limit(),
            self.free().finite(),
    {
        assert forall|p: int| #[trigger] self.free().contains(p) implies p < self.limit() by {
            if self.allocator.returned().contains(p as u64) {
                let i = self.allocator.returned().index_of(p as u64);
                assert(self.allocator.returned()[i] < self.allocator.next());
            }
        }
        lemma_int_range(self.base as int, self.base + self.pages@.len());
        lemma_len_subset(
            self.free(),
            set_int_range(self.base as int, self.base + self.pages@.len()),
        );
    }

    /// There are at most as many free frames as there are physical pages.
    pub proof fn lemma_frames(&self)
        requires
            self.wf(),
        ensures
            self.free().len() <= PPN_COUNT,
    {
        self.lemma_wf();
        lemma_int_range(self.base as int, self.base + self.pages@.len());
        lemma_len_subset(
            self.free(),
            set_int_range(self.base as int, self.base + self.pages@.len()),
        );
    }

    /// Memory of `count` pages of zeros from page `base` on, without frames to hand out.
    pub fn new(base: PhysPageNum, count: usize) -> (r: Self)
        requires
            base.0 + count <= PPN_COUNT,
        ensures
            r.wf(),
            r.free() == Set::<int>::empty(),
            forall|p: int|
                #[trigger] r@.dom().contains(p) <==> base.0 <= p < base.0 + count,
            forall|p: int| #[trigger] r@.dom().contains(p) ==> r@[p] == zero_page(),
    {
        let mut pages: Vec<[u8; 4096]> = Vec::new();
        let mut i: usize = 0;
        while i < count
            invariant
                i <= count,
                pages@.len() == i,
                forall|j: int| 0 <= j < i ==> #[trigger] pages@[j]@ == zero_page(),
            decreases count - i,
        {
            let page: [u8; 4096] = [0u8; 4096];
            assert(page@ =~= zero_page());
            pages.push(page);
            i += 1;
        }
        let r: Self = Memory { base: base.0, pages, allocator: StackFrameAllocator::new() };
        assert(r.free() =~= Set::<int>::empty());
        r
    }

    /// Gives the allocator the frames behind the kernel, up to the end of the memory.
    pub fn init_frame_allocator(&mut self, ekernel: u64, memory_end: u64)
        requires
            old(self).wf(),
            old(self).free() == Set::<int>::empty(),
            page_ceil(ekernel as int % 0x100_0000_0000_0000) <= page_floor(
                memory_end as int % 0x100_0000_0000_0000,
            ),
            forall|p: int|
                page_ceil(ekernel as int % 0x100_0000_0000_0000) <= p < page_floor(
                    memory_end as int % 0x100_0000_0000_0000,
                ) ==> #[trigger] old(self)@.dom().contains(p),
        ensures
            final(self).wf(),
            final(self)@ == old(self)@,
            final(self).limit() == page_floor(memory_end as int % 0x100_0000_0000_0000),
            forall|p: int| #[trigger]
                final(self).free().contains(p) <==> page_ceil(
                    ekernel as int % 0x100_0000_0000_0000,
                ) <= p < page_floor(memory_end as int % 0x100_0000_0000_0000),
    {
        proof {
            let list = self.allocator.returned();
            if list.len() > 0 {
                assert(list.contains(list[0]));
                assert(self.free().contains(list[0] as int));
            }
        }
        self.allocator.init(PhysAddr::new(ekernel).ceil(), PhysAddr::new(memory_end).floor());
        assert(self@ =~= old(self)@);
    }

    /// How many frames can be handed out.
    pub fn available(&self) -> (r: u64)
        requires
            self.wf(),
        ensures
            r == self.free().len(),
    {
        proof {
            self.allocator.lemma_free_len();
            self.lemma_frames();
        }
        self.allocator.available()
    }

    /// Hands out a frame, filled with zeros; `None` if there is none.
    pub fn frame_alloc(&mut self) -> (r: Option<FrameTracker>)
        requires
            old(self).wf(),
        ensures
            final(self).wf(),
            final(self).limit() == old(self).limit(),
            match r {
                Some(frame) => {
                    let p = frame.ppn.0 as int;
                    &&& p == old(self).next_frame()
                    &&& old(self).free().contains(p)
                    &&& final(self).free() == old(self).free().remove(p)
                    &&& final(self)@ == old(self)@.insert(p, zero_page())
                },
                None => {
                    &&& old(self).free() == Set::<int>::empty()
                    &&& final(self).free() == old(self).free()
                    &&& final(self)@ == old(self)@
                },
            },
    {
        let ppn: Option<PhysPageNum> = self.allocator.allocate();
        assert(self@ =~= old(self)@);
        match ppn {
            Some(ppn) => {
                assert(old(self).free().contains(ppn.0 as int));
                Some(FrameTracker::new(ppn, self))
            },
            None => None,
        }
    }

    /// Takes back a frame that was handed out.
    pub fn frame_dealloc(&mut self, ppn: PhysPageNum)
        requires
            old(self).wf(),
            old(self)@.dom().contains(ppn.0 as int),
            ppn.0 < old(self).limit(),
            !old(self).free().contains(ppn.0 as int),
        ensures
            final(self).wf(),
            final(self).limit() == old(self).limit(),
            final(self)@ == old(self)@,
            final(self).free() == old(self).free().insert(ppn.0 as int),
            final(self).next_frame() == ppn.0,
    {
        self.allocator.dealloc(ppn);
        assert(self@ =~= old(self)@);
    }

    proof fn lemma_same_frames(&self, before: &Memory)
        requires
            self.allocator == before.allocator,
            self.base == before.base,
            self.pages@.len() == before.pages@.len(),
        ensures
            self.free() == before.free(),
            before.wf() ==> self.wf(),
    {
        if before.wf() {
            assert forall|p: int| #[trigger] self.free().contains(p) implies self@.dom().contains(
                p,
            ) by {
                assert(before.free().contains(p));
                assert(before@.dom().contains(p));
            }
        }
    }

    /// Where a page stands in the memory.
    fn place(&self, ppn: PhysPageNum) -> (r: usize)
        requires
            self@.dom().contains(ppn.0 as int),
        ensures
            r == ppn.0 - self.base,
            r < self.pages@.len(),
    {
        let n: usize = self.pages.len();
        (ppn.0 - self.base) as usize
    }

    /// Fills a page with zeros.
    pub fn clear_page(&mut self, ppn: PhysPageNum)
        requires
            old(self)@.dom().contains(ppn.0 as int),
        ensures
            final(self)@ == old(self)@.insert(ppn.0 as int, zero_page()),
            final(self).free() == old(self).free(),
            final(self).limit() == old(self).limit(),
            final(self).next_frame() == old(self).next_frame(),
            old(self).wf() ==> final(self).wf(),
    {
        let i: usize = self.place(ppn);
        let page: [u8; 4096] = [0u8; 4096];
        self.pages[i] = page;
        assert(page@ =~= zero_page());
        assert(self@ =~= old(self)@.insert(ppn.0 as int, zero_page()));
        proof {
            self.lemma_same_frames(old(self));
        }
    }

    /// Copies a page over another.
    pub fn copy_page(&mut self, from: PhysPageNum, to: PhysPageNum)
        requires
            old(self)@.dom().contains(from.0 as int),
            old(self)@.dom().contains(to.0 as int),
        ensures
            final(self)@ == old(self)@.insert(to.0 as int, old(self)@[from.0 as int]),
            final(self).free() == old(self).free(),
            final(self).limit() == old(self).limit(),
            final(self).next_frame() == old(self).next_frame(),
            old(self).wf() ==> final(self).wf(),
    {
        let page: [u8; 4096] = self.pages[self.place(from)];
        let i: usize = self.place(to);
        self.pages[i] = page;
        assert(self@ =~= old(self)@.insert(to.0 as int, old(self)@[from.0 as int]));
        proof {
            self.lemma_same_frames(old(self));
        }
    }

    /// Whether there is a page of that number.
    pub fn has_page(&self, ppn: PhysPageNum) -> (r: bool)
        ensures
            r == self@.dom().contains(ppn.0 as int),
    {
        ppn.0 >= self.base && ppn.0 - self.base < self.pages.len() as u64
    }

    /// The 64-bit integer at place `idx` of a page.
    pub fn read_word(&self, ppn: PhysPageNum, idx: usize) -> (r: u64)
        requires
            self@.dom().contains(ppn.0 as int),
            idx < 512,
        ensures
            r == word_at(self@, ppn.0 as int, idx as int),
    {
        let i: usize = self.place(ppn);
        read_u64(self.pages[i].as_slice(), 8 * idx)
    }

    /// Puts a 64-bit integer at place `idx` of a page.
    pub fn write_word(&mut self, ppn: PhysPageNum, idx: usize, value: u64)
        requires
            old(self)@.dom().contains(ppn.0 as int),
            idx < 512,
        ensures
            final(self)@ == old(self)@.insert(ppn.0 as int, final(self)@[ppn.0 as int]),
            final(self)@[ppn.0 as int].len() == 4096,
            word_at(final(self)@, ppn.0 as int, idx as int) == value,
            forall|k: int|
                0 <= k < 512 && k != idx ==> #[trigger] word_at(final(self)@, ppn.0 as int, k)
                    == word_at(old(self)@, ppn.0 as int, k),
            same_outside(
                old(self)@[ppn.0 as int],
                final(self)@[ppn.0 as int],
                8 * idx as int,
                8 * idx + 8,
            ),
            final(self).free() == old(self).free(),
            final(self).limit() == old(self).limit(),
            final(self).next_frame() == old(self).next_frame(),
            old(self).wf() ==> final(self).wf(),
    {
        let i: usize = self.place(ppn);
        let ghost before = self@[ppn.0 as int];
        let mut page: [u8; 4096] = self.pages[i];
        write_u64(&mut page, 8 * idx, value);
        self.pages[i] = page;
        let ghost after = self@[ppn.0 as int];
        proof {
            self.lemma_same_frames(old(self));
            assert(self@ =~= old(self)@.insert(ppn.0 as int, after));
            assert forall|k: int| 0 <= k < 512 && k != idx implies #[trigger] word_at(
                self@,
                ppn.0 as int,
                k,
            ) == word_at(old(self)@, ppn.0 as int, k) by {
                assert(after.subrange(8 * k, 8 * k + 8) =~= before.subrange(8 * k, 8 * k + 8));
            }
        }
    }

    /// A byte of a page.
    pub fn read_byte(&self, ppn: PhysPageNum, offset: usize) -> (r: u8)
        requires
            self@.dom().contains(ppn.0 as int),
            offset < 4096,
        ensures
            r == self@[ppn.0 as int][offset as int],
    {
        self.pages[self.place(ppn)][offset]
    }

    /// Sets a byte of a page.
    pub fn write_byte(&mut self, ppn: PhysPageNum, offset: usize, value: u8)
        requires
            old(self)@.dom().contains(ppn.0 as int),
            offset < 4096,
        ensures
            final(self)@ == old(self)@.insert(
                ppn.0 as int,
                old(self)@[ppn.0 as int].update(offset as int, value),
            ),
            final(self).free() == old(self).free(),
            final(self).limit() == old(self).limit(),
            final(self).next_frame() == old(self).next_frame(),
            old(self).wf() ==> final(self).wf(),
    {
        let i: usize = self.place(ppn);
        self.pages[i][offset] = value;
        assert(self@ =~= old(self)@.insert(
            ppn.0 as int,
            old(self)@[ppn.0 as int].update(offset as int, value),
        ));
        proof {
            self.lemma_same_frames(old(self));
        }
    }

    /// The bytes of a page from `start` on, up to but without `end`.
    pub fn read_page(&self, ppn: PhysPageNum, start: usize, end: usize) -> (r: Vec<u8>)
        requires
            self@.dom().contains(ppn.0 as int),
            start <= end <= 4096,
        ensures
            r@ == self@[ppn.0 as int].subrange(start as int, end as int),
    {
        let i: usize = self.place(ppn);
        let mut r: Vec<u8> = Vec::new();
        let mut k: usize = start;
        while k < end
            invariant
                start <= k <= end <= 4096,
                i < self.pages@.len(),
                r@ == self.pages@[i as int]@.subrange(start as int, k as int),
            decreases end - k,
        {
            r.push(self.pages[i][k]);
            k += 1;
            assert(r@ =~= self.pages@[i as int]@.subrange(start as int, k as int));
        }
        r
    }

    /// Copies `src` over the bytes of a page from `offset` on.
    pub fn write_page(&mut self, ppn: PhysPageNum, offset: usize, src: &[u8])
        requires
            old(self)@.dom().contains(ppn.0 as int),
            offset + src@.len() <= 4096,
        ensures
            final(self)@ == old(self)@.insert(
                ppn.0 as int,
                splice(old(self)@[ppn.0 as int], offset as int, src@),
            ),
            final(self).free() == old(self).free(),
            final(self).limit() == old(self).limit(),
            final(self).next_frame() == old(self).next_frame(),
            old(self).wf() ==> final(self).wf(),
    {
        let i: usize = self.place(ppn);
        let mut page: [u8; 4096] = self.pages[i];
        write_bytes(&mut page, offset, src);
        self.pages[i] = page;
        assert(self@ =~= old(self)@.insert(
            ppn.0 as int,
            splice(old(self)@[ppn.0 as int], offset as int, src@),
        ));
        proof {
            self.lemma_same_frames(old(self));
        }
    }
}

/// The 64-bit integer at place `idx` of a page.
pub open spec fn word_at(mem: Map<int, Seq<u8>>, ppn: int, idx: int) -> u64 {
    u64_at(mem[ppn], 8 * idx)
}

/// In a page of zeros every integer is zero.
pub proof fn lemma_zero_word(mem: Map<int, Seq<u8>>, ppn: int, idx: int)
    requires
        mem[ppn] == zero_page(),
        0 <= idx < 512,
    ensures
        word_at(mem, ppn, idx) == 0,
{
    lemma_zero_u64(mem[ppn], 8 * idx);
}

/// Only what is in the pages differs.
pub open spec fn same_frames(m: &Memory, m2: &Memory) -> bool {
    &&& m2@.dom() == m@.dom()
    &&& m2.free() == m.free()
    &&& m2.limit() == m.limit()
    &&& m2.next_frame() == m.next_frame()
    &&& m.wf() ==> m2.wf()
}

} // verus!
