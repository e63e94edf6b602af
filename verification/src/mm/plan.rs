//! Plans of address spaces: what areas they are to have, whether they can be built, and building
//! them.

use vstd::prelude::*;
use vstd::slice::slice_subrange;

use super::address::{mid_index, top_index, va_of, VirtAddr, VPN_COUNT};
use super::frame_allocator::Memory;
use super::map_area::{
    area_of, lemma_cost_next, AreaView, MapArea, MapPermission, MapType, Shape,
};
use super::memory_set::{MemorySet, TRAMPOLINE_VPN};
use super::space::{built, can_add, cost_of, covered, covers, data_piece, shape_of, Piece};

verus! {

/// An area that is to be there: the addresses from `start` on, up to but without `end`.
#[derive(Copy, Clone)]
pub struct AreaPlan {
    pub start: u64,
    pub end: u64,
    pub framed: bool,
    pub perm: u8,
    /// The bytes to copy into it: where they start and how many they are.
    pub data: Option<(usize, usize)>,
}

impl AreaPlan {
    /// The area.
    pub open spec fn area(self) -> AreaView {
        area_of(va_of(self.start), va_of(self.end), self.framed, self.perm)
    }

    /// The bytes to copy.
    pub open spec fn bytes(self, image: Seq<u8>) -> Option<Seq<u8>> {
        match self.data {
            Some((from, len)) => Some(image.subrange(from as int, from + len)),
            None => None,
        }
    }

    /// The area with what its pages are to hold.
    pub open spec fn piece(self, image: Seq<u8>) -> Piece {
        data_piece(
            self.area(),
            match self.bytes(image) {
                Some(d) => d,
                None => Seq::empty(),
            },
        )
    }
}

/// The areas of a plan with what their pages are to hold.
pub open spec fn pieces_of(plans: Seq<AreaPlan>, image: Seq<u8>) -> Seq<Piece> {
    Seq::new(plans.len(), |k: int| plans[k].piece(image))
}

/// Area `k` of the plan can be added when those before it are there.
pub open spec fn fits_next(plans: Seq<AreaPlan>, image: Seq<u8>, k: int, frames: int) -> bool {
    &&& plans[k].data matches Some((from, len)) ==> from + len <= image.len()
    &&& can_add(
        pieces_of(plans, image).take(k),
        plans[k].area(),
        plans[k].bytes(image),
        frames,
    )
}

/// The plan can be carried out with this many free frames.
pub open spec fn fits(plans: Seq<AreaPlan>, image: Seq<u8>, frames: int) -> bool {
    &&& frames >= 3
    &&& forall|k: int| 0 <= k < plans.len() ==> #[trigger] fits_next(plans, image, k, frames)
}

impl MemorySet {
    /// Builds the address space that a plan describes, with the trampoline.
    pub fn build(
        plans: &Vec<AreaPlan>,
        image: &[u8],
        strampoline: u64,
        memory: &mut Memory,
    ) -> (r: Self)
        requires
            old(memory).wf(),
            strampoline % 4096 == 0,
            strampoline < 0x100_0000_0000_0000,
            fits(plans@, image@, old(memory).free().len() as int),
        ensures
            built(&r, pieces_of(plans@, image@), strampoline, old(memory), final(memory)),
    {
        let ghost m0 = *memory;
        let ghost all = pieces_of(plans@, image@);
        let mut r: MemorySet = Self::new_with_trampoline(strampoline, memory);
        assert(all.take(0) =~= Seq::empty());
        let image_len: usize = image.len();
        let mut k: usize = 0;
        while k < plans.len()
            invariant
                k <= plans@.len(),
                m0.wf(),
                image_len == image@.len(),
                all == pieces_of(plans@, image@),
                fits(plans@, image@, m0.free().len() as int),
                built(&r, all.take(k as int), strampoline, &m0, memory),
            decreases plans@.len() - k,
        {
            let plan: AreaPlan = plans[k];
            assert(fits_next(plans@, image@, k as int, m0.free().len() as int));
            let map_type: MapType = if plan.framed {
                MapType::Framed
            } else {
                MapType::Identical
            };
            let area: MapArea = MapArea::new(
                VirtAddr::new(plan.start),
                VirtAddr::new(plan.end),
                map_type,
                MapPermission { bits: plan.perm },
            );
            let data: Option<&[u8]> = match plan.data {
                Some((from, len)) => Some(slice_subrange(image, from, from + len)),
                None => None,
            };
            r.add_piece(
                area,
                data,
                memory,
                Ghost(all.take(k as int)),
                Ghost(strampoline),
                Ghost(m0),
            );
            assert(all.take(k + 1) =~= all.take(k as int).push(all[k as int]));
            k += 1;
        }
        assert(all.take(k as int) =~= all);
        r
    }
}

/// The tables of an address space that is only thought of, and how many frames it takes.
struct Reckoning {
    mids: Vec<u64>,
    lows: Vec<u64>,
    cost: u64,
}

impl Reckoning {
    /// It has the tables of `s`.
    spec fn has(&self, s: Shape) -> bool {
        &&& forall|i: int|
            0 <= i < 512 ==> s.mids.contains(i) == self.mids@.contains(#[trigger] (i as u64))
        &&& forall|i: int, j: int|
            0 <= i < 512 && 0 <= j < 512 ==> #[trigger] s.lows.contains((i, j))
                == self.lows@.contains((512 * i + j) as u64)
        &&& forall|k: int| 0 <= k < self.mids@.len() ==> #[trigger] self.mids@[k] < 512
        &&& forall|k: int| 0 <= k < self.lows@.len() ==> #[trigger] self.lows@[k] < 0x4_0000
    }
}

/// Whether a number is in a list.
fn contains(list: &Vec<u64>, x: u64) -> (r: bool)
    ensures
        r == list@.contains(x),
{
    let mut i: usize = 0;
    while i < list.len()
        invariant
            i <= list@.len(),
            forall|j: int| 0 <= j < i ==> #[trigger] list@[j] != x,
        decreases list@.len() - i,
    {
        if list[i] == x {
            return true;
        }
        i += 1;
    }
    false
}

proof fn lemma_list_with(list: Seq<u64>, x: u64, y: u64)
    ensures
        list.push(x).contains(y) == (list.contains(y) || x == y),
{
    let l2 = list.push(x);
    if list.contains(y) {
        let i = list.index_of(y);
        assert(l2[i] == y);
    }
    assert(l2[list.len() as int] == x);
    if l2.contains(y) {
        let i = l2.index_of(y);
        if i < list.len() {
            assert(list[i] == y);
        }
    }
}

impl Reckoning {
    /// The address space with the trampoline and nothing else.
    fn first() -> (r: Self)
        ensures
            r.has(shape_of(Seq::empty())),
            r.cost == 3,
    {
        let mut mids: Vec<u64> = Vec::new();
        mids.push(511);
        let mut lows: Vec<u64> = Vec::new();
        lows.push(0x3_ffff);
        let r: Reckoning = Reckoning { mids, lows, cost: 3 };
        proof {
            let s = shape_of(Seq::empty());
            assert(top_index(TRAMPOLINE_VPN as int) == 511);
            assert(mid_index(TRAMPOLINE_VPN as int) == 511);
            assert forall|i: int| 0 <= i < 512 implies s.mids.contains(i) == r.mids@.contains(
                #[trigger] (i as u64),
            ) by {
                lemma_list_with(Seq::empty(), 511, i as u64);
                assert(r.mids@ =~= Seq::<u64>::empty().push(511));
            }
            assert forall|i: int, j: int| 0 <= i < 512 && 0 <= j < 512 implies #[trigger] s.lows.contains((i, j))
                == r.lows@.contains((512 * i + j) as u64) by {
                lemma_list_with(Seq::empty(), 0x3_ffff, (512 * i + j) as u64);
                assert(r.lows@ =~= Seq::<u64>::empty().push(0x3_ffff));
            }
        }
        r
    }

    /// Whether there is a table of the third level for page `v`.
    fn has_low(&self, v: u64, Ghost(s): Ghost<Shape>) -> (r: bool)
        requires
            self.has(s),
            v < VPN_COUNT,
        ensures
            r == s.lows.contains((top_index(v as int), mid_index(v as int))),
    {
        proof {
            let i = top_index(v as int);
            let j = mid_index(v as int);
            assert(512 * i + j == v as int / 512);
            assert(s.lows.contains((i, j)) == self.lows@.contains((512 * i + j) as u64));
        }
        contains(&self.lows, v / 512)
    }

    /// Adds the tables for page `v`.
    fn add_page(&mut self, v: u64, Ghost(s): Ghost<Shape>)
        requires
            old(self).has(s),
            v < VPN_COUNT,
            old(self).cost <= u64::MAX - 2,
            s.lows.contains((top_index(v as int), mid_index(v as int))) ==> s.mids.contains(
                top_index(v as int),
            ),
        ensures
            final(self).has(s.with_page(v as int)),
            final(self).cost == old(self).cost + s.missing(v as int),
    {
        let ghost i0 = top_index(v as int);
        let ghost j0 = mid_index(v as int);
        let ghost s2 = s.with_page(v as int);
        proof {
            assert(512 * i0 + j0 == v as int / 512);
            assert(s.mids.contains(i0) == self.mids@.contains(i0 as u64));
            assert(s.lows.contains((i0, j0)) == self.lows@.contains((512 * i0 + j0) as u64));
        }
        let top: u64 = v / 0x4_0000;
        let low: u64 = v / 512;
        let mids0: Ghost<Seq<u64>> = Ghost(self.mids@);
        let lows0: Ghost<Seq<u64>> = Ghost(self.lows@);
        if !contains(&self.mids, top) {
            self.mids.push(top);
            self.cost = self.cost + 1;
        }
        if !contains(&self.lows, low) {
            self.lows.push(low);
            self.cost = self.cost + 1;
        }
        proof {
            assert forall|i: int| 0 <= i < 512 implies s2.mids.contains(i) == self.mids@.contains(
                #[trigger] (i as u64),
            ) by {
                lemma_list_with(mids0@, top, i as u64);
                assert(s.mids.contains(i) == mids0@.contains(i as u64));
            }
            assert forall|i: int, j: int| 0 <= i < 512 && 0 <= j < 512 implies #[trigger] s2.lows.contains((i, j))
                == self.lows@.contains((512 * i + j) as u64) by {
                lemma_list_with(lows0@, low, (512 * i + j) as u64);
                assert(s.lows.contains((i, j)) == lows0@.contains((512 * i + j) as u64));
            }
        }
    }

    /// Adds the tables, and the frames where the area is framed, for the pages from `from` on, up to
    /// but without `to`.
    fn add_range(&mut self, framed: bool, from: u64, to: u64, Ghost(s): Ghost<Shape>)
        requires
            old(self).has(s),
            closed_up(s),
            from <= to <= VPN_COUNT,
            old(self).cost <= 0x1_0000_0000_0000,
        ensures
            final(self).has(s.with_pages_upto(from as int, to as int)),
            closed_up(s.with_pages_upto(from as int, to as int)),
            final(self).cost == old(self).cost + s.cost(framed, from as int, to as int),
    {
        let ghost cost0 = self.cost as int;
        let mut v: u64 = from;
        while v < to
            invariant
                from <= v <= to <= VPN_COUNT,
                self.has(s.with_pages_upto(from as int, v as int)),
                closed_up(s.with_pages_upto(from as int, v as int)),
                self.cost == cost0 + s.cost(framed, from as int, v as int),
                self.cost <= cost0 + 3 * (v - from),
                cost0 <= 0x1_0000_0000_0000,
            decreases to - v,
        {
            proof {
                lemma_cost_next(s, framed, from as int, v as int);
            }
            self.add_page(v, Ghost(s.with_pages_upto(from as int, v as int)));
            if framed {
                self.cost = self.cost + 1;
            }
            v += 1;
        }
    }
}

/// Where there is a table of the third level, there is the one of the second level above it.
spec fn closed_up(s: Shape) -> bool {
    forall|i: int, j: int| #[trigger] s.lows.contains((i, j)) ==> s.mids.contains(i)
}

/// Whether a plan can be carried out with this many free frames.
pub fn plan_fits(plans: &Vec<AreaPlan>, image: &[u8], frames: u64) -> (r: bool)
    requires
        frames <= 0x1000_0000_0000,
    ensures
        r == fits(plans@, image@, frames as int),
{
    if frames < 3 {
        return false;
    }
    let ghost all = pieces_of(plans@, image@);
    let image_len: usize = image.len();
    let mut tables: Reckoning = Reckoning::first();
    assert(all.take(0) =~= Seq::empty());
    let mut k: usize = 0;
    while k < plans.len()
        invariant
            k <= plans@.len(),
            3 <= frames <= 0x1000_0000_0000,
            image_len == image@.len(),
            all == pieces_of(plans@, image@),
            tables.has(shape_of(all.take(k as int))),
            closed_up(shape_of(all.take(k as int))),
            tables.cost == cost_of(all.take(k as int)),
            tables.cost <= frames,
            forall|j: int|
                0 <= j < k ==> #[trigger] fits_next(plans@, image@, j, frames as int),
        decreases plans@.len() - k,
    {
        let ghost done = all.take(k as int);
        let plan: AreaPlan = plans[k];
        let ghost a = plan.area();
        let start: u64 = VirtAddr::new(plan.start).floor().0;
        let end: u64 = VirtAddr::new(plan.end).ceil().0;
        if end < start || start <= TRAMPOLINE_VPN && TRAMPOLINE_VPN < end {
            assert(!fits_next(plans@, image@, k as int, frames as int));
            return false;
        }
        let data_fits: bool = match plan.data {
            Some((from, len)) => {
                let pages: u64 = end - start;
                from <= image_len && len <= image_len - from && plan.framed && len <= usize::MAX
                    - 4096 && (len as u64 + 4095) / 4096 <= pages && (start < end
                    || tables.has_low(start, Ghost(shape_of(done))))
            },
            None => true,
        };
        if !data_fits {
            assert(!fits_next(plans@, image@, k as int, frames as int));
            return false;
        }
        let mut j: usize = 0;
        while j < k
            invariant
                j <= k < plans@.len(),
                all == pieces_of(plans@, image@),
                done == all.take(k as int),
                a == plans@[k as int].area(),
                start == a.start,
                end == a.end,
                3 <= frames,
                forall|i: int, v: int|
                    0 <= i < j && a.start <= v < a.end ==> !#[trigger] covers(done[i].area, v),
            decreases k - j,
        {
            let s: u64 = VirtAddr::new(plans[j].start).floor().0;
            let e: u64 = VirtAddr::new(plans[j].end).ceil().0;
            let low: u64 = if s < start {
                start
            } else {
                s
            };
            assert(done[j as int].area == plans@[j as int].area());
            if low < e && low < end {
                proof {
                    assert(covers(done[j as int].area, low as int));
                    assert(covered(done, low as int));
                    assert(!fits_next(plans@, image@, k as int, frames as int));
                }
                return false;
            }
            j += 1;
        }
        proof {
            assert forall|v: int| a.start <= v < a.end implies !covered(done, v) by {
                if covered(done, v) {
                    let i = choose|i: int|
                        0 <= i < done.len() && covers((#[trigger] done[i]).area, v);
                    assert(!covers(done[i].area, v));
                }
            }
        }
        tables.add_range(plan.framed, start, end, Ghost(shape_of(done)));
        assert(all.take(k + 1).drop_last() =~= done);
        assert(all.take(k + 1).last() == plan.piece(image@));
        if tables.cost > frames {
            assert(!fits_next(plans@, image@, k as int, frames as int));
            return false;
        }
        assert(fits_next(plans@, image@, k as int, frames as int));
        k += 1;
    }
    true
}

/// A plan that can be carried out takes no more frames than there are, and can be carried out with
/// more.
pub proof fn lemma_fits(plans: Seq<AreaPlan>, image: Seq<u8>, frames: int, more: int)
    requires
        fits(plans, image, frames),
        frames <= more,
    ensures
        fits(plans, image, more),
        cost_of(pieces_of(plans, image)) <= frames,
{
    let pieces = pieces_of(plans, image);
    let n = plans.len() as int;
    assert forall|k: int| 0 <= k < n implies #[trigger] fits_next(plans, image, k, more) by {
        assert(fits_next(plans, image, k, frames));
    }
    if n > 0 {
        assert(fits_next(plans, image, n - 1, frames));
        assert(pieces.drop_last() =~= pieces.take(n - 1));
    }
}

} // verus!
