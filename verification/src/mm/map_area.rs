//! Areas of an address space: runs of pages that are mapped alike.

use std::collections::BTreeMap;
use vstd::prelude::*;
use vstd::slice::slice_subrange;

use super::address::{mid_index, top_index, PhysPageNum, VPNRange, VirtAddr, VirtPageNum, VPN_COUNT};
use super::frame_allocator::{zero_page, FrameTracker, Memory};
use super::page_table::{
    in_use, is_tree, leaf, lemma_pte, lemma_same_tree, low_table, mid_table, pte_of, pte_ppn,
    pte_valid, same_tables, same_tables_but, table_of, tables_missing, took, PTEFlags, PageTable,
    PageTableEntry,
};
use crate::bytes::splice;

verus! {

/// How the pages of an area are mapped.
#[derive(Copy, Clone, PartialEq, Eq, Structural, Debug)]
pub enum MapType {
    /// To the physical pages of the same numbers.
    Identical,
    /// To frames that are taken for them.
    Framed,
}

/// What can be done with the pages of an area.
#[derive(Copy, Clone, PartialEq, Eq, Structural, Debug)]
pub struct MapPermission {
    pub bits: u8,
}

/// The pages can be read.
pub const PERM_R: u8 = 2;

/// The pages can be written.
pub const PERM_W: u8 = 4;

/// The pages can be executed.
pub const PERM_X: u8 = 8;

/// Programs can use the pages.
pub const PERM_U: u8 = 16;

/// An area: the pages from `start` on, up to but without `end`.
#[verifier::ext_equal]
pub struct AreaView {
    pub start: int,
    pub end: int,
    pub framed: bool,
    pub perm: u8,
    /// The frames of the pages that have one.
    pub frames: Map<int, int>,
}

/// Which tables a page table has: those of the second level by their place in the root, those of
/// the third level by their places in the two levels above.
#[verifier::ext_equal]
pub struct Shape {
    pub mids: Set<int>,
    pub lows: Set<(int, int)>,
}

/// Which tables there are under a root.
pub open spec fn shape(mem: Map<int, Seq<u8>>, root: int) -> Shape {
    Shape {
        mids: Set::new(|i: int| 0 <= i < 512 && mid_table(mem, root, i) is Some),
        lows: Set::new(
            |ij: (int, int)|
                0 <= ij.0 < 512 && 0 <= ij.1 < 512 && low_table(mem, root, ij.0, ij.1) is Some,
        ),
    }
}

impl Shape {
    /// How many tables page `v` needs besides.
    pub open spec fn missing(self, v: int) -> nat {
        if !self.mids.contains(top_index(v)) {
            2
        } else if !self.lows.contains((top_index(v), mid_index(v))) {
            1
        } else {
            0
        }
    }

    /// With the tables for page `v`.
    pub open spec fn with_page(self, v: int) -> Shape {
        Shape {
            mids: self.mids.insert(top_index(v)),
            lows: self.lows.insert((top_index(v), mid_index(v))),
        }
    }

    /// With the tables for the pages from `from` on, up to but without `to`.
    pub open spec fn with_pages_upto(self, from: int, to: int) -> Shape
        decreases to - from,
    {
        if from >= to {
            self
        } else {
            self.with_pages_upto(from, to - 1).with_page(to - 1)
        }
    }

    /// How many frames it takes to map the pages from `v` on, up to but without `end`: the tables,
    /// and a frame for each page where the area is framed.
    pub open spec fn cost(self, framed: bool, v: int, end: int) -> nat
        decreases end - v,
    {
        if v >= end {
            0
        } else {
            self.missing(v) + (if framed {
                1nat
            } else {
                0
            }) + self.with_page(v).cost(framed, v + 1, end)
        }
    }
}

/// A table for one page more changes the shape accordingly.
pub proof fn lemma_shape_page(
    mem: Map<int, Seq<u8>>,
    mem2: Map<int, Seq<u8>>,
    root: int,
    v: int,
)
    requires
        0 <= v < VPN_COUNT,
        same_tables_but(mem, mem2, root, v),
    ensures
        shape(mem2, root) == shape(mem, root).with_page(v),
        tables_missing(mem, root, v) == shape(mem, root).missing(v),
{
    let a = shape(mem2, root);
    let b = shape(mem, root).with_page(v);
    assert(a.mids =~= b.mids);
    assert forall|ij: (int, int)| #[trigger] a.lows.contains(ij) == b.lows.contains(ij) by {
        if 0 <= ij.0 < 512 && 0 <= ij.1 < 512 {
            assert(low_table(mem2, root, ij.0, ij.1) is Some == (ij.0 == top_index(v) && ij.1
                == mid_index(v) || low_table(mem, root, ij.0, ij.1) is Some));
        }
    }
    assert(a.lows =~= b.lows);
    lemma_missing(mem, root, v);
}

/// What a shape says of the tables that are missing.
pub proof fn lemma_missing(mem: Map<int, Seq<u8>>, root: int, v: int)
    requires
        0 <= v < VPN_COUNT,
    ensures
        tables_missing(mem, root, v) == shape(mem, root).missing(v),
{
}

/// Pages whose tables are the same have the same shape.
pub proof fn lemma_same_shape(mem: Map<int, Seq<u8>>, mem2: Map<int, Seq<u8>>, root: int)
    requires
        same_tables(mem, mem2, root),
    ensures
        shape(mem2, root) == shape(mem, root),
{
    let a = shape(mem2, root);
    let b = shape(mem, root);
    assert(a.mids =~= b.mids);
    assert forall|ij: (int, int)| #[trigger] a.lows.contains(ij) == b.lows.contains(ij) by {
        if 0 <= ij.0 < 512 && 0 <= ij.1 < 512 {
            assert(low_table(mem2, root, ij.0, ij.1) is Some == (low_table(
                mem,
                root,
                ij.0,
                ij.1,
            ) is Some));
        }
    }
    assert(a.lows =~= b.lows);
}

/// An area of an address space.
pub struct MapArea {
    vpn_range: VPNRange,
    data_frames: BTreeMap<u64, FrameTracker>,
    map_type: MapType,
    map_perm: MapPermission,
}

impl View for MapArea {
    type V = AreaView;

    closed spec fn view(&self) -> AreaView {
        AreaView {
            start: self.vpn_range.l.0 as int,
            end: self.vpn_range.r.0 as int,
            framed: self.map_type is Framed,
            perm: self.map_perm.bits,
            frames: Map::new(
                |v: int| 0 <= v <= u64::MAX && self.data_frames@.contains_key(v as u64),
                |v: int| self.data_frames@[v as u64].ppn.0 as int,
            ),
        }
    }
}

impl AreaView {
    /// The area lies in the address space, only its pages have frames, and only where it is framed.
    pub open spec fn wf(self) -> bool {
        &&& 0 <= self.start <= self.end <= VPN_COUNT
        &&& forall|v: int| #[trigger] self.frames.dom().contains(v) ==> self.start <= v < self.end
        &&& !self.framed ==> self.frames == Map::<int, int>::empty()
        &&& forall|v: int, w: int|
            self.frames.dom().contains(v) && self.frames.dom().contains(w)
                && #[trigger] self.frames[v] == #[trigger] self.frames[w] ==> v == w
    }

    /// The frames that the area has.
    pub open spec fn owned(self) -> Set<int> {
        self.frames.values()
    }

    /// Page `v` is mapped by this area, if it is mapped at all.
    pub open spec fn maps(self, v: int) -> bool {
        if self.framed {
            self.frames.dom().contains(v)
        } else {
            self.start <= v < self.end
        }
    }

    /// The physical page of page `v`.
    pub open spec fn target(self, v: int) -> int {
        if self.framed {
            self.frames[v]
        } else {
            v
        }
    }
}

/// The area that covers the addresses from `start_va` on, up to but without `end_va`.
pub open spec fn area_of(start_va: int, end_va: int, framed: bool, perm: u8) -> AreaView {
    AreaView {
        start: start_va / 4096,
        end: (end_va + 4095) / 4096,
        framed,
        perm,
        frames: Map::empty(),
    }
}

/// Page `i` of data that is laid out page by page; zeros follow.
pub open spec fn page_of(data: Seq<u8>, i: int) -> Seq<u8> {
    Seq::new(
        4096,
        |k: int|
            if 4096 * i + k < data.len() {
                data[4096 * i + k]
            } else {
                0u8
            },
    )
}

impl MapArea {
    /// The area that covers the addresses from `start_va` on, up to but without `end_va`. Nothing is
    /// mapped yet.
    pub fn new(
        start_va: VirtAddr,
        end_va: VirtAddr,
        map_type: MapType,
        map_perm: MapPermission,
    ) -> (r: Self)
        requires
            start_va.0 as int / 4096 <= (end_va.0 + 4095) / 4096,
        ensures
            r@ == area_of(
                start_va.0 as int,
                end_va.0 as int,
                map_type is Framed,
                map_perm.bits,
            ),
    {
        let start_vpn: VirtPageNum = start_va.floor();
        let end_vpn: VirtPageNum = end_va.ceil();
        let r: MapArea = MapArea {
            vpn_range: VPNRange::new(start_vpn, end_vpn),
            data_frames: BTreeMap::new(),
            map_type,
            map_perm,
        };
        assert(r@.frames =~= Map::<int, int>::empty());
        r
    }

    /// An area like another one. Nothing is mapped yet.
    pub fn from_another(another: &Self) -> (r: Self)
        requires
            another@.start <= another@.end,
        ensures
            r@ == (AreaView { frames: Map::empty(), ..another@ }),
    {
        let r: MapArea = MapArea {
            vpn_range: VPNRange::new(another.vpn_range.get_start(), another.vpn_range.get_end()),
            data_frames: BTreeMap::new(),
            map_type: another.map_type,
            map_perm: another.map_perm,
        };
        assert(r@.frames =~= Map::<int, int>::empty());
        r
    }

    /// The first page.
    pub fn get_start(&self) -> (r: VirtPageNum)
        ensures
            r.0 == self@.start,
    {
        self.vpn_range.get_start()
    }

    /// The first page behind the area.
    pub fn get_end(&self) -> (r: VirtPageNum)
        ensures
            r.0 == self@.end,
    {
        self.vpn_range.get_end()
    }

    /// Whether the page has a frame of its own.
    pub fn has_frame(&self, vpn: VirtPageNum) -> (r: bool)
        ensures
            r == self@.frames.dom().contains(vpn.0 as int),
    {
        self.data_frames.contains_key(&vpn.0)
    }

    /// Whether the area maps its pages to frames.
    pub fn is_framed(&self) -> (r: bool)
        ensures
            r == self@.framed,
    {
        self.map_type == MapType::Framed
    }

    /// Maps page `vpn` of the area, which is not mapped.
    pub fn map_one(&mut self, page_table: &mut PageTable, vpn: VirtPageNum, memory: &mut Memory)
        requires
            old(page_table).wf(old(memory)),
            area_ok(old(self)@, old(page_table), old(memory)),
            old(self)@.start <= vpn.0 < old(self)@.end,
            !pte_valid(leaf(old(memory)@, old(page_table).root(), vpn.0 as int)),
            shape(old(memory)@, old(page_table).root()).missing(vpn.0 as int) + (if old(
                self,
            )@.framed {
                1nat
            } else {
                0
            }) <= old(memory).free().len(),
        ensures
            final(page_table).wf(final(memory)),
            area_ok(final(self)@, final(page_table), final(memory)),
            mapped_one(
                old(self)@,
                final(self)@,
                vpn.0 as int,
                old(page_table),
                final(page_table),
                old(memory),
                final(memory),
            ),
    {
        let ghost a0 = self@;
        let ghost v0 = vpn.0 as int;
        let ghost root = page_table.root();
        let ghost mem0 = memory@;
        let ghost free0 = memory.free();
        let ghost tables0 = page_table.tables();
        let ghost p0 = memory.next_frame();
        proof {
            memory.lemma_wf();
            lemma_missing(mem0, root, v0);
            lemma_valid_frames(a0, page_table, memory);
            assert(!a0.frames.dom().contains(v0));
        }
        let ppn: PhysPageNum = match self.map_type {
            MapType::Identical => PhysPageNum(vpn.0),
            MapType::Framed => {
                let frame: Option<FrameTracker> = memory.frame_alloc();
                let frame: FrameTracker = frame.unwrap();
                let ppn: PhysPageNum = frame.ppn;
                self.data_frames.insert(vpn.0, frame);
                ppn
            },
        };
        let ghost mem1 = memory@;
        proof {
            if a0.framed {
                assert(self@.frames =~= a0.frames.insert(v0, p0));
                lemma_outside(mem0, mem1, root, tables0, p0);
                lemma_missing(mem1, root, v0);
                assert(memory@.dom() =~= mem0.dom());
                assert(page_table.wf(memory));
            } else {
                assert(self@ == a0);
            }
        }
        let ghost free1 = memory.free();
        let flags: Option<PTEFlags> = PTEFlags::from_bits(self.map_perm.bits);
        page_table.map(vpn, ppn, flags.unwrap(), memory);
        proof {
            lemma_shape_page(mem1, memory@, root, v0);
            memory.lemma_wf();
            let a1 = self@;
            let tables1 = page_table.tables();
            assert forall|q: int| #[trigger] tables1.contains(q) implies tables0.contains(q)
                || free1.contains(q) by {}
            assert(a1.wf());
            if a0.framed {
                assert(free0.contains(p0));
                assert(!tables1.contains(p0));
                lemma_values_insert(a0.frames, v0, p0);
            }
            assert(area_ok(a1, page_table, memory)) by {
                assert forall|v: int| #[trigger] a1.frames.dom().contains(v) implies frame_ok(
                    a1,
                    v,
                    page_table,
                    memory,
                ) by {
                    if v != v0 {
                        assert(a0.frames.dom().contains(v));
                        assert(frame_ok(a0, v, old(page_table), old(memory)));
                    }
                }
            }
            assert(took(
                free0,
                memory.free(),
                holdings(a0, old(page_table)),
                holdings(a1, page_table),
            )) by {
                assert(holdings(a1, page_table) =~= holdings(a0, old(page_table)).union(
                    free0.difference(memory.free()),
                ));
            }
        }
    }

    /// Ends the mapping of page `vpn`, which is mapped. A frame that the area has for it is given
    /// back.
    pub fn unmap_one(&mut self, page_table: &mut PageTable, vpn: VirtPageNum, memory: &mut Memory)
        requires
            old(page_table).wf(old(memory)),
            area_ok(old(self)@, old(page_table), old(memory)),
            vpn.0 < VPN_COUNT,
            pte_valid(leaf(old(memory)@, old(page_table).root(), vpn.0 as int)),
        ensures
            final(page_table).wf(final(memory)),
            area_ok(final(self)@, final(page_table), final(memory)),
            final(page_table).root() == old(page_table).root(),
            final(page_table).tables() == old(page_table).tables(),
            final(memory).limit() == old(memory).limit(),
            final(memory)@.dom() == old(memory)@.dom(),
            final(self)@ == (AreaView {
                frames: old(self)@.frames.remove(vpn.0 as int),
                ..old(self)@
            }),
            final(memory).free() == (if old(self)@.frames.dom().contains(vpn.0 as int) {
                old(memory).free().insert(old(self)@.frames[vpn.0 as int])
            } else {
                old(memory).free()
            }),
            shape(final(memory)@, old(page_table).root()) == shape(
                old(memory)@,
                old(page_table).root(),
            ),
            leaf(final(memory)@, old(page_table).root(), vpn.0 as int) == 0,
            forall|v: int|
                0 <= v < VPN_COUNT && v != vpn.0 ==> #[trigger] leaf(
                    final(memory)@,
                    old(page_table).root(),
                    v,
                ) == leaf(old(memory)@, old(page_table).root(), v),
            forall|q: int|
                !final(page_table).tables().contains(q) ==> #[trigger] final(memory)@[q] == old(
                    memory,
                )@[q],
    {
        let ghost a0 = self@;
        let ghost v0 = vpn.0 as int;
        if self.map_type == MapType::Framed {
            let frame: Option<FrameTracker> = self.data_frames.remove(&vpn.0);
            match frame {
                Some(frame) => {
                    proof {
                        assert(a0.frames.dom().contains(v0));
                        assert(frame_ok(a0, v0, page_table, memory));
                        assert(a0.frames[v0] == frame.ppn.0);
                    }
                    memory.frame_dealloc(frame.ppn);
                },
                None => {
                    assert(!a0.frames.dom().contains(v0));
                },
            }
        }
        assert(self@.frames =~= a0.frames.remove(v0));
        page_table.unmap(vpn, memory);
        proof {
            lemma_same_shape(old(memory)@, memory@, page_table.root());
            assert forall|v: int| #[trigger] self@.frames.dom().contains(v) implies frame_ok(
                self@,
                v,
                page_table,
                memory,
            ) by {
                assert(a0.frames.dom().contains(v));
                assert(frame_ok(a0, v, old(page_table), old(memory)));
                if a0.frames.dom().contains(v0) {
                    assert(a0.frames[v] != a0.frames[v0]);
                }
            }
        }
    }

    /// Maps the pages from `from` on, up to but without `to`, which are not mapped.
    fn map_range(
        &mut self,
        from: VirtPageNum,
        to: VirtPageNum,
        page_table: &mut PageTable,
        memory: &mut Memory,
    )
        requires
            old(page_table).wf(old(memory)),
            area_ok(old(self)@, old(page_table), old(memory)),
            old(self)@.start <= from.0 <= to.0 <= old(self)@.end,
            forall|v: int|
                from.0 <= v < to.0 ==> !pte_valid(
                    #[trigger] leaf(old(memory)@, old(page_table).root(), v),
                ),
            shape(old(memory)@, old(page_table).root()).cost(
                old(self)@.framed,
                from.0 as int,
                to.0 as int,
            ) <= old(memory).free().len(),
        ensures
            final(page_table).wf(final(memory)),
            area_ok(final(self)@, final(page_table), final(memory)),
            mapped_more(
                old(self)@,
                final(self)@,
                from.0 as int,
                to.0 as int,
                old(page_table),
                final(page_table),
                old(memory),
                final(memory),
            ),
    {
        let ghost a0 = self@;
        let ghost root = page_table.root();
        let ghost shape0 = shape(memory@, root);
        let mut vpn: u64 = from.0;
        proof {
            assert(holdings(a0, page_table) =~= holdings(a0, page_table).union(
                memory.free().difference(memory.free()),
            ));
        }
        while vpn < to.0
            invariant
                from.0 <= vpn <= to.0,
                a0 == old(self)@,
                a0.start <= from.0 <= to.0 <= a0.end <= VPN_COUNT,
                root == old(page_table).root(),
                shape0 == shape(old(memory)@, root),
                page_table.wf(memory),
                area_ok(self@, page_table, memory),
                mapped_more(
                    a0,
                    self@,
                    from.0 as int,
                    vpn as int,
                    old(page_table),
                    page_table,
                    old(memory),
                    memory,
                ),
                forall|v: int|
                    from.0 <= v < to.0 ==> !pte_valid(#[trigger] leaf(old(memory)@, root, v)),
                shape0.cost(a0.framed, from.0 as int, to.0 as int) == shape0.cost(
                    a0.framed,
                    from.0 as int,
                    vpn as int,
                ) + shape(memory@, root).cost(a0.framed, vpn as int, to.0 as int),
                shape0.cost(a0.framed, from.0 as int, to.0 as int) <= old(memory).free().len(),
            decreases to.0 - vpn,
        {
            let ghost a1 = self@;
            let ghost pt1 = *page_table;
            let ghost m1 = *memory;
            proof {
                assert(leaf(m1@, root, vpn as int) == leaf(old(memory)@, root, vpn as int));
                lemma_valid_frames(a1, page_table, memory);
            }
            self.map_one(page_table, VirtPageNum(vpn), memory);
            proof {
                lemma_mapped_step(
                    a0,
                    a1,
                    self@,
                    from.0 as int,
                    vpn as int,
                    *old(page_table),
                    pt1,
                    *page_table,
                    *old(memory),
                    m1,
                    *memory,
                );
            }
            vpn += 1;
        }
    }

    /// Ends the mapping of the pages from `from` on, up to but without `to`, which are mapped.
    fn unmap_range(
        &mut self,
        from: VirtPageNum,
        to: VirtPageNum,
        page_table: &mut PageTable,
        memory: &mut Memory,
    )
        requires
            old(page_table).wf(old(memory)),
            area_ok(old(self)@, old(page_table), old(memory)),
            from.0 <= to.0 <= VPN_COUNT,
            forall|v: int|
                from.0 <= v < to.0 ==> pte_valid(
                    #[trigger] leaf(old(memory)@, old(page_table).root(), v),
                ),
        ensures
            final(page_table).wf(final(memory)),
            area_ok(final(self)@, final(page_table), final(memory)),
            unmapped(
                old(self)@,
                final(self)@,
                from.0 as int,
                to.0 as int,
                old(page_table),
                final(page_table),
                old(memory),
                final(memory),
            ),
    {
        let ghost a0 = self@;
        let ghost root = page_table.root();
        let mut vpn: u64 = from.0;
        assert(a0.frames =~= a0.frames.remove_keys(pages(from.0 as int, vpn as int)));
        while vpn < to.0
            invariant
                from.0 <= vpn <= to.0 <= VPN_COUNT,
                a0 == old(self)@,
                area_ok(a0, old(page_table), old(memory)),
                root == old(page_table).root(),
                page_table.wf(memory),
                area_ok(self@, page_table, memory),
                unmapped(
                    a0,
                    self@,
                    from.0 as int,
                    vpn as int,
                    old(page_table),
                    page_table,
                    old(memory),
                    memory,
                ),
                forall|v: int|
                    from.0 <= v < to.0 ==> pte_valid(#[trigger] leaf(old(memory)@, root, v)),
            decreases to.0 - vpn,
        {
            let ghost a1 = self@;
            let ghost mem1 = memory@;
            let ghost free1 = memory.free();
            proof {
                assert(leaf(mem1, root, vpn as int) == leaf(old(memory)@, root, vpn as int));
            }
            self.unmap_one(page_table, VirtPageNum(vpn), memory);
            proof {
                let v0 = vpn as int;
                let f = from.0 as int;
                assert(self@.frames =~= a0.frames.remove_keys(pages(f, v0 + 1)));
                assert forall|p: int| #[trigger] memory.free().contains(p) == (old(
                    memory,
                ).free().contains(p) || given_back(a0, f, v0 + 1, p)) by {
                    assert(free1.contains(p) == (old(memory).free().contains(p) || given_back(
                        a0,
                        f,
                        v0,
                        p,
                    )));
                    lemma_given_back_next(a0, f, v0, p);
                    if a0.frames.dom().contains(v0) {
                        assert(a1.frames.dom().contains(v0));
                        assert(a1.frames[v0] == a0.frames[v0]);
                    }
                }
                assert forall|v: int| 0 <= v < VPN_COUNT implies #[trigger] leaf(memory@, root, v)
                    == (if f <= v < v0 + 1 {
                    0
                } else {
                    leaf(old(memory)@, root, v)
                }) by {
                    assert(v != v0 ==> leaf(memory@, root, v) == leaf(mem1, root, v));
                }
                assert forall|q: int| !page_table.tables().contains(q) implies #[trigger] memory@[q]
                    == old(memory)@[q] by {
                    assert(memory@[q] == mem1[q]);
                }
            }
            vpn += 1;
        }
    }

    /// Maps all pages of the area, none of which is mapped.
    pub fn map(&mut self, page_table: &mut PageTable, memory: &mut Memory)
        requires
            old(page_table).wf(old(memory)),
            area_ok(old(self)@, old(page_table), old(memory)),
            forall|v: int|
                old(self)@.start <= v < old(self)@.end ==> !pte_valid(
                    #[trigger] leaf(old(memory)@, old(page_table).root(), v),
                ),
            shape(old(memory)@, old(page_table).root()).cost(
                old(self)@.framed,
                old(self)@.start,
                old(self)@.end,
            ) <= old(memory).free().len(),
        ensures
            final(page_table).wf(final(memory)),
            area_ok(final(self)@, final(page_table), final(memory)),
            mapped_more(
                old(self)@,
                final(self)@,
                old(self)@.start,
                old(self)@.end,
                old(page_table),
                final(page_table),
                old(memory),
                final(memory),
            ),
    {
        let from: VirtPageNum = self.vpn_range.get_start();
        let to: VirtPageNum = self.vpn_range.get_end();
        self.map_range(from, to, page_table, memory);
    }

    /// Ends the mapping of all pages of the area, all of which are mapped.
    pub fn unmap(&mut self, page_table: &mut PageTable, memory: &mut Memory)
        requires
            old(page_table).wf(old(memory)),
            area_ok(old(self)@, old(page_table), old(memory)),
            forall|v: int|
                old(self)@.start <= v < old(self)@.end ==> pte_valid(
                    #[trigger] leaf(old(memory)@, old(page_table).root(), v),
                ),
        ensures
            final(page_table).wf(final(memory)),
            area_ok(final(self)@, final(page_table), final(memory)),
            unmapped(
                old(self)@,
                final(self)@,
                old(self)@.start,
                old(self)@.end,
                old(page_table),
                final(page_table),
                old(memory),
                final(memory),
            ),
    {
        let from: VirtPageNum = self.vpn_range.get_start();
        let to: VirtPageNum = self.vpn_range.get_end();
        self.unmap_range(from, to, page_table, memory);
    }

    /// Lets the area end at `new_end`: the pages from there on are unmapped.
    pub fn shrink_to(
        &mut self,
        page_table: &mut PageTable,
        new_end: VirtPageNum,
        memory: &mut Memory,
    )
        requires
            old(page_table).wf(old(memory)),
            area_ok(old(self)@, old(page_table), old(memory)),
            old(self)@.start <= new_end.0 <= old(self)@.end,
            forall|v: int|
                new_end.0 <= v < old(self)@.end ==> pte_valid(
                    #[trigger] leaf(old(memory)@, old(page_table).root(), v),
                ),
        ensures
            final(page_table).wf(final(memory)),
            area_ok(final(self)@, final(page_table), final(memory)),
            unmapped(
                (AreaView { end: new_end.0 as int, ..old(self)@ }),
                final(self)@,
                new_end.0 as int,
                old(self)@.end,
                old(page_table),
                final(page_table),
                old(memory),
                final(memory),
            ),
    {
        let ghost a0 = self@;
        let end: VirtPageNum = self.vpn_range.get_end();
        self.unmap_range(new_end, end, page_table, memory);
        let ghost a1 = self@;
        self.vpn_range = VPNRange::new(self.vpn_range.get_start(), new_end);
        proof {
            assert(self@ == (AreaView { end: new_end.0 as int, ..a1 }));
            assert forall|v: int| #[trigger] self@.frames.dom().contains(v) implies frame_ok(
                self@,
                v,
                page_table,
                memory,
            ) by {
                assert(a1.frames.dom().contains(v));
                assert(frame_ok(a1, v, page_table, memory));
            }
        }
    }

    /// Lets the area end at `new_end`: the pages up to there are mapped.
    pub fn append_to(
        &mut self,
        page_table: &mut PageTable,
        new_end: VirtPageNum,
        memory: &mut Memory,
    )
        requires
            old(page_table).wf(old(memory)),
            area_ok(old(self)@, old(page_table), old(memory)),
            old(self)@.end <= new_end.0 <= VPN_COUNT,
            forall|v: int|
                old(self)@.end <= v < new_end.0 ==> !pte_valid(
                    #[trigger] leaf(old(memory)@, old(page_table).root(), v),
                ),
            shape(old(memory)@, old(page_table).root()).cost(
                old(self)@.framed,
                old(self)@.end,
                new_end.0 as int,
            ) <= old(memory).free().len(),
        ensures
            final(page_table).wf(final(memory)),
            area_ok(final(self)@, final(page_table), final(memory)),
            mapped_more(
                (AreaView { end: new_end.0 as int, ..old(self)@ }),
                final(self)@,
                old(self)@.end,
                new_end.0 as int,
                old(page_table),
                final(page_table),
                old(memory),
                final(memory),
            ),
    {
        let ghost a0 = self@;
        let end: VirtPageNum = self.vpn_range.get_end();
        self.vpn_range = VPNRange::new(self.vpn_range.get_start(), new_end);
        proof {
            assert(self@ == (AreaView { end: new_end.0 as int, ..a0 }));
            assert forall|v: int| #[trigger] self@.frames.dom().contains(v) implies frame_ok(
                self@,
                v,
                page_table,
                memory,
            ) by {
                assert(a0.frames.dom().contains(v));
                assert(frame_ok(a0, v, page_table, memory));
            }
        }
        self.map_range(end, new_end, page_table, memory);
    }

    /// Copies data into the pages of the area, from the start of its first page on.
    pub fn copy_data(&mut self, page_table: &PageTable, data: &[u8], memory: &mut Memory)
        requires
            page_table.wf(old(memory)),
            area_ok(old(self)@, page_table, old(memory)),
            old(self)@.framed,
            old(self)@.start < VPN_COUNT,
            table_of(old(memory)@, page_table.root(), old(self)@.start) is Some,
            data@.len() + 4096 <= usize::MAX,
            forall|v: int|
                old(self)@.start <= v < old(self)@.start + (data@.len() + 4095) / 4096
                    ==> #[trigger] old(self)@.frames.dom().contains(v),
        ensures
            final(self)@ == old(self)@,
            page_table.wf(final(memory)),
            area_ok(final(self)@, page_table, final(memory)),
            final(memory).free() == old(memory).free(),
            final(memory).limit() == old(memory).limit(),
            final(memory)@.dom() == old(memory)@.dom(),
            filled(old(self)@, data@, old(memory)@, final(memory)@),
            shape(final(memory)@, page_table.root()) == shape(old(memory)@, page_table.root()),
            forall|v: int|
                0 <= v < VPN_COUNT ==> #[trigger] leaf(final(memory)@, page_table.root(), v)
                    == leaf(old(memory)@, page_table.root(), v),
    {
        let ghost a = self@;
        let ghost root = page_table.root();
        let ghost mem0 = memory@;
        let mut start: usize = 0;
        let mut current_vpn: u64 = self.vpn_range.get_start().0;
        let len: usize = data.len();
        let ghost mut i: int = 0;
        loop
            invariant_except_break
                start == 4096 * i,
                0 <= i,
                i == 0 || start < len,
                current_vpn == a.start + i,
                table_of(memory@, root, a.start) is Some,
                chunks_filled(a, data@, mem0, memory@, i),
            invariant
                a == self@,
                a == old(self)@,
                root == page_table.root(),
                len == data@.len(),
                len + 4096 <= usize::MAX,
                a.start < VPN_COUNT,
                a.framed,
                page_table.wf(memory),
                area_ok(a, page_table, memory),
                memory.free() == old(memory).free(),
                memory.limit() == old(memory).limit(),
                memory@.dom() == mem0.dom(),
                mem0 == old(memory)@,
                shape(memory@, root) == shape(mem0, root),
                forall|v: int|
                    0 <= v < VPN_COUNT ==> #[trigger] leaf(memory@, root, v) == leaf(mem0, root, v),
                forall|v: int|
                    a.start <= v < a.start + (len + 4095) / 4096
                        ==> #[trigger] a.frames.dom().contains(v),
            ensures
                filled(a, data@, mem0, memory@),
            decreases len - start,
        {
            let end: usize = if len <= start + 4096 {
                len
            } else {
                start + 4096
            };
            let src: &[u8] = slice_subrange(data, start, end);
            let ghost v0 = current_vpn as int;
            let ghost mem1 = memory@;
            proof {
                page_table.lemma_walkable(memory);
                memory.lemma_wf();
                if len > 0 {
                    assert(a.frames.dom().contains(v0));
                    lemma_valid_frames(a, page_table, memory);
                }
            }
            let pte: Option<PageTableEntry> = page_table.translate(
                VirtPageNum(current_vpn),
                memory,
            );
            let ppn: PhysPageNum = pte.unwrap().ppn();
            if src.len() > 0 {
                memory.write_page(ppn, 0, src);
                proof {
                    let p = a.frames[v0];
                    assert(src@ == chunk(data@, i));
                    lemma_outside(mem1, memory@, root, page_table.tables(), p);
                    assert(memory@.dom() =~= mem0.dom());
                    lemma_still_ok(a, page_table, mem1, memory);
                    lemma_chunk_filled(a, data@, mem0, mem1, memory@, i);
                }
            }
            start += 4096;
            proof {
                i = i + 1;
            }
            if start >= len {
                proof {
                    lemma_chunks_all(a, data@, mem0, memory@, i);
                }
                break ;
            }
            current_vpn += 1;
        }
    }

    /// Gives back all frames of the area.
    pub fn release(self, memory: &mut Memory)
        requires
            old(memory).wf(),
            self@.wf(),
            forall|v: int| #[trigger]
                self@.frames.dom().contains(v) ==> {
                    &&& old(memory)@.dom().contains(self@.frames[v])
                    &&& !old(memory).free().contains(self@.frames[v])
                    &&& self@.frames[v] < old(memory).limit()
                },
        ensures
            final(memory).wf(),
            final(memory).limit() == old(memory).limit(),
            final(memory)@ == old(memory)@,
            final(memory).free() == old(memory).free().union(self@.owned()),
    {
        let ghost a0 = self@;
        let mut area: MapArea = self;
        let from: VirtPageNum = area.vpn_range.get_start();
        let to: VirtPageNum = area.vpn_range.get_end();
        let mut vpn: u64 = from.0;
        while vpn < to.0
            invariant
                a0.start == from.0,
                a0.end == to.0,
                from.0 <= vpn <= to.0,
                a0.wf(),
                memory.wf(),
                memory.limit() == old(memory).limit(),
                memory@ == old(memory)@,
                forall|v: int| #[trigger]
                    area@.frames.dom().contains(v) == (a0.frames.dom().contains(v) && v >= vpn),
                forall|v: int| #[trigger]
                    area@.frames.dom().contains(v) ==> area@.frames[v] == a0.frames[v],
                forall|p: int| #[trigger]
                    memory.free().contains(p) == (old(memory).free().contains(p) || given_back(
                        a0,
                        from.0 as int,
                        vpn as int,
                        p,
                    )),
                forall|v: int| #[trigger]
                    a0.frames.dom().contains(v) ==> {
                        &&& old(memory)@.dom().contains(a0.frames[v])
                        &&& !old(memory).free().contains(a0.frames[v])
                        &&& a0.frames[v] < old(memory).limit()
                    },
            decreases to.0 - vpn,
        {
            let ghost a1 = area@;
            let ghost free1 = memory.free();
            let ghost f = from.0 as int;
            let ghost v0 = vpn as int;
            let frame: Option<FrameTracker> = area.data_frames.remove(&vpn);
            match frame {
                Some(frame) => {
                    proof {
                        assert(a1.frames.dom().contains(v0));
                        assert(a0.frames[v0] == frame.ppn.0);
                        if given_back(a0, f, v0, a0.frames[v0]) {
                            let v = choose|v: int|
                                f <= v < v0 && a0.frames.dom().contains(v)
                                    && #[trigger] a0.frames[v] == a0.frames[v0];
                            assert(v == v0);
                        }
                    }
                    memory.frame_dealloc(frame.ppn);
                },
                None => {
                    assert(!a1.frames.dom().contains(v0));
                },
            }
            proof {
                assert forall|v: int| #[trigger] area@.frames.dom().contains(v) == (
                a0.frames.dom().contains(v) && v >= v0 + 1) by {
                    assert(a1.frames.dom().contains(v) == (a0.frames.dom().contains(v) && v >= v0));
                }
                assert forall|v: int| #[trigger] area@.frames.dom().contains(v) implies area@.frames[v]
                    == a0.frames[v] by {
                    assert(a1.frames.dom().contains(v));
                }
                assert forall|p: int| #[trigger] memory.free().contains(p) == (old(
                    memory,
                ).free().contains(p) || given_back(a0, f, v0 + 1, p)) by {
                    lemma_given_back_next(a0, f, v0, p);
                    assert(free1.contains(p) == (old(memory).free().contains(p) || given_back(
                        a0,
                        f,
                        v0,
                        p,
                    )));
                }
            }
            vpn += 1;
        }
        proof {
            assert forall|p: int| #[trigger] memory.free().contains(p) == old(memory).free().union(
                a0.owned(),
            ).contains(p) by {
                if a0.owned().contains(p) {
                    let v = choose|v: int| a0.frames.dom().contains(v) && a0.frames[v] == p;
                    assert(from.0 <= v < to.0 && a0.frames[v] == p);
                    assert(given_back(a0, from.0 as int, to.0 as int, p));
                }
            }
            assert(memory.free() =~= old(memory).free().union(a0.owned()));
        }
    }
}

/// Piece `i` of data that is cut into pages.
pub open spec fn chunk(data: Seq<u8>, i: int) -> Seq<u8> {
    if 4096 * i >= data.len() {
        Seq::empty()
    } else if 4096 * i + 4096 >= data.len() {
        data.subrange(4096 * i, data.len() as int)
    } else {
        data.subrange(4096 * i, 4096 * i + 4096)
    }
}

/// The first `n` pieces of the data are in the pages of the area; no other page has changed.
pub open spec fn chunks_filled(
    area: AreaView,
    data: Seq<u8>,
    mem: Map<int, Seq<u8>>,
    mem2: Map<int, Seq<u8>>,
    n: int,
) -> bool {
    &&& forall|v: int| #[trigger]
        area.frames.dom().contains(v) ==> mem2[area.frames[v]] == (if v < area.start + n {
            splice(mem[area.frames[v]], 0, chunk(data, v - area.start))
        } else {
            mem[area.frames[v]]
        })
    &&& forall|q: int| !area.owned().contains(q) ==> #[trigger] mem2[q] == mem[q]
}

/// The data is in the pages of the area; no other page has changed.
pub open spec fn filled(
    area: AreaView,
    data: Seq<u8>,
    mem: Map<int, Seq<u8>>,
    mem2: Map<int, Seq<u8>>,
) -> bool {
    &&& forall|v: int| #[trigger]
        area.frames.dom().contains(v) ==> mem2[area.frames[v]] == splice(
            mem[area.frames[v]],
            0,
            chunk(data, v - area.start),
        )
    &&& forall|q: int| !area.owned().contains(q) ==> #[trigger] mem2[q] == mem[q]
}

/// Data in a page of zeros is a page of the data.
pub proof fn lemma_page_of(data: Seq<u8>, i: int)
    requires
        0 <= i,
    ensures
        splice(zero_page(), 0, chunk(data, i)) == page_of(data, i),
{
    assert(splice(zero_page(), 0, chunk(data, i)) =~= page_of(data, i));
}

proof fn lemma_chunk_filled(
    area: AreaView,
    data: Seq<u8>,
    mem0: Map<int, Seq<u8>>,
    mem1: Map<int, Seq<u8>>,
    mem2: Map<int, Seq<u8>>,
    i: int,
)
    requires
        area.wf(),
        0 <= i,
        area.frames.dom().contains(area.start + i),
        chunks_filled(area, data, mem0, mem1, i),
        mem2 == mem1.insert(
            area.frames[area.start + i],
            splice(mem1[area.frames[area.start + i]], 0, chunk(data, i)),
        ),
    ensures
        chunks_filled(area, data, mem0, mem2, i + 1),
{
    let v0 = area.start + i;
    assert forall|v: int| #[trigger] area.frames.dom().contains(v) implies mem2[area.frames[v]] == (
    if v < area.start + i + 1 {
        splice(mem0[area.frames[v]], 0, chunk(data, v - area.start))
    } else {
        mem0[area.frames[v]]
    }) by {
        if v != v0 {
            assert(area.frames[v] != area.frames[v0]);
        }
    }
    assert forall|q: int| !area.owned().contains(q) implies #[trigger] mem2[q] == mem0[q] by {
        assert(area.owned().contains(area.frames[v0]));
    }
}

proof fn lemma_chunks_all(
    area: AreaView,
    data: Seq<u8>,
    mem: Map<int, Seq<u8>>,
    mem2: Map<int, Seq<u8>>,
    n: int,
)
    requires
        data.len() == 0 && (forall|q: int| #[trigger] mem2[q] == mem[q]) || chunks_filled(
            area,
            data,
            mem,
            mem2,
            n,
        ),
        4096 * n >= data.len(),
        n >= 0,
        area.wf(),
    ensures
        filled(area, data, mem, mem2),
{
    assert forall|v: int| #[trigger] area.frames.dom().contains(v) implies mem2[area.frames[v]]
        == splice(mem[area.frames[v]], 0, chunk(data, v - area.start)) by {
        if v >= area.start + n || data.len() == 0 {
            assert(chunk(data, v - area.start) =~= Seq::empty());
            assert(splice(mem[area.frames[v]], 0, Seq::empty()) =~= mem[area.frames[v]]);
        }
    }
}

proof fn lemma_still_ok(
    area: AreaView,
    page_table: &PageTable,
    mem: Map<int, Seq<u8>>,
    memory2: &Memory,
)
    requires
        area.wf(),
        memory2@.dom() == mem.dom(),
        forall|v: int| #[trigger]
            area.frames.dom().contains(v) ==> {
                let p = area.frames[v];
                &&& mem.dom().contains(p)
                &&& !memory2.free().contains(p)
                &&& p < memory2.limit()
                &&& !page_table.tables().contains(p)
                &&& leaf(mem, page_table.root(), v) == pte_of(p, in_use(area.perm as int))
            },
        forall|v: int|
            0 <= v < VPN_COUNT ==> #[trigger] leaf(memory2@, page_table.root(), v) == leaf(
                mem,
                page_table.root(),
                v,
            ),
    ensures
        area_ok(area, page_table, memory2),
{
    assert forall|v: int| #[trigger] area.frames.dom().contains(v) implies frame_ok(
        area,
        v,
        page_table,
        memory2,
    ) by {
        assert(leaf(memory2@, page_table.root(), v) == leaf(mem, page_table.root(), v));
    }
}

proof fn lemma_given_back_next(a0: AreaView, f: int, v0: int, p: int)
    requires
        f <= v0,
    ensures
        given_back(a0, f, v0 + 1, p) == (given_back(a0, f, v0, p) || a0.frames.dom().contains(v0)
            && a0.frames[v0] == p),
{
    if given_back(a0, f, v0, p) {
        let v = choose|v: int|
            f <= v < v0 && a0.frames.dom().contains(v) && #[trigger] a0.frames[v] == p;
        assert(f <= v < v0 + 1 && a0.frames[v] == p);
    }
    if given_back(a0, f, v0 + 1, p) {
        let v = choose|v: int|
            f <= v < v0 + 1 && a0.frames.dom().contains(v) && #[trigger] a0.frames[v] == p;
        if v < v0 {
            assert(given_back(a0, f, v0, p));
        }
    }
}

/// The pages from `from` on, up to but without `to`.
pub open spec fn pages(from: int, to: int) -> Set<int> {
    Set::new(|v: int| from <= v < to)
}

/// `p` is the frame of a page from `from` on, up to but without `to`.
pub open spec fn given_back(area: AreaView, from: int, to: int, p: int) -> bool {
    exists|v: int|
        from <= v < to && area.frames.dom().contains(v) && #[trigger] area.frames[v] == p
}

/// Page `v0` was mapped for the area; nothing else that was there has changed.
pub open spec fn mapped_one(
    area: AreaView,
    area2: AreaView,
    v0: int,
    page_table: &PageTable,
    page_table2: &PageTable,
    memory: &Memory,
    memory2: &Memory,
) -> bool {
    let root = page_table.root();
    let p0 = memory.next_frame();
    &&& page_table2.root() == root
    &&& memory2.limit() == memory.limit()
    &&& memory2@.dom() == memory@.dom()
    // the area
    &&& area2 == (if area.framed {
        AreaView { frames: area.frames.insert(v0, p0), ..area }
    } else {
        area
    })
    &&& area.framed ==> {
        &&& memory.free().contains(p0)
        &&& !memory2.free().contains(p0)
        &&& !page_table2.tables().contains(p0)
        &&& memory2@[p0] == zero_page()
    }
    // the frames
    &&& took(
        memory.free(),
        memory2.free(),
        holdings(area, page_table),
        holdings(area2, page_table2),
    )
    &&& page_table.tables().subset_of(page_table2.tables())
    &&& memory2.free().len() == memory.free().len() - shape(memory@, root).missing(v0) - (
    if area.framed {
        1int
    } else {
        0
    })
    // the mapping
    &&& shape(memory2@, root) == shape(memory@, root).with_page(v0)
    &&& leaf(memory2@, root, v0) == pte_of(area2.target(v0), in_use(area.perm as int))
    &&& forall|v: int|
        0 <= v < VPN_COUNT && v != v0 ==> #[trigger] leaf(memory2@, root, v) == leaf(
            memory@,
            root,
            v,
        )
    // the pages of others
    &&& forall|q: int|
        !page_table2.tables().contains(q) && !(area.framed && q == p0) ==> #[trigger] memory2@[q]
            == memory@[q]
}

/// The pages from `from` on, up to but without `to`, were mapped for the area; nothing else that
/// was there has changed.
pub open spec fn mapped_more(
    area: AreaView,
    area2: AreaView,
    from: int,
    to: int,
    page_table: &PageTable,
    page_table2: &PageTable,
    memory: &Memory,
    memory2: &Memory,
) -> bool {
    let root = page_table.root();
    &&& page_table2.root() == root
    &&& memory2.limit() == memory.limit()
    &&& memory2@.dom() == memory@.dom()
    // the area
    &&& area2.start == area.start
    &&& area2.end == area.end
    &&& area2.framed == area.framed
    &&& area2.perm == area.perm
    &&& !area.framed ==> area2.frames == area.frames
    &&& area.framed ==> forall|v: int| #[trigger]
        area2.frames.dom().contains(v) == (area.frames.dom().contains(v) || from <= v < to)
    &&& forall|v: int| #[trigger]
        area.frames.dom().contains(v) ==> area2.frames[v] == area.frames[v]
    &&& area.framed ==> forall|v: int|
        from <= v < to ==> {
            &&& memory.free().contains(#[trigger] area2.frames[v])
            &&& !memory2.free().contains(area2.frames[v])
            &&& memory2@[area2.frames[v]] == zero_page()
        }
    // the frames
    &&& took(
        memory.free(),
        memory2.free(),
        holdings(area, page_table),
        holdings(area2, page_table2),
    )
    &&& page_table.tables().subset_of(page_table2.tables())
    &&& memory2.free().len() == memory.free().len() - shape(memory@, root).cost(
        area.framed,
        from,
        to,
    )
    // the mapping
    &&& shape(memory2@, root) == shape(memory@, root).with_pages_upto(from, to)
    &&& forall|v: int|
        from <= v < to ==> #[trigger] leaf(memory2@, root, v) == pte_of(
            area2.target(v),
            in_use(area.perm as int),
        )
    &&& forall|v: int|
        0 <= v < VPN_COUNT && !(from <= v < to) ==> #[trigger] leaf(memory2@, root, v) == leaf(
            memory@,
            root,
            v,
        )
    // the pages of others
    &&& forall|q: int|
        !page_table2.tables().contains(q) && !(memory.free().contains(q)
            && !memory2.free().contains(q)) ==> #[trigger] memory2@[q] == memory@[q]
}

/// The pages from `from` on, up to but without `to`, were unmapped and their frames given back;
/// nothing else that was there has changed.
pub open spec fn unmapped(
    area: AreaView,
    area2: AreaView,
    from: int,
    to: int,
    page_table: &PageTable,
    page_table2: &PageTable,
    memory: &Memory,
    memory2: &Memory,
) -> bool {
    let root = page_table.root();
    &&& page_table2.root() == root
    &&& page_table2.tables() == page_table.tables()
    &&& memory2.limit() == memory.limit()
    &&& memory2@.dom() == memory@.dom()
    &&& area2 == (AreaView { frames: area.frames.remove_keys(pages(from, to)), ..area })
    &&& forall|p: int| #[trigger]
        memory2.free().contains(p) == (memory.free().contains(p) || given_back(area, from, to, p))
    &&& shape(memory2@, root) == shape(memory@, root)
    &&& forall|v: int|
        0 <= v < VPN_COUNT ==> #[trigger] leaf(memory2@, root, v) == (if from <= v < to {
            0
        } else {
            leaf(memory@, root, v)
        })
    &&& forall|q: int|
        !page_table2.tables().contains(q) ==> #[trigger] memory2@[q] == memory@[q]
}

proof fn lemma_mapped_step(
    a0: AreaView,
    a1: AreaView,
    a2: AreaView,
    from: int,
    v0: int,
    pt0: PageTable,
    pt1: PageTable,
    pt2: PageTable,
    m0: Memory,
    m1: Memory,
    m2: Memory,
)
    requires
        0 <= from <= v0 < VPN_COUNT,
        area_ok(a1, &pt1, &m1),
        area_ok(a2, &pt2, &m2),
        mapped_more(a0, a1, from, v0, &pt0, &pt1, &m0, &m1),
        mapped_one(a1, a2, v0, &pt1, &pt2, &m1, &m2),
        !a1.frames.dom().contains(v0),
    ensures
        mapped_more(a0, a2, from, v0 + 1, &pt0, &pt2, &m0, &m2),
{
    let root = pt0.root();
    let perm = in_use(a0.perm as int);
    let free0 = m0.free();
    lemma_cost_next(shape(m0@, root), a0.framed, from, v0);
    assert forall|v: int| from <= v < v0 + 1 implies #[trigger] leaf(m2@, root, v) == pte_of(
        a2.target(v),
        perm,
    ) by {
        if v != v0 {
            assert(leaf(m1@, root, v) == pte_of(a1.target(v), perm));
            if a0.framed {
                assert(a1.frames.dom().contains(v));
            }
        }
    }
    assert forall|v: int| 0 <= v < VPN_COUNT && !(from <= v < v0 + 1) implies #[trigger] leaf(
        m2@,
        root,
        v,
    ) == leaf(m0@, root, v) by {
        assert(leaf(m1@, root, v) == leaf(m0@, root, v));
    }
    assert forall|q: int|
        !pt2.tables().contains(q) && !(free0.contains(q) && !m2.free().contains(
            q,
        )) implies #[trigger] m2@[q] == m0@[q] by {
        assert(m2@[q] == m1@[q]);
        assert(!pt1.tables().contains(q));
        assert(m1@[q] == m0@[q]);
    }
    if a0.framed {
        assert forall|v: int| from <= v < v0 + 1 implies {
            &&& free0.contains(#[trigger] a2.frames[v])
            &&& !m2.free().contains(a2.frames[v])
            &&& m2@[a2.frames[v]] == zero_page()
        } by {
            if v != v0 {
                assert(a1.frames.dom().contains(v));
                assert(a2.frames.dom().contains(v));
                assert(free0.contains(a1.frames[v]));
                assert(frame_ok(a2, v, &pt2, &m2));
                assert(frame_ok(a1, v, &pt1, &m1));
            }
        }
        assert forall|v: int| #[trigger] a2.frames.dom().contains(v) == (a0.frames.dom().contains(v)
            || from <= v < v0 + 1) by {
            assert(a1.frames.dom().contains(v) == (a0.frames.dom().contains(v) || from <= v < v0));
        }
        assert forall|v: int| #[trigger] a0.frames.dom().contains(v) implies a2.frames[v]
            == a0.frames[v] by {
            assert(a1.frames.dom().contains(v));
            assert(v != v0);
        }
    }
    assert(holdings(a2, &pt2) =~= holdings(a0, &pt0).union(free0.difference(m2.free())));
}

/// Which tables the pages of a range bring.
pub proof fn lemma_pages_tables(s: Shape, from: int, to: int)
    requires
        0 <= from <= to,
    ensures
        forall|i: int| #[trigger]
            s.with_pages_upto(from, to).mids.contains(i) == (s.mids.contains(i) || exists|w: int|
                from <= w < to && #[trigger] top_index(w) == i),
        forall|i: int, j: int| #[trigger]
            s.with_pages_upto(from, to).lows.contains((i, j)) == (s.lows.contains((i, j))
                || exists|w: int|
                from <= w < to && #[trigger] top_index(w) == i && mid_index(w) == j),
    decreases to - from,
{
    if from < to {
        lemma_pages_tables(s, from, to - 1);
        let t = s.with_pages_upto(from, to - 1);
        assert forall|i: int| #[trigger] s.with_pages_upto(from, to).mids.contains(i) == (
        s.mids.contains(i) || exists|w: int| from <= w < to && #[trigger] top_index(w) == i) by {
            if t.mids.contains(i) && !s.mids.contains(i) {
                let w = choose|w: int| from <= w < to - 1 && #[trigger] top_index(w) == i;
                assert(from <= w < to && top_index(w) == i);
            }
            if exists|w: int| from <= w < to && #[trigger] top_index(w) == i {
                let w = choose|w: int| from <= w < to && #[trigger] top_index(w) == i;
                if w < to - 1 {
                    assert(t.mids.contains(i));
                }
            }
        }
        assert forall|i: int, j: int| #[trigger] s.with_pages_upto(from, to).lows.contains((i, j))
            == (s.lows.contains((i, j)) || exists|w: int|
            from <= w < to && #[trigger] top_index(w) == i && mid_index(w) == j) by {
            if t.lows.contains((i, j)) && !s.lows.contains((i, j)) {
                let w = choose|w: int|
                    from <= w < to - 1 && #[trigger] top_index(w) == i && mid_index(w) == j;
                assert(from <= w < to && top_index(w) == i && mid_index(w) == j);
            }
            if exists|w: int| from <= w < to && #[trigger] top_index(w) == i && mid_index(w) == j {
                let w = choose|w: int|
                    from <= w < to && #[trigger] top_index(w) == i && mid_index(w) == j;
                if w < to - 1 {
                    assert(t.lows.contains((i, j)));
                }
            }
        }
    }
}

/// Which tables are missing for the next page of a range: only the page right before it can have
/// brought them.
pub proof fn lemma_missing_next(s: Shape, from: int, v: int)
    requires
        0 <= from <= v < VPN_COUNT,
    ensures
        s.with_pages_upto(from, v).missing(v) == (if from < v && top_index(v - 1) == top_index(v)
            && mid_index(v - 1) == mid_index(v) {
            0
        } else if from < v && top_index(v - 1) == top_index(v) {
            if s.lows.contains((top_index(v), mid_index(v))) {
                0nat
            } else {
                1
            }
        } else {
            s.missing(v)
        }),
{
    lemma_pages_tables(s, from, v);
    let t = s.with_pages_upto(from, v);
    let i = top_index(v);
    let j = mid_index(v);
    if from < v {
        if exists|w: int| from <= w < v && #[trigger] top_index(w) == i && mid_index(w) == j {
            let w = choose|w: int|
                from <= w < v && #[trigger] top_index(w) == i && mid_index(w) == j;
            assert(w / 512 == v / 512) by {
                assert(w / 512 == w / 0x4_0000 * 512 + w / 512 % 512);
                assert(v / 512 == v / 0x4_0000 * 512 + v / 512 % 512);
            }
            assert((v - 1) / 512 == v / 512);
            assert((v - 1) / 0x4_0000 == v / 0x4_0000);
        }
        if exists|w: int| from <= w < v && #[trigger] top_index(w) == i {
            let w = choose|w: int| from <= w < v && #[trigger] top_index(w) == i;
            assert((v - 1) / 0x4_0000 == v / 0x4_0000);
        }
    }
}

/// The cost of one page more.
pub proof fn lemma_cost_next(s: Shape, framed: bool, from: int, v: int)
    requires
        from <= v,
    ensures
        s.cost(framed, from, v + 1) == s.cost(framed, from, v) + s.with_pages_upto(
            from,
            v,
        ).missing(v) + (if framed {
            1nat
        } else {
            0
        }),
    decreases v - from,
{
    if from < v {
        lemma_cost_next(s.with_page(from), framed, from + 1, v);
        lemma_pages_front(s, from, v);
    } else {
        reveal_with_fuel(Shape::cost, 2);
    }
}

/// Tables can be counted from the front as well as from the back.
pub proof fn lemma_pages_front(s: Shape, from: int, to: int)
    requires
        from < to,
    ensures
        s.with_pages_upto(from, to) == s.with_page(from).with_pages_upto(from + 1, to),
    decreases to - from,
{
    reveal_with_fuel(Shape::with_pages_upto, 2);
    if from + 1 < to {
        lemma_pages_front(s, from, to - 1);
    }
}

/// What an area and a page table have.
pub open spec fn holdings(area: AreaView, page_table: &PageTable) -> Set<int> {
    page_table.tables().union(area.owned())
}

/// The frame of page `v` is taken, is no table, and the page table maps the page to it.
pub open spec fn frame_ok(
    area: AreaView,
    v: int,
    page_table: &PageTable,
    memory: &Memory,
) -> bool {
    let p = area.frames[v];
    &&& memory@.dom().contains(p)
    &&& !memory.free().contains(p)
    &&& p < memory.limit()
    &&& !page_table.tables().contains(p)
    &&& leaf(memory@, page_table.root(), v) == pte_of(p, in_use(area.perm as int))
}

/// The area is in order, and so are its frames.
pub open spec fn area_ok(area: AreaView, page_table: &PageTable, memory: &Memory) -> bool {
    &&& area.wf()
    &&& forall|v: int| #[trigger]
        area.frames.dom().contains(v) ==> frame_ok(area, v, page_table, memory)
}

/// A page that has a frame is mapped.
pub proof fn lemma_valid_frames(area: AreaView, page_table: &PageTable, memory: &Memory)
    requires
        memory.wf(),
        area_ok(area, page_table, memory),
    ensures
        forall|v: int| #[trigger]
            area.frames.dom().contains(v) ==> pte_valid(leaf(memory@, page_table.root(), v))
                && pte_ppn(leaf(memory@, page_table.root(), v)) == area.frames[v],
{
    memory.lemma_wf();
    assert forall|v: int| #[trigger] area.frames.dom().contains(v) implies pte_valid(
        leaf(memory@, page_table.root(), v),
    ) && pte_ppn(leaf(memory@, page_table.root(), v)) == area.frames[v] by {
        assert(frame_ok(area, v, page_table, memory));
        lemma_pte(area.frames[v], in_use(area.perm as int));
    }
}

proof fn lemma_values_insert(m: Map<int, int>, v: int, p: int)
    requires
        !m.dom().contains(v),
    ensures
        m.insert(v, p).values() == m.values().insert(p),
{
    let m2 = m.insert(v, p);
    assert forall|q: int| #[trigger] m2.values().contains(q) == m.values().insert(p).contains(q) by {
        if m.values().contains(q) {
            let w = choose|w: int| m.dom().contains(w) && m[w] == q;
            assert(m2.dom().contains(w) && m2[w] == q);
        }
        assert(m2.dom().contains(v) && m2[v] == p);
        if m2.values().contains(q) {
            let w = choose|w: int| m2.dom().contains(w) && m2[w] == q;
            if w != v {
                assert(m.dom().contains(w) && m[w] == q);
            }
        }
    }
    assert(m2.values() =~= m.values().insert(p));
}

/// A page outside the tables can change without changing what the tables mean.
proof fn lemma_outside(
    mem: Map<int, Seq<u8>>,
    mem2: Map<int, Seq<u8>>,
    root: int,
    tables: Set<int>,
    p: int,
)
    requires
        is_tree(mem, root, tables),
        !tables.contains(p),
        mem.dom().contains(p),
        mem2 == mem.insert(p, mem2[p]),
    ensures
        is_tree(mem2, root, tables),
        shape(mem2, root) == shape(mem, root),
        forall|v: int|
            0 <= v < VPN_COUNT ==> #[trigger] leaf(mem2, root, v) == leaf(mem, root, v),
{
    assert(mem2.dom() =~= mem.dom());
    lemma_same_tree(mem, mem2, root, tables);
    lemma_same_shape(mem, mem2, root);
}

} // verus!
