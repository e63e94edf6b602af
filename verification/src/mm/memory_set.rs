//! Address spaces.

use vstd::prelude::*;

use super::address::{
    mid_index, top_index, va_of, PhysAddr, PhysPageNum, VirtAddr, VirtPageNum, PPN_COUNT, TRAMPOLINE, VPN_COUNT,
};
use super::frame_allocator::{zero_page, Memory};
use super::laws::law_mmap_grants_what_was_asked;
use super::map_area::{
    area_of, area_ok, filled, frame_ok, given_back, holdings, lemma_cost_next, lemma_missing,
    lemma_missing_next, lemma_page_of, lemma_same_shape, lemma_shape_page, lemma_valid_frames,
    mapped_more, page_of, pages, shape, unmapped, AreaView, MapArea, MapPermission, MapType, Shape,
    PERM_R, PERM_U, PERM_W, PERM_X,
};
use super::page_table::{
    in_use, leaf, lemma_same_tree, pte_of, pte_valid, table_of, took, walkable, PTEFlags, PageTable,
    PageTableEntry, PTE_R, PTE_X,
};

verus! {

/// An address space: a page table and the areas that it maps.
pub struct MemorySet {
    pub page_table: PageTable,
    pub areas: Vec<MapArea>,
}

/// `p` is a frame of one of the areas.
pub open spec fn in_areas(areas: Seq<AreaView>, p: int) -> bool {
    exists|k: int| 0 <= k < areas.len() && (#[trigger] areas[k]).owned().contains(p)
}

/// No frame serves two areas.
pub open spec fn apart(areas: Seq<AreaView>) -> bool {
    forall|j: int, k: int, p: int|
        0 <= j < areas.len() && 0 <= k < areas.len() && (#[trigger] areas[j]).owned().contains(p)
            && #[trigger] areas[k].owned().contains(p) ==> j == k
}

impl MemorySet {
    /// The areas.
    pub open spec fn views(&self) -> Seq<AreaView> {
        self.areas@.map_values(|a: MapArea| a@)
    }

    /// The page of the root table.
    pub open spec fn root(&self) -> int {
        self.page_table.root()
    }

    /// The frames that the address space has.
    pub open spec fn owned(&self) -> Set<int> {
        Set::new(|p: int| self.page_table.tables().contains(p) || in_areas(self.views(), p))
    }

    /// The page table and the areas are in order, and no frame serves twice.
    pub open spec fn wf(&self, memory: &Memory) -> bool {
        &&& self.page_table.wf(memory)
        &&& forall|k: int|
            0 <= k < self.views().len() ==> area_ok(
                #[trigger] self.views()[k],
                &self.page_table,
                memory,
            )
        &&& apart(self.views())
    }

    /// Which tables there are.
    pub open spec fn shape(&self, memory: &Memory) -> Shape {
        shape(memory@, self.root())
    }

    /// What follows of an address space in order.
    pub proof fn lemma_wf(&self, memory: &Memory)
        requires
            self.wf(memory),
        ensures
            forall|p: int| #[trigger]
                self.owned().contains(p) ==> memory@.dom().contains(p) && !memory.free().contains(p)
                    && p < memory.limit(),
            self.root() < PPN_COUNT,
            0 <= self.root(),
            self.owned().contains(self.root()),
    {
        memory.lemma_wf();
        assert forall|p: int| #[trigger] self.owned().contains(p) implies memory@.dom().contains(p)
            && !memory.free().contains(p) && p < memory.limit() by {
            if !self.page_table.tables().contains(p) {
                let k = choose|k: int|
                    0 <= k < self.views().len() && (#[trigger] self.views()[k]).owned().contains(p);
                let a = self.views()[k];
                let v = choose|v: int| a.frames.dom().contains(v) && a.frames[v] == p;
                assert(area_ok(a, &self.page_table, memory));
                assert(frame_ok(a, v, &self.page_table, memory));
            }
        }
        assert(self.page_table.tables().contains(self.root()));
    }

    /// An address space is as before where its frames are as before.
    pub proof fn lemma_same_space(&self, memory: &Memory, memory2: &Memory)
        requires
            self.wf(memory),
            memory2.wf(),
            memory2.limit() == memory.limit(),
            memory2@.dom() == memory@.dom(),
            forall|p: int| #[trigger]
                self.owned().contains(p) ==> !memory2.free().contains(p) && memory2@[p]
                    == memory@[p],
        ensures
            self.wf(memory2),
            self.shape(memory2) == self.shape(memory),
            forall|v: int|
                0 <= v < VPN_COUNT ==> #[trigger] leaf(memory2@, self.root(), v) == leaf(
                    memory@,
                    self.root(),
                    v,
                ),
    {
        assert forall|p: int| #[trigger] self.page_table.tables().contains(p) implies memory2@[p]
            == memory@[p] && !memory2.free().contains(p) by {
            assert(self.owned().contains(p));
        }
        lemma_same_tree(memory@, memory2@, self.root(), self.page_table.tables());
        lemma_same_shape(memory@, memory2@, self.root());
        assert forall|k: int| 0 <= k < self.views().len() implies area_ok(
            #[trigger] self.views()[k],
            &self.page_table,
            memory2,
        ) by {
            let a = self.views()[k];
            assert(area_ok(a, &self.page_table, memory));
            assert forall|v: int| #[trigger] a.frames.dom().contains(v) implies !memory2.free().contains(
                a.frames[v],
            ) by {
                assert(a.owned().contains(a.frames[v]));
                assert(self.owned().contains(a.frames[v]));
            }
            lemma_area_kept(a, self.page_table, self.page_table, *memory, *memory2);
        }
    }

    /// An empty address space.
    pub fn new_bare(memory: &mut Memory) -> (r: Self)
        requires
            old(memory).wf(),
            old(memory).free().len() > 0,
        ensures
            r.wf(final(memory)),
            r.views() == Seq::<AreaView>::empty(),
            final(memory).limit() == old(memory).limit(),
            final(memory)@.dom() == old(memory)@.dom(),
            took(old(memory).free(), final(memory).free(), Set::empty(), r.owned()),
            final(memory).free().len() == old(memory).free().len() - 1,
            r.shape(final(memory)) == (Shape { mids: Set::empty(), lows: Set::empty() }),
            forall|v: int| 0 <= v < VPN_COUNT ==> #[trigger] leaf(final(memory)@, r.root(), v) == 0,
            forall|p: int|
                !r.owned().contains(p) ==> #[trigger] final(memory)@[p] == old(memory)@[p],
    {
        let page_table: PageTable = PageTable::new(memory);
        let r: MemorySet = MemorySet { page_table, areas: Vec::new() };
        proof {
            assert(r.views() =~= Seq::<AreaView>::empty());
            assert(r.owned() =~= page_table.tables());
            let s = r.shape(memory);
            assert(s.mids =~= Set::empty());
            assert(s.lows =~= Set::empty());
            assert(memory@.dom() =~= old(memory)@.dom()) by {
                old(memory).lemma_wf();
            }
        }
        r
    }

    /// The value of the control register for this address space.
    pub fn token(&self) -> (r: u64)
        requires
            0 <= self.root() < PPN_COUNT,
        ensures
            r == 0x8000_0000_0000_0000 + self.root(),
    {
        self.page_table.token()
    }

    /// The entry for page `vpn`, if there are tables for it.
    pub fn translate(&self, vpn: VirtPageNum, memory: &Memory) -> (r: Option<PageTableEntry>)
        requires
            self.wf(memory),
            vpn.0 < VPN_COUNT,
        ensures
            match r {
                Some(pte) => table_of(memory@, self.root(), vpn.0 as int) is Some && pte.bits
                    == leaf(memory@, self.root(), vpn.0 as int),
                None => table_of(memory@, self.root(), vpn.0 as int) is None && leaf(
                    memory@,
                    self.root(),
                    vpn.0 as int,
                ) == 0,
            },
    {
        proof {
            self.page_table.lemma_walkable(memory);
        }
        self.page_table.translate(vpn, memory)
    }

    /// Adds an area: its pages, none of which is mapped, are mapped, and `data` is copied into them.
    pub fn push(&mut self, map_area: MapArea, data: Option<&[u8]>, memory: &mut Memory)
        requires
            old(self).wf(old(memory)),
            can_push(old(self), map_area@, data_of(data), old(memory)),
        ensures
            final(self).wf(final(memory)),
            pushed(
                old(self),
                final(self),
                map_area@,
                match data {
                    Some(d) => d@,
                    None => Seq::empty(),
                },
                old(memory),
                final(memory),
            ),
    {
        let ghost ms0 = *old(self);
        let ghost m0 = *old(memory);
        let ghost a0 = map_area@;
        let ghost views0 = self.views();
        let mut map_area: MapArea = map_area;
        proof {
            assert(a0.owned() =~= Set::empty());
        }
        map_area.map(&mut self.page_table, memory);
        let ghost a1 = map_area@;
        let ghost m1 = *memory;
        let ghost pt1 = self.page_table;
        proof {
            lemma_others_kept(views0, ms0.page_table, pt1, a0, a1, m0, m1);
        }
        match data {
            Some(data) => {
                proof {
                    let root = ms0.root();
                    if a0.start < a0.end {
                        assert(pte_valid(leaf(m1@, root, a0.start))) by {
                            lemma_valid_frames(a1, &pt1, &m1);
                            assert(a1.frames.dom().contains(a0.start));
                        }
                    } else {
                        let ij = (top_index(a0.start), mid_index(a0.start));
                        assert(shape(m0@, root).lows.contains(ij));
                        assert(shape(m1@, root).lows.contains(ij));
                    }
                    assert(table_of(m1@, root, a0.start) is Some);
                }
                map_area.copy_data(&self.page_table, data, memory);
                proof {
                    lemma_copy_kept(views0, pt1, a1, m1, *memory);
                }
            },
            None => {},
        }
        self.areas.push(map_area);
        proof {
            assert(self.views() =~= views0.push(a1));
            lemma_pushed(ms0, *self, a0, a1, m0, m1, *memory, data_of(data));
        }
    }

    /// Adds an area whose pages get frames of zeros.
    pub fn insert_framed_area(
        &mut self,
        start_va: VirtAddr,
        end_va: VirtAddr,
        permission: MapPermission,
        memory: &mut Memory,
    )
        requires
            old(self).wf(old(memory)),
            start_va.0 as int / 4096 <= (end_va.0 + 4095) / 4096,
            can_push(
                old(self),
                area_of(start_va.0 as int, end_va.0 as int, true, permission.bits),
                None,
                old(memory),
            ),
        ensures
            final(self).wf(final(memory)),
            pushed(
                old(self),
                final(self),
                area_of(start_va.0 as int, end_va.0 as int, true, permission.bits),
                Seq::empty(),
                old(memory),
                final(memory),
            ),
    {
        self.push(MapArea::new(start_va, end_va, MapType::Framed, permission), None, memory);
    }

    /// How many frames it takes to map the pages from `from` on, up to but without `to`, to frames.
    pub(crate) fn cost_of(&self, from: VirtPageNum, to: VirtPageNum, memory: &Memory) -> (r: u64)
        requires
            self.wf(memory),
            from.0 <= to.0 <= VPN_COUNT,
        ensures
            r == self.shape(memory).cost(true, from.0 as int, to.0 as int),
    {
        let ghost s = self.shape(memory);
        let mut vpn: u64 = from.0;
        let mut cost: u64 = 0;
        proof {
            self.page_table.lemma_walkable(memory);
        }
        while vpn < to.0
            invariant
                self.wf(memory),
                walkable(memory@, self.root()),
                s == self.shape(memory),
                from.0 <= vpn <= to.0 <= VPN_COUNT,
                cost == s.cost(true, from.0 as int, vpn as int),
                cost <= 3 * (vpn - from.0),
            decreases to.0 - vpn,
        {
            let ghost v = vpn as int;
            proof {
                lemma_cost_next(s, true, from.0 as int, v);
                lemma_missing_next(s, from.0 as int, v);
                lemma_missing(memory@, self.root(), v);
            }
            let same_mid: bool = from.0 < vpn && (vpn - 1) / 0x4_0000 == vpn / 0x4_0000;
            let same_low: bool = same_mid && (vpn - 1) / 512 % 512 == vpn / 512 % 512;
            if !same_low {
                if same_mid {
                    if self.page_table.find_pte(VirtPageNum(vpn), memory).is_none() {
                        cost += 1;
                    }
                } else {
                    cost += self.page_table.tables_missing(VirtPageNum(vpn), memory);
                }
            }
            cost += 1;
            vpn += 1;
        }
        cost
    }

    /// Maps the pages of `[start, start + len)` to fresh frames for a program, with the permissions
    /// that the three bits of `prot` say. Returns -1, and changes nothing, if one of the pages is
    /// mapped or there are not enough frames.
    pub fn map(&mut self, start: u64, len: u64, prot: u64, memory: &mut Memory) -> (r: i64)
        requires
            old(self).wf(old(memory)),
            start + len <= u64::MAX,
            va_of(start) / 4096 <= (va_of((start + len) as u64) + 4095) / 4096,
        ensures
            final(self).wf(final(memory)),
            ({
                let area = mmap_area(start, len, prot);
                if (exists|v: int|
                    area.start <= v < area.end && pte_valid(
                        #[trigger] leaf(old(memory)@, old(self).root(), v),
                    )) || old(self).shape(old(memory)).cost(true, area.start, area.end) > old(
                    memory,
                ).free().len() {
                    &&& r == -1
                    &&& *final(self) == *old(self)
                    &&& *final(memory) == *old(memory)
                } else {
                    &&& r == 0
                    &&& pushed(
                        old(self),
                        final(self),
                        area,
                        Seq::empty(),
                        old(memory),
                        final(memory),
                    )
                }
            }),
            r == 0 && prot < 8 ==> forall|v: int|
                va_of(start) / 4096 <= v < (va_of((start + len) as u64) + 4095) / 4096 ==> {
                    let e = #[trigger] leaf(final(memory)@, final(self).root(), v);
                    &&& e % 2 == 1
                    &&& e / 2 % 2 == prot % 2
                    &&& e / 4 % 2 == prot / 2 % 2
                    &&& e / 8 % 2 == prot / 4 % 2
                    &&& e / 16 % 2 == 1
                },
    {
        let start_va: VirtAddr = VirtAddr::new(start);
        let end_va: VirtAddr = VirtAddr::new(start + len);
        let from: VirtPageNum = start_va.floor();
        let to: VirtPageNum = end_va.ceil();
        let ghost area = mmap_area(start, len, prot);
        let ghost root = self.root();
        proof {
            self.page_table.lemma_walkable(memory);
        }
        let mut vpn: u64 = from.0;
        while vpn < to.0
            invariant
                *self == *old(self),
                *memory == *old(memory),
                root == self.root(),
                walkable(memory@, root),
                self.wf(memory),
                area == mmap_area(start, len, prot),
                area.start == from.0,
                area.end == to.0,
                from.0 <= vpn <= to.0 <= VPN_COUNT,
                forall|v: int|
                    from.0 <= v < vpn ==> !pte_valid(#[trigger] leaf(memory@, root, v)),
            decreases to.0 - vpn,
        {
            let pte: Option<PageTableEntry> = self.page_table.translate(VirtPageNum(vpn), memory);
            let valid: bool = match pte {
                Some(pte) => pte.is_valid(),
                None => false,
            };
            if valid {
                assert(pte_valid(leaf(memory@, root, vpn as int)));
                return -1;
            }
            vpn += 1;
        }
        if self.cost_of(from, to, memory) > memory.available() {
            return -1;
        }
        let mut bits: u8 = PERM_U;
        if prot % 2 == 1 {
            bits = bits + PERM_R;
        }
        if prot / 2 % 2 == 1 {
            bits = bits + PERM_W;
        }
        if prot / 4 % 2 == 1 {
            bits = bits + PERM_X;
        }
        assert(bits == 16 + 2 * (prot as int % 8));
        self.insert_framed_area(start_va, end_va, MapPermission { bits }, memory);
        proof {
            if prot < 8 {
                law_mmap_grants_what_was_asked(
                    old(self),
                    self,
                    start,
                    len,
                    prot,
                    old(memory),
                    memory,
                );
            }
        }
        0
    }

    /// Puts the code that enters and leaves the kernel into the highest page.
    pub fn map_trampoline(&mut self, strampoline: u64, memory: &mut Memory)
        requires
            old(self).wf(old(memory)),
            strampoline % 4096 == 0,
            strampoline < 0x100_0000_0000_0000,
            !pte_valid(leaf(old(memory)@, old(self).root(), TRAMPOLINE_VPN as int)),
            old(self).shape(old(memory)).missing(TRAMPOLINE_VPN as int) <= old(memory).free().len(),
        ensures
            final(self).wf(final(memory)),
            final(self).root() == old(self).root(),
            final(self).views() == old(self).views(),
            final(memory).limit() == old(memory).limit(),
            final(memory)@.dom() == old(memory)@.dom(),
            took(
                old(memory).free(),
                final(memory).free(),
                old(self).owned(),
                final(self).owned(),
            ),
            final(memory).free().len() == old(memory).free().len() - old(self).shape(
                old(memory),
            ).missing(TRAMPOLINE_VPN as int),
            final(self).shape(final(memory)) == old(self).shape(old(memory)).with_page(
                TRAMPOLINE_VPN as int,
            ),
            leaf(final(memory)@, old(self).root(), TRAMPOLINE_VPN as int) == pte_of(
                strampoline as int / 4096,
                11,
            ),
            forall|v: int|
                0 <= v < VPN_COUNT && v != TRAMPOLINE_VPN ==> #[trigger] leaf(
                    final(memory)@,
                    old(self).root(),
                    v,
                ) == leaf(old(memory)@, old(self).root(), v),
            forall|q: int|
                !final(self).page_table.tables().contains(q) ==> #[trigger] final(memory)@[q]
                    == old(memory)@[q],
    {
        let ghost ms0 = *self;
        let ghost m0 = *memory;
        let vpn: VirtPageNum = VirtAddr::new(TRAMPOLINE).floor();
        let ppn: PhysPageNum = PhysAddr::new(strampoline).floor();
        proof {
            lemma_missing(memory@, self.root(), TRAMPOLINE_VPN as int);
        }
        self.page_table.map(vpn, ppn, PTEFlags { bits: PTE_R + PTE_X }, memory);
        proof {
            lemma_shape_page(m0@, memory@, ms0.root(), TRAMPOLINE_VPN as int);
            assert(self.views() == ms0.views());
            let views = self.views();
            assert forall|k: int| 0 <= k < views.len() implies area_ok(
                #[trigger] views[k],
                &self.page_table,
                memory,
            ) by {
                let a = views[k];
                assert(area_ok(ms0.views()[k], &ms0.page_table, &m0));
                lemma_valid_frames(a, &ms0.page_table, &m0);
                assert forall|v: int| #[trigger] a.frames.dom().contains(v) implies leaf(
                    memory@,
                    ms0.root(),
                    v,
                ) == leaf(m0@, ms0.root(), v) && !memory.free().contains(a.frames[v]) by {
                    assert(frame_ok(a, v, &ms0.page_table, &m0));
                    assert(v != TRAMPOLINE_VPN as int);
                }
                lemma_area_kept(a, ms0.page_table, self.page_table, m0, *memory);
            }
            assert(self.owned() =~= ms0.owned().union(m0.free().difference(memory.free())));
        }
    }

    /// The first area that starts at page `start_vpn`.
    pub(crate) fn find_area(&self, start_vpn: VirtPageNum) -> (r: Option<usize>)
        ensures
            match r {
                Some(k) => k == area_at(self.views(), start_vpn.0 as int) && k < self.views().len()
                    && self.areas@.len() == self.views().len(),
                None => area_at(self.views(), start_vpn.0 as int) == self.views().len(),
            },
    {
        let mut k: usize = 0;
        while k < self.areas.len()
            invariant
                k <= self.areas@.len(),
                forall|j: int|
                    0 <= j < k ==> (#[trigger] self.views()[j]).start != start_vpn.0,
            decreases self.areas@.len() - k,
        {
            if self.areas[k].get_start() == start_vpn {
                proof {
                    lemma_area_at(self.views(), start_vpn.0 as int, k as int);
                }
                return Some(k);
            }
            k += 1;
        }
        proof {
            lemma_area_at(self.views(), start_vpn.0 as int, k as int);
        }
        None
    }

    /// Removes the first area that starts at page `start_vpn`, if there is one, with its frames.
    pub fn remove_area_with_start_vpn(&mut self, start_vpn: VirtPageNum, memory: &mut Memory)
        requires
            old(self).wf(old(memory)),
            ({
                let k = area_at(old(self).views(), start_vpn.0 as int);
                k < old(self).views().len() ==> can_unmap(
                    old(self),
                    k,
                    old(self).views()[k].start,
                    old(self).views()[k].end,
                    old(memory),
                )
            }),
        ensures
            final(self).wf(final(memory)),
            ({
                let k = area_at(old(self).views(), start_vpn.0 as int);
                if k < old(self).views().len() {
                    &&& final(self).views() == old(self).views().remove(k)
                    &&& lost_pages(
                        old(self),
                        final(self),
                        old(self).views()[k].start,
                        old(self).views()[k].end,
                        old(memory),
                        final(memory),
                    )
                } else {
                    &&& final(self).views() == old(self).views()
                    &&& final(self).page_table == old(self).page_table
                    &&& *final(memory) == *old(memory)
                }
            }),
    {
        let ghost ms0 = *self;
        let ghost m0 = *memory;
        match self.find_area(start_vpn) {
            Some(idx) => {
                let ghost k = idx as int;
                let ghost a0 = ms0.views()[k];
                assert(self.areas@[k]@ == a0);
                assert forall|v: int| a0.start <= v < a0.end implies pte_valid(
                    #[trigger] leaf(memory@, self.page_table.root(), v),
                ) by {
                    assert(pte_valid(leaf(m0@, ms0.root(), v)));
                }
                self.areas[idx].unmap(&mut self.page_table, memory);
                let ghost a1 = self.areas@[k]@;
                proof {
                    assert(self.views() =~= ms0.views().update(k, a1));
                    lemma_unmapped_in(ms0, *self, k, a0, a1, a0.start, a0.end, m0, *memory);
                    assert(a1.frames =~= Map::<int, int>::empty());
                }
                let ghost ms1 = *self;
                self.areas.remove(idx);
                proof {
                    assert(self.views() =~= ms0.views().remove(k));
                    assert(self.views() =~= ms1.views().remove(k));
                    lemma_remove_empty(ms1, *self, k, *memory);
                    assert(self.owned() == ms1.owned());
                }
            },
            None => {},
        }
    }

    /// Gives back the frames of all areas. The page table is left as it is.
    pub fn recycle_data_pages(&mut self, memory: &mut Memory)
        requires
            old(self).wf(old(memory)),
        ensures
            final(self).wf(final(memory)),
            final(self).page_table == old(self).page_table,
            final(self).views() == Seq::<AreaView>::empty(),
            final(self).owned() == old(self).page_table.tables(),
            final(memory).limit() == old(memory).limit(),
            final(memory)@ == old(memory)@,
            gave(
                old(memory).free(),
                final(memory).free(),
                old(self).owned(),
                final(self).owned(),
            ),
    {
        let ghost ms0 = *self;
        let ghost m0 = *memory;
        let ghost views0 = self.views();
        proof {
            self.lemma_wf(memory);
        }
        while self.areas.len() > 0
            invariant
                self.page_table == ms0.page_table,
                self.views().len() <= views0.len(),
                self.views() == views0.take(self.views().len() as int),
                self.wf(memory),
                ms0.wf(&m0),
                views0 == ms0.views(),
                memory.limit() == m0.limit(),
                memory@ == m0@,
                forall|p: int| #[trigger]
                    memory.free().contains(p) == (m0.free().contains(p) || ms0.owned().contains(p)
                        && !self.owned().contains(p)),
            decreases self.areas@.len(),
        {
            let ghost n = self.areas@.len() - 1;
            let ghost ms1 = *self;
            let ghost m1 = *memory;
            let ghost views1 = self.views();
            let area: Option<MapArea> = self.areas.pop();
            let area: MapArea = area.unwrap();
            let ghost a = area@;
            proof {
                assert(views1[n] == a);
                assert(self.views() =~= views1.drop_last());
                assert(area_ok(a, &ms1.page_table, &m1));
                assert forall|v: int| #[trigger] a.frames.dom().contains(v) implies {
                    &&& memory@.dom().contains(a.frames[v])
                    &&& !memory.free().contains(a.frames[v])
                    &&& a.frames[v] < memory.limit()
                } by {
                    assert(frame_ok(a, v, &ms1.page_table, &m1));
                }
            }
            area.release(memory);
            proof {
                lemma_last_released(ms1, *self, a, m1, *memory);
                assert forall|p: int| #[trigger] memory.free().contains(p) == (m0.free().contains(p)
                    || ms0.owned().contains(p) && !self.owned().contains(p)) by {
                    assert(m1.free().contains(p) == (m0.free().contains(p) || ms0.owned().contains(
                        p,
                    ) && !ms1.owned().contains(p)));
                    assert(ms1.owned().contains(p) == (self.owned().contains(p)
                        || a.owned().contains(p)));
                    if a.owned().contains(p) {
                        assert(views0[n] == a);
                        assert(ms0.owned().contains(p));
                        assert(!self.owned().contains(p));
                    }
                }
            }
        }
        proof {
            assert(self.views() =~= Seq::<AreaView>::empty());
            assert(self.owned() =~= ms0.page_table.tables());
            assert(memory.free() =~= m0.free().union(ms0.owned().difference(self.owned())));
        }
    }

    /// Gives back everything that the address space has.
    pub fn release(self, memory: &mut Memory)
        requires
            self.wf(old(memory)),
        ensures
            final(memory).wf(),
            final(memory).limit() == old(memory).limit(),
            final(memory)@ == old(memory)@,
            final(memory).free() == old(memory).free().union(self.owned()),
    {
        let ghost ms0 = self;
        let mut ms: MemorySet = self;
        proof {
            ms.lemma_wf(memory);
        }
        ms.recycle_data_pages(memory);
        ms.page_table.release(memory);
        assert(memory.free() =~= old(memory).free().union(ms0.owned()));
    }

    /// Lets the first area that starts at the page of `start` end at `new_end`, which is not behind
    /// its end. Returns whether there is such an area.
    pub fn shrink_to(&mut self, start: VirtAddr, new_end: VirtAddr, memory: &mut Memory) -> (r: bool)
        requires
            old(self).wf(old(memory)),
            ({
                let k = area_at(old(self).views(), start.0 as int / 4096);
                let end = (new_end.0 + 4095) / 4096;
                k < old(self).views().len() ==> {
                    &&& old(self).views()[k].start <= end <= old(self).views()[k].end
                    &&& can_unmap(old(self), k, end, old(self).views()[k].end, old(memory))
                }
            }),
        ensures
            final(self).wf(final(memory)),
            ({
                let k = area_at(old(self).views(), start.0 as int / 4096);
                let end = (new_end.0 + 4095) / 4096;
                &&& r == (k < old(self).views().len())
                &&& r ==> {
                    let a = old(self).views()[k];
                    &&& final(self).views() == old(self).views().update(
                        k,
                        (AreaView { end, frames: a.frames.remove_keys(pages(end, a.end)), ..a }),
                    )
                    &&& lost_pages(old(self), final(self), end, a.end, old(memory), final(memory))
                }
                &&& !r ==> {
                    &&& final(self).views() == old(self).views()
                    &&& final(self).page_table == old(self).page_table
                    &&& *final(memory) == *old(memory)
                }
            }),
    {
        let ghost ms0 = *self;
        let ghost m0 = *memory;
        match self.find_area(start.floor()) {
            Some(idx) => {
                let ghost k = idx as int;
                let ghost a0 = ms0.views()[k];
                assert(self.areas@[k]@ == a0);
                let end: VirtPageNum = new_end.ceil();
                assert forall|v: int| end.0 <= v < a0.end implies pte_valid(
                    #[trigger] leaf(memory@, self.page_table.root(), v),
                ) by {
                    assert(pte_valid(leaf(m0@, ms0.root(), v)));
                }
                self.areas[idx].shrink_to(&mut self.page_table, end, memory);
                let ghost a1 = self.areas@[k]@;
                proof {
                    assert(self.views() =~= ms0.views().update(k, a1));
                    lemma_unmapped_in(
                        ms0,
                        *self,
                        k,
                        (AreaView { end: end.0 as int, ..a0 }),
                        a1,
                        end.0 as int,
                        a0.end,
                        m0,
                        *memory,
                    );
                }
                true
            },
            None => false,
        }
    }

    /// Lets the first area that starts at the page of `start` end at `new_end`, which is not before
    /// its end. Returns whether there is such an area.
    pub fn append_to(&mut self, start: VirtAddr, new_end: VirtAddr, memory: &mut Memory) -> (r: bool)
        requires
            old(self).wf(old(memory)),
            ({
                let k = area_at(old(self).views(), start.0 as int / 4096);
                let end = (new_end.0 + 4095) / 4096;
                k < old(self).views().len() ==> can_append(old(self), k, end, old(memory))
            }),
        ensures
            final(self).wf(final(memory)),
            ({
                let k = area_at(old(self).views(), start.0 as int / 4096);
                let end = (new_end.0 + 4095) / 4096;
                &&& r == (k < old(self).views().len())
                &&& r ==> appended(old(self), final(self), k, end, old(memory), final(memory))
                &&& !r ==> {
                    &&& final(self).views() == old(self).views()
                    &&& final(self).page_table == old(self).page_table
                    &&& *final(memory) == *old(memory)
                }
            }),
    {
        let ghost ms0 = *self;
        let ghost m0 = *memory;
        match self.find_area(start.floor()) {
            Some(idx) => {
                let ghost k = idx as int;
                let ghost a0 = ms0.views()[k];
                assert(self.areas@[k]@ == a0);
                let end: VirtPageNum = new_end.ceil();
                self.areas[idx].append_to(&mut self.page_table, end, memory);
                let ghost a1 = self.areas@[k]@;
                proof {
                    assert(self.views() =~= ms0.views().update(k, a1));
                    lemma_appended_in(ms0, *self, k, a1, end.0 as int, m0, *memory);
                }
                true
            },
            None => false,
        }
    }

    /// The area that maps page `vpn`, if there is one.
    fn find_owner(&self, vpn: VirtPageNum) -> (r: Option<usize>)
        requires
            forall|j: int| 0 <= j < self.views().len() ==> (#[trigger] self.views()[j]).wf(),
        ensures
            self.areas@.len() == self.views().len(),
            match r {
                Some(k) => {
                    &&& k < self.views().len()
                    &&& self.views()[k as int].maps(vpn.0 as int)
                    &&& self.views()[k as int].framed || forall|j: int|
                        0 <= j < self.views().len() ==> !(
                        #[trigger] self.views()[j]).frames.dom().contains(vpn.0 as int)
                },
                None => forall|j: int|
                    0 <= j < self.views().len() ==> !(#[trigger] self.views()[j]).maps(
                        vpn.0 as int,
                    ),
            },
    {
        let ghost v = vpn.0 as int;
        let mut k: usize = 0;
        while k < self.areas.len()
            invariant
                k <= self.areas@.len(),
                v == vpn.0,
                forall|j: int| 0 <= j < self.views().len() ==> (#[trigger] self.views()[j]).wf(),
                forall|j: int|
                    0 <= j < k ==> {
                        let a = #[trigger] self.views()[j];
                        !(a.framed && a.frames.dom().contains(v))
                    },
            decreases self.areas@.len() - k,
        {
            assert(self.views()[k as int] == self.areas@[k as int]@);
            if self.areas[k].is_framed() && self.areas[k].has_frame(vpn) {
                return Some(k);
            }
            k += 1;
        }
        let mut k: usize = 0;
        while k < self.areas.len()
            invariant
                k <= self.areas@.len(),
                v == vpn.0,
                forall|j: int| 0 <= j < self.views().len() ==> (#[trigger] self.views()[j]).wf(),
                forall|j: int|
                    0 <= j < self.views().len() ==> {
                        let a = #[trigger] self.views()[j];
                        !(a.framed && a.frames.dom().contains(v))
                    },
                forall|j: int| 0 <= j < k ==> !(#[trigger] self.views()[j]).maps(v),
            decreases self.areas@.len() - k,
        {
            assert(self.views()[k as int] == self.areas@[k as int]@);
            let area: &MapArea = &self.areas[k];
            if !area.is_framed() && area.get_start().0 <= vpn.0 && vpn.0 < area.get_end().0 {
                return Some(k);
            }
            k += 1;
        }
        None
    }

    /// Unmaps the pages of `[start, start + len)`, one after the other, and gives back their frames.
    /// Returns -1 at the first page that is not mapped by one of the areas; the pages before it are
    /// unmapped then.
    pub fn munmap(&mut self, start: u64, len: u64, memory: &mut Memory) -> (r: i64)
        requires
            old(self).wf(old(memory)),
            start + len <= u64::MAX,
            va_of(start) / 4096 <= (va_of((start + len) as u64) + 4095) / 4096,
        ensures
            final(self).wf(final(memory)),
            ({
                let from = va_of(start) / 4096;
                let to = (va_of((start + len) as u64) + 4095) / 4096;
                let stop = first_unheld(old(self), old(memory), from, to);
                &&& r == (if stop == to {
                    0int
                } else {
                    -1
                })
                &&& final(self).views() == without_pages(old(self).views(), from, stop)
                &&& lost_pages(old(self), final(self), from, stop, old(memory), final(memory))
            }),
    {
        let ghost ms0 = *self;
        let ghost m0 = *memory;
        let ghost views0 = self.views();
        let ghost root = self.root();
        let start_va: VirtAddr = VirtAddr::new(start);
        let end_va: VirtAddr = VirtAddr::new(start + len);
        let from: VirtPageNum = start_va.floor();
        let to: VirtPageNum = end_va.ceil();
        let ghost f = from.0 as int;
        proof {
            assert(self.views() =~= without_pages(views0, f, f)) by {
                assert forall|j: int| 0 <= j < views0.len() implies views0[j] == #[trigger] without_pages(
                    views0,
                    f,
                    f,
                )[j] by {
                    assert(views0[j].frames.remove_keys(pages(f, f)) =~= views0[j].frames);
                }
            }
            assert(gave(memory.free(), memory.free(), self.owned(), self.owned())) by {
                assert(memory.free() =~= memory.free().union(
                    self.owned().difference(self.owned()),
                ));
            }
        }
        let mut vpn: u64 = from.0;
        while vpn < to.0
            invariant
                from.0 <= vpn <= to.0 <= VPN_COUNT,
                f == from.0,
                ms0 == *old(self),
                m0 == *old(memory),
                views0 == ms0.views(),
                root == ms0.root(),
                f == va_of(start) / 4096,
                to.0 == (va_of((start + len) as u64) + 4095) / 4096,
                ms0.wf(&m0),
                self.wf(memory),
                self.views() == without_pages(views0, f, vpn as int),
                lost_pages(&ms0, self, f, vpn as int, &m0, memory),
                first_unheld(&ms0, &m0, f, to.0 as int) == first_unheld(
                    &ms0,
                    &m0,
                    vpn as int,
                    to.0 as int,
                ),
            decreases to.0 - vpn,
        {
            let ghost v0 = vpn as int;
            let ghost ms1 = *self;
            let ghost m1 = *memory;
            let ghost views1 = self.views();
            proof {
                self.page_table.lemma_walkable(memory);
                assert(leaf(m1@, root, v0) == leaf(m0@, root, v0));
                assert forall|j: int| 0 <= j < views0.len() implies (#[trigger] views1[j]).maps(v0)
                    == views0[j].maps(v0) by {}
            }
            let owner: Option<usize> = self.find_owner(VirtPageNum(vpn));
            let k: usize = match owner {
                Some(k) => k,
                None => {
                    proof {
                        assert forall|j: int| 0 <= j < views0.len() implies !(
                        #[trigger] views0[j]).maps(v0) by {
                            assert(!views1[j].maps(v0));
                        }
                    }
                    return -1;
                },
            };
            let pte: Option<PageTableEntry> = self.page_table.translate(VirtPageNum(vpn), memory);
            let valid: bool = match pte {
                Some(pte) => pte.is_valid(),
                None => false,
            };
            if !valid {
                return -1;
            }
            let ghost a0 = views1[k as int];
            proof {
                assert(views0[k as int].maps(v0));
                assert(held(&ms0, &m0, v0));
                assert(self.areas@[k as int]@ == a0);
                assert(area_ok(a0, &self.page_table, memory));
                lemma_sole_owner(ms1, k as int, v0, m1);
            }
            self.areas[k].unmap_one(&mut self.page_table, VirtPageNum(vpn), memory);
            proof {
                let a1 = self.areas@[k as int]@;
                assert(self.views() =~= views1.update(k as int, a1));
                lemma_one_unmapped(
                    a0,
                    a1,
                    v0,
                    ms1.page_table,
                    self.page_table,
                    m1,
                    *memory,
                );
                lemma_unmapped_in(ms1, *self, k as int, a0, a1, v0, v0 + 1, m1, *memory);
                lemma_lost_on(ms0, ms1, *self, f, v0, m0, m1, *memory);
                assert(self.views() =~= without_pages(views0, f, v0 + 1)) by {
                    assert forall|j: int| 0 <= j < views0.len() implies self.views()[j]
                        == #[trigger] without_pages(views0, f, v0 + 1)[j] by {
                        assert(views1[j] == without_pages(views0, f, v0)[j]);
                        assert(self.views()[j].frames =~= views0[j].frames.remove_keys(
                            pages(f, v0 + 1),
                        ));
                    }
                }
            }
            vpn += 1;
        }
        0
    }
}

/// Page `v` is mapped, and one of the areas maps it.
pub open spec fn held(ms: &MemorySet, memory: &Memory, v: int) -> bool {
    &&& pte_valid(leaf(memory@, ms.root(), v))
    &&& exists|k: int| 0 <= k < ms.views().len() && (#[trigger] ms.views()[k]).maps(v)
}

/// The first page from `from` on that is not mapped by one of the areas, or `to`.
pub open spec fn first_unheld(ms: &MemorySet, memory: &Memory, from: int, to: int) -> int
    decreases to - from,
{
    if from >= to || !held(ms, memory, from) {
        from
    } else {
        first_unheld(ms, memory, from + 1, to)
    }
}

/// The areas without frames for the pages from `from` on, up to but without `to`.
pub open spec fn without_pages(views: Seq<AreaView>, from: int, to: int) -> Seq<AreaView> {
    Seq::new(
        views.len(),
        |k: int|
            AreaView { frames: views[k].frames.remove_keys(pages(from, to)), ..views[k] },
    )
}

/// No area but the owner has a frame for a page.
proof fn lemma_sole_owner(ms: MemorySet, k: int, v: int, m: Memory)
    requires
        ms.wf(&m),
        0 <= k < ms.views().len(),
        0 <= v < VPN_COUNT,
        pte_valid(leaf(m@, ms.root(), v)),
        ms.views()[k].maps(v),
        ms.views()[k].framed || forall|j: int|
            0 <= j < ms.views().len() ==> !(#[trigger] ms.views()[j]).frames.dom().contains(v),
    ensures
        can_unmap(&ms, k, v, v + 1, &m),
{
    let views = ms.views();
    assert forall|j: int, w: int|
        0 <= j < views.len() && j != k && v <= w < v + 1 implies !#[trigger] views[j].frames.dom().contains(
        w,
    ) by {
        if views[k].framed && views[j].frames.dom().contains(v) {
            let a = views[k];
            let b = views[j];
            assert(area_ok(a, &ms.page_table, &m));
            assert(area_ok(b, &ms.page_table, &m));
            lemma_valid_frames(a, &ms.page_table, &m);
            lemma_valid_frames(b, &ms.page_table, &m);
            assert(a.frames[v] == b.frames[v]);
            assert(a.owned().contains(a.frames[v]));
            assert(b.owned().contains(a.frames[v]));
            assert(views[k].owned().contains(a.frames[v]) && views[j].owned().contains(
                a.frames[v],
            ));
        }
    }
}

/// Unmapping one page is unmapping a range of one page.
proof fn lemma_one_unmapped(
    a0: AreaView,
    a1: AreaView,
    v0: int,
    pt: PageTable,
    pt2: PageTable,
    m: Memory,
    m2: Memory,
)
    requires
        pt2.root() == pt.root(),
        pt2.tables() == pt.tables(),
        m2.limit() == m.limit(),
        m2@.dom() == m@.dom(),
        a1 == (AreaView { frames: a0.frames.remove(v0), ..a0 }),
        m2.free() == (if a0.frames.dom().contains(v0) {
            m.free().insert(a0.frames[v0])
        } else {
            m.free()
        }),
        shape(m2@, pt.root()) == shape(m@, pt.root()),
        leaf(m2@, pt.root(), v0) == 0,
        forall|v: int|
            0 <= v < VPN_COUNT && v != v0 ==> #[trigger] leaf(m2@, pt.root(), v) == leaf(
                m@,
                pt.root(),
                v,
            ),
        forall|q: int| !pt2.tables().contains(q) ==> #[trigger] m2@[q] == m@[q],
    ensures
        unmapped(a0, a1, v0, v0 + 1, &pt, &pt2, &m, &m2),
{
    assert(a1.frames =~= a0.frames.remove_keys(pages(v0, v0 + 1)));
    assert forall|p: int| #[trigger] m2.free().contains(p) == (m.free().contains(p) || given_back(
        a0,
        v0,
        v0 + 1,
        p,
    )) by {
        if a0.frames.dom().contains(v0) && a0.frames[v0] == p {
            assert(given_back(a0, v0, v0 + 1, p));
        }
    }
}

/// Losing pages in two steps.
proof fn lemma_lost_on(
    ms0: MemorySet,
    ms1: MemorySet,
    ms2: MemorySet,
    from: int,
    v0: int,
    m0: Memory,
    m1: Memory,
    m2: Memory,
)
    requires
        from <= v0,
        lost_pages(&ms0, &ms1, from, v0, &m0, &m1),
        lost_pages(&ms1, &ms2, v0, v0 + 1, &m1, &m2),
    ensures
        lost_pages(&ms0, &ms2, from, v0 + 1, &m0, &m2),
{
    assert(m2.free() =~= m0.free().union(ms0.owned().difference(ms2.owned())));
    assert forall|v: int| 0 <= v < VPN_COUNT implies #[trigger] leaf(m2@, ms0.root(), v) == (
    if from <= v < v0 + 1 {
        0
    } else {
        leaf(m0@, ms0.root(), v)
    }) by {
        assert(leaf(m1@, ms0.root(), v) == (if from <= v < v0 {
            0
        } else {
            leaf(m0@, ms0.root(), v)
        }));
        assert(leaf(m2@, ms1.root(), v) == (if v0 <= v < v0 + 1 {
            0
        } else {
            leaf(m1@, ms1.root(), v)
        }));
    }
    assert forall|q: int| !ms2.page_table.tables().contains(q) implies #[trigger] m2@[q]
        == m0@[q] by {
        assert(m2@[q] == m1@[q]);
    }
}

/// The first area that starts at page `start`, or the number of areas if there is none.
pub open spec fn area_at(views: Seq<AreaView>, start: int) -> int
    decreases views.len(),
{
    if views.len() == 0 || views[0].start == start {
        0
    } else {
        1 + area_at(views.drop_first(), start)
    }
}

/// What `area_at` finds.
pub proof fn lemma_area_at(views: Seq<AreaView>, start: int, k: int)
    requires
        0 <= k <= views.len(),
        forall|j: int| 0 <= j < k ==> (#[trigger] views[j]).start != start,
        k == views.len() || views[k].start == start,
    ensures
        area_at(views, start) == k,
    decreases k,
{
    if k > 0 {
        assert(views[0].start != start);
        let t = views.drop_first();
        assert forall|j: int| 0 <= j < k - 1 implies (#[trigger] t[j]).start != start by {
            assert(t[j] == views[j + 1]);
        }
        lemma_area_at(t, start, k - 1);
    }
}

/// Frames were given back: what is no longer owned is free.
pub open spec fn gave(free: Set<int>, free2: Set<int>, owned: Set<int>, owned2: Set<int>) -> bool {
    &&& owned2.subset_of(owned)
    &&& free2 == free.union(owned.difference(owned2))
}

/// The pages from `from` on, up to but without `to`, are mapped, and no area but area `k` has frames
/// for them.
pub open spec fn can_unmap(ms: &MemorySet, k: int, from: int, to: int, memory: &Memory) -> bool {
    &&& forall|v: int| from <= v < to ==> pte_valid(#[trigger] leaf(memory@, ms.root(), v))
    &&& forall|j: int, v: int|
        0 <= j < ms.views().len() && j != k && from <= v < to
            ==> !#[trigger] ms.views()[j].frames.dom().contains(v)
}

/// The pages from `from` on, up to but without `to`, were unmapped and their frames given back;
/// nothing else that was there has changed.
pub open spec fn lost_pages(
    ms: &MemorySet,
    ms2: &MemorySet,
    from: int,
    to: int,
    memory: &Memory,
    memory2: &Memory,
) -> bool {
    &&& ms2.root() == ms.root()
    &&& ms2.page_table.tables() == ms.page_table.tables()
    &&& memory2.limit() == memory.limit()
    &&& memory2@.dom() == memory@.dom()
    &&& gave(memory.free(), memory2.free(), ms.owned(), ms2.owned())
    &&& ms2.shape(memory2) == ms.shape(memory)
    &&& forall|v: int|
        0 <= v < VPN_COUNT ==> #[trigger] leaf(memory2@, ms.root(), v) == (if from <= v < to {
            0
        } else {
            leaf(memory@, ms.root(), v)
        })
    &&& forall|q: int|
        !ms2.page_table.tables().contains(q) ==> #[trigger] memory2@[q] == memory@[q]
}

/// Area `k` can be extended to end at page `end`.
pub open spec fn can_append(ms: &MemorySet, k: int, end: int, memory: &Memory) -> bool {
    let a = ms.views()[k];
    &&& a.end <= end <= VPN_COUNT
    &&& forall|v: int| a.end <= v < end ==> !pte_valid(#[trigger] leaf(memory@, ms.root(), v))
    &&& ms.shape(memory).cost(a.framed, a.end, end) <= memory.free().len()
}

/// Area `k` was extended to end at page `end`; nothing else that was there has changed.
pub open spec fn appended(
    ms: &MemorySet,
    ms2: &MemorySet,
    k: int,
    end: int,
    memory: &Memory,
    memory2: &Memory,
) -> bool {
    let a = ms.views()[k];
    let a2 = ms2.views()[k];
    &&& ms2.root() == ms.root()
    &&& memory2.limit() == memory.limit()
    &&& memory2@.dom() == memory@.dom()
    // the areas
    &&& ms2.views() == ms.views().update(k, a2)
    &&& a2 == (AreaView { end, frames: a2.frames, ..a })
    &&& a.framed ==> a2.frames.dom() == a.frames.dom().union(pages(a.end, end))
    &&& forall|v: int| #[trigger] a.frames.dom().contains(v) ==> a2.frames[v] == a.frames[v]
    &&& a.framed ==> forall|v: int|
        a.end <= v < end ==> memory.free().contains(#[trigger] a2.frames[v])
            && memory2@[a2.frames[v]] == zero_page()
    // the frames
    &&& took(memory.free(), memory2.free(), ms.owned(), ms2.owned())
    &&& memory2.free().len() == memory.free().len() - ms.shape(memory).cost(a.framed, a.end, end)
    // the mapping
    &&& ms2.shape(memory2) == ms.shape(memory).with_pages_upto(a.end, end)
    &&& forall|v: int|
        a.end <= v < end ==> #[trigger] leaf(memory2@, ms.root(), v) == pte_of(
            a2.target(v),
            in_use(a.perm as int),
        )
    &&& forall|v: int|
        0 <= v < VPN_COUNT && !(a.end <= v < end) ==> #[trigger] leaf(memory2@, ms.root(), v)
            == leaf(memory@, ms.root(), v)
    // the pages that were there, and those of others
    &&& forall|q: int|
        !ms2.page_table.tables().contains(q) && !(memory.free().contains(q)
            && !memory2.free().contains(q)) ==> #[trigger] memory2@[q] == memory@[q]
}

/// Unmapping pages of area `k` keeps the address space in order. `a0` is the area before, but with
/// the bounds that it has afterwards.
proof fn lemma_unmapped_in(
    ms: MemorySet,
    ms2: MemorySet,
    k: int,
    a0: AreaView,
    a1: AreaView,
    from: int,
    to: int,
    m: Memory,
    m2: Memory,
)
    requires
        ms.wf(&m),
        0 <= k < ms.views().len(),
        can_unmap(&ms, k, from, to, &m),
        a0 == (AreaView { end: a0.end, ..ms.views()[k] }),
        ms2.page_table.wf(&m2),
        area_ok(a1, &ms2.page_table, &m2),
        ms2.views() == ms.views().update(k, a1),
        unmapped(a0, a1, from, to, &ms.page_table, &ms2.page_table, &m, &m2),
    ensures
        ms2.wf(&m2),
        lost_pages(&ms, &ms2, from, to, &m, &m2),
{
    let views = ms.views();
    let views2 = ms2.views();
    let a = views[k];
    assert(area_ok(a, &ms.page_table, &m));
    assert forall|j: int| 0 <= j < views2.len() implies area_ok(
        #[trigger] views2[j],
        &ms2.page_table,
        &m2,
    ) by {
        if j != k {
            let b = views[j];
            assert(views2[j] == b);
            assert(area_ok(b, &ms.page_table, &m));
            assert forall|v: int| #[trigger] b.frames.dom().contains(v) implies leaf(
                m2@,
                ms.root(),
                v,
            ) == leaf(m@, ms.root(), v) && !m2.free().contains(b.frames[v]) by {
                assert(frame_ok(b, v, &ms.page_table, &m));
                assert(!(from <= v < to));
                let p = b.frames[v];
                assert(b.owned().contains(p));
                if given_back(a0, from, to, p) {
                    let w = choose|w: int|
                        from <= w < to && a0.frames.dom().contains(w) && #[trigger] a0.frames[w]
                            == p;
                    assert(a.owned().contains(p));
                    assert(views[j].owned().contains(p) && views[k].owned().contains(p));
                }
            }
            lemma_area_kept(b, ms.page_table, ms2.page_table, m, m2);
        }
    }
    assert forall|p: int| #[trigger] a1.owned().contains(p) implies a.owned().contains(p) by {
        let v = choose|v: int| a1.frames.dom().contains(v) && a1.frames[v] == p;
        assert(a.frames.dom().contains(v) && a.frames[v] == p);
    }
    assert(apart(views2)) by {
        assert forall|i: int, j: int, p: int|
            0 <= i < views2.len() && 0 <= j < views2.len() && (
            #[trigger] views2[i]).owned().contains(p) && #[trigger] views2[j].owned().contains(
                p,
            ) implies i == j by {
            assert(views[i].owned().contains(p));
            assert(views[j].owned().contains(p));
        }
    }
    assert forall|p: int| #[trigger] ms2.owned().contains(p) implies ms.owned().contains(p) by {
        if in_areas(views2, p) {
            let j = choose|j: int|
                0 <= j < views2.len() && (#[trigger] views2[j]).owned().contains(p);
            assert(views[j].owned().contains(p));
        }
    }
    assert forall|p: int| #[trigger] m2.free().contains(p) == (m.free().contains(p)
        || ms.owned().contains(p) && !ms2.owned().contains(p)) by {
        ms.lemma_wf(&m);
        ms2.lemma_wf(&m2);
        if given_back(a0, from, to, p) {
            let w = choose|w: int|
                from <= w < to && a0.frames.dom().contains(w) && #[trigger] a0.frames[w] == p;
            assert(a.frames.dom().contains(w) && a.frames[w] == p);
            assert(views[k].owned().contains(p));
            assert(ms.owned().contains(p));
        }
        if ms.owned().contains(p) && !ms2.owned().contains(p) {
            let j = choose|j: int| 0 <= j < views.len() && (#[trigger] views[j]).owned().contains(p);
            if j != k {
                assert(views2[j].owned().contains(p));
            } else {
                let v = choose|v: int| a.frames.dom().contains(v) && a.frames[v] == p;
                if !(from <= v < to) {
                    assert(a1.frames.dom().contains(v) && a1.frames[v] == p);
                    assert(views2[k].owned().contains(p));
                }
                assert(a0.frames.dom().contains(v) && a0.frames[v] == p);
                assert(given_back(a0, from, to, p));
            }
        }
    }
    assert(m2.free() =~= m.free().union(ms.owned().difference(ms2.owned())));
}

/// An area without frames can be left out.
proof fn lemma_remove_empty(ms: MemorySet, ms2: MemorySet, k: int, m: Memory)
    requires
        ms.wf(&m),
        0 <= k < ms.views().len(),
        ms.views()[k].frames == Map::<int, int>::empty(),
        ms2.page_table == ms.page_table,
        ms2.views() == ms.views().remove(k),
    ensures
        ms2.wf(&m),
        ms2.owned() == ms.owned(),
{
    let views = ms.views();
    let views2 = ms2.views();
    assert forall|j: int| 0 <= j < views2.len() implies #[trigger] views2[j] == views[if j < k {
        j
    } else {
        j + 1
    }] by {}
    assert forall|j: int| 0 <= j < views2.len() implies area_ok(
        #[trigger] views2[j],
        &ms2.page_table,
        &m,
    ) by {
        let i = if j < k {
            j
        } else {
            j + 1
        };
        assert(area_ok(views[i], &ms.page_table, &m));
    }
    assert(apart(views2)) by {
        assert forall|i: int, j: int, p: int|
            0 <= i < views2.len() && 0 <= j < views2.len() && (
            #[trigger] views2[i]).owned().contains(p) && #[trigger] views2[j].owned().contains(
                p,
            ) implies i == j by {
            let x = if i < k {
                i
            } else {
                i + 1
            };
            let y = if j < k {
                j
            } else {
                j + 1
            };
            assert(views[x].owned().contains(p) && views[y].owned().contains(p));
        }
    }
    assert forall|p: int| in_areas(views2, p) == in_areas(views, p) by {
        if in_areas(views2, p) {
            let j = choose|j: int|
                0 <= j < views2.len() && (#[trigger] views2[j]).owned().contains(p);
            let i = if j < k {
                j
            } else {
                j + 1
            };
            assert(views[i].owned().contains(p));
        }
        if in_areas(views, p) {
            let i = choose|i: int| 0 <= i < views.len() && (#[trigger] views[i]).owned().contains(p);
            let j = if i < k {
                i
            } else {
                i - 1
            };
            assert(i != k);
            assert(views2[j].owned().contains(p));
        }
    }
    assert(ms2.owned() =~= ms.owned());
}

/// The last area is left out and its frames are given back.
proof fn lemma_last_released(ms: MemorySet, ms2: MemorySet, a: AreaView, m: Memory, m2: Memory)
    requires
        ms.wf(&m),
        ms.views().len() > 0,
        a == ms.views().last(),
        ms2.page_table == ms.page_table,
        ms2.views() == ms.views().drop_last(),
        m2.wf(),
        m2.limit() == m.limit(),
        m2@ == m@,
        m2.free() == m.free().union(a.owned()),
    ensures
        ms2.wf(&m2),
        forall|p: int| #[trigger]
            ms.owned().contains(p) == (ms2.owned().contains(p) || a.owned().contains(p)),
        forall|p: int| #[trigger] a.owned().contains(p) ==> !ms2.owned().contains(p),
{
    let views = ms.views();
    let views2 = ms2.views();
    let n = views.len() - 1;
    assert(area_ok(views[n], &ms.page_table, &m));
    assert forall|p: int| #[trigger] a.owned().contains(p) implies !ms2.owned().contains(p) by {
        let v = choose|v: int| a.frames.dom().contains(v) && a.frames[v] == p;
        assert(frame_ok(a, v, &ms.page_table, &m));
        if in_areas(views2, p) {
            let j = choose|j: int|
                0 <= j < views2.len() && (#[trigger] views2[j]).owned().contains(p);
            assert(views[j].owned().contains(p) && views[n].owned().contains(p));
        }
    }
    assert forall|j: int| 0 <= j < views2.len() implies area_ok(
        #[trigger] views2[j],
        &ms2.page_table,
        &m2,
    ) by {
        let b = views[j];
        assert(views2[j] == b);
        assert(area_ok(b, &ms.page_table, &m));
        assert forall|v: int| #[trigger] b.frames.dom().contains(v) implies !m2.free().contains(
            b.frames[v],
        ) by {
            assert(frame_ok(b, v, &ms.page_table, &m));
            assert(b.owned().contains(b.frames[v]));
            assert(views2[j].owned().contains(b.frames[v]));
        }
        lemma_area_kept(b, ms.page_table, ms2.page_table, m, m2);
    }
    assert(apart(views2)) by {
        assert forall|i: int, j: int, p: int|
            0 <= i < views2.len() && 0 <= j < views2.len() && (
            #[trigger] views2[i]).owned().contains(p) && #[trigger] views2[j].owned().contains(
                p,
            ) implies i == j by {
            assert(views[i].owned().contains(p) && views[j].owned().contains(p));
        }
    }
    assert forall|p: int| #[trigger] ms.owned().contains(p) == (ms2.owned().contains(p)
        || a.owned().contains(p)) by {
        if in_areas(views, p) {
            let j = choose|j: int| 0 <= j < views.len() && (#[trigger] views[j]).owned().contains(p);
            if j < n {
                assert(views2[j].owned().contains(p));
            }
        }
        if in_areas(views2, p) {
            let j = choose|j: int|
                0 <= j < views2.len() && (#[trigger] views2[j]).owned().contains(p);
            assert(views[j].owned().contains(p));
        }
        if a.owned().contains(p) {
            assert(views[n].owned().contains(p));
        }
    }
}

/// Extending area `k` keeps the address space in order.
proof fn lemma_appended_in(
    ms: MemorySet,
    ms2: MemorySet,
    k: int,
    a1: AreaView,
    end: int,
    m: Memory,
    m2: Memory,
)
    requires
        ms.wf(&m),
        0 <= k < ms.views().len(),
        can_append(&ms, k, end, &m),
        ms2.page_table.wf(&m2),
        area_ok(a1, &ms2.page_table, &m2),
        ms2.views() == ms.views().update(k, a1),
        mapped_more(
            (AreaView { end, ..ms.views()[k] }),
            a1,
            ms.views()[k].end,
            end,
            &ms.page_table,
            &ms2.page_table,
            &m,
            &m2,
        ),
    ensures
        ms2.wf(&m2),
        appended(&ms, &ms2, k, end, &m, &m2),
{
    let views = ms.views();
    let views2 = ms2.views();
    let a = views[k];
    let a0 = AreaView { end, ..a };
    let h0 = holdings(a0, &ms.page_table);
    let h1 = holdings(a1, &ms2.page_table);
    assert(area_ok(a, &ms.page_table, &m));
    assert forall|p: int| #[trigger] a1.owned().contains(p) implies a.owned().contains(p)
        || m.free().contains(p) by {
        let v = choose|v: int| a1.frames.dom().contains(v) && a1.frames[v] == p;
        if a.frames.dom().contains(v) {
            assert(a.frames[v] == p);
        } else {
            assert(m.free().contains(a1.frames[v]));
        }
    }
    assert forall|p: int| #[trigger] a.owned().contains(p) implies a1.owned().contains(p) by {
        let v = choose|v: int| a.frames.dom().contains(v) && a.frames[v] == p;
        assert(a0.frames.dom().contains(v));
        assert(a1.frames.dom().contains(v) && a1.frames[v] == p);
    }
    assert forall|p: int| #[trigger] ms2.page_table.tables().contains(p) implies
        ms.page_table.tables().contains(p) || m.free().contains(p) by {
        assert(h1.contains(p));
        if a.owned().contains(p) {
            let v = choose|v: int| a.frames.dom().contains(v) && a.frames[v] == p;
            assert(a0.frames.dom().contains(v));
            assert(a1.frames.dom().contains(v) && a1.frames[v] == p);
            assert(frame_ok(a1, v, &ms2.page_table, &m2));
        }
    }
    assert forall|j: int| 0 <= j < views2.len() implies area_ok(
        #[trigger] views2[j],
        &ms2.page_table,
        &m2,
    ) by {
        if j != k {
            let b = views[j];
            assert(views2[j] == b);
            assert(area_ok(b, &ms.page_table, &m));
            lemma_valid_frames(b, &ms.page_table, &m);
            assert forall|v: int| #[trigger] b.frames.dom().contains(v) implies leaf(
                m2@,
                ms.root(),
                v,
            ) == leaf(m@, ms.root(), v) && !m2.free().contains(b.frames[v]) by {
                assert(frame_ok(b, v, &ms.page_table, &m));
                assert(!(a.end <= v < end));
            }
            lemma_area_kept(b, ms.page_table, ms2.page_table, m, m2);
        }
    }
    assert forall|j: int, p: int|
        0 <= j < views.len() && (#[trigger] views[j]).owned().contains(p)
            implies !#[trigger] m.free().contains(p) by {
        let b = views[j];
        let v = choose|v: int| b.frames.dom().contains(v) && b.frames[v] == p;
        assert(area_ok(b, &ms.page_table, &m));
        assert(frame_ok(b, v, &ms.page_table, &m));
    }
    assert(apart(views2)) by {
        assert forall|i: int, j: int, p: int|
            0 <= i < views2.len() && 0 <= j < views2.len() && (
            #[trigger] views2[i]).owned().contains(p) && #[trigger] views2[j].owned().contains(
                p,
            ) implies i == j by {
            if i != k {
                assert(views[i].owned().contains(p));
                assert(!m.free().contains(p));
            }
            if j != k {
                assert(views[j].owned().contains(p));
                assert(!m.free().contains(p));
            }
            assert(views[i].owned().contains(p) && views[j].owned().contains(p) || i == j);
        }
    }
    assert forall|p: int| #[trigger] ms2.owned().contains(p) == ms.owned().union(
        m.free().difference(m2.free()),
    ).contains(p) by {
        assert(h1.contains(p) == (h0.contains(p) || m.free().contains(p) && !m2.free().contains(
            p,
        )));
        if in_areas(views2, p) {
            let j = choose|j: int|
                0 <= j < views2.len() && (#[trigger] views2[j]).owned().contains(p);
            if j != k {
                assert(views[j].owned().contains(p));
            } else {
                assert(h1.contains(p));
                if a.owned().contains(p) {
                    assert(views[k].owned().contains(p));
                }
            }
        }
        if in_areas(views, p) {
            let j = choose|j: int| 0 <= j < views.len() && (#[trigger] views[j]).owned().contains(p);
            assert(views2[j].owned().contains(p));
        }
        if a1.owned().contains(p) {
            assert(views2[k].owned().contains(p));
        }
        if a0.owned().contains(p) {
            assert(views[k].owned().contains(p));
        }
    }
    assert(ms2.owned() =~= ms.owned().union(m.free().difference(m2.free())));
    if a.framed {
        assert(a1.frames.dom() =~= a.frames.dom().union(pages(a.end, end)));
    }
}

/// The page of the code that enters and leaves the kernel.
pub const TRAMPOLINE_VPN: u64 = 0x7ff_ffff;

/// The page of the saved registers of a program.
pub const TRAP_CONTEXT_VPN: u64 = 0x7ff_fffe;

/// The area that `map` adds.
pub open spec fn mmap_area(start: u64, len: u64, prot: u64) -> AreaView {
    area_of(
        va_of(start),
        va_of((start + len) as u64),
        true,
        (16 + 2 * (prot as int % 8)) as u8,
    )
}

/// The data, if there is any.
pub open spec fn data_of(data: Option<&[u8]>) -> Option<Seq<u8>> {
    match data {
        Some(d) => Some(d@),
        None => None,
    }
}

/// The area is fresh, its pages are not mapped, there are frames for them, and the data fits.
pub open spec fn can_push(
    ms: &MemorySet,
    area: AreaView,
    data: Option<Seq<u8>>,
    memory: &Memory,
) -> bool {
    &&& area.wf()
    &&& area.frames == Map::<int, int>::empty()
    &&& forall|v: int| area.start <= v < area.end ==> !pte_valid(#[trigger] leaf(memory@, ms.root(), v))
    &&& ms.shape(memory).cost(area.framed, area.start, area.end) <= memory.free().len()
    &&& data matches Some(d) ==> {
        &&& area.framed
        &&& area.start < VPN_COUNT
        &&& (d.len() + 4095) / 4096 <= area.end - area.start
        &&& d.len() + 4096 <= usize::MAX
        &&& area.start < area.end || table_of(memory@, ms.root(), area.start) is Some
    }
}

/// `area` was added with `data` in its pages; nothing else that was there has changed.
pub open spec fn pushed(
    ms: &MemorySet,
    ms2: &MemorySet,
    area: AreaView,
    data: Seq<u8>,
    memory: &Memory,
    memory2: &Memory,
) -> bool {
    let area2 = ms2.views().last();
    &&& ms2.root() == ms.root()
    &&& memory2.limit() == memory.limit()
    &&& memory2@.dom() == memory@.dom()
    // the areas
    &&& ms2.views() == ms.views().push(area2)
    &&& area2 == (AreaView { frames: area2.frames, ..area })
    &&& area.framed ==> area2.frames.dom() == pages(area.start, area.end)
    &&& area.framed ==> forall|v: int|
        area.start <= v < area.end ==> memory.free().contains(#[trigger] area2.frames[v])
            && memory2@[area2.frames[v]] == page_of(data, v - area.start)
    // the frames
    &&& took(memory.free(), memory2.free(), ms.owned(), ms2.owned())
    &&& memory2.free().len() == memory.free().len() - ms.shape(memory).cost(
        area.framed,
        area.start,
        area.end,
    )
    // the mapping
    &&& ms2.shape(memory2) == ms.shape(memory).with_pages_upto(area.start, area.end)
    &&& forall|v: int|
        area.start <= v < area.end ==> #[trigger] leaf(memory2@, ms2.root(), v) == pte_of(
            area2.target(v),
            in_use(area.perm as int),
        )
    &&& forall|v: int|
        0 <= v < VPN_COUNT && !(area.start <= v < area.end) ==> #[trigger] leaf(memory2@, ms2.root(), v)
            == leaf(memory@, ms.root(), v)
    // the pages of the other areas, and of others
    &&& forall|q: int|
        !ms2.page_table.tables().contains(q) && !area2.owned().contains(q)
            ==> #[trigger] memory2@[q] == memory@[q]
}

/// An area is as before where its pages and frames are as before.
pub proof fn lemma_area_kept(
    a: AreaView,
    pt: PageTable,
    pt2: PageTable,
    m: Memory,
    m2: Memory,
)
    requires
        area_ok(a, &pt, &m),
        pt2.root() == pt.root(),
        m2.limit() == m.limit(),
        m2@.dom() == m@.dom(),
        forall|p: int| #[trigger]
            pt2.tables().contains(p) ==> pt.tables().contains(p) || m.free().contains(p),
        forall|v: int| #[trigger]
            a.frames.dom().contains(v) ==> leaf(m2@, pt.root(), v) == leaf(m@, pt.root(), v),
        forall|v: int| #[trigger]
            a.frames.dom().contains(v) ==> !m2.free().contains(a.frames[v]),
    ensures
        area_ok(a, &pt2, &m2),
{
    assert forall|v: int| #[trigger] a.frames.dom().contains(v) implies frame_ok(
        a,
        v,
        &pt2,
        &m2,
    ) by {
        assert(frame_ok(a, v, &pt, &m));
    }
}

/// The other areas are as before when pages of one area are mapped.
proof fn lemma_others_kept(
    views: Seq<AreaView>,
    pt: PageTable,
    pt2: PageTable,
    a0: AreaView,
    a1: AreaView,
    m: Memory,
    m2: Memory,
)
    requires
        pt.wf(&m),
        pt2.wf(&m2),
        forall|k: int| 0 <= k < views.len() ==> area_ok(#[trigger] views[k], &pt, &m),
        a0.wf(),
        a0.frames == Map::<int, int>::empty(),
        area_ok(a1, &pt2, &m2),
        forall|v: int|
            a0.start <= v < a0.end ==> !pte_valid(#[trigger] leaf(m@, pt.root(), v)),
        mapped_more(a0, a1, a0.start, a0.end, &pt, &pt2, &m, &m2),
    ensures
        forall|k: int| 0 <= k < views.len() ==> area_ok(#[trigger] views[k], &pt2, &m2),
        forall|k: int, p: int|
            0 <= k < views.len() && (#[trigger] views[k]).owned().contains(p)
                ==> !#[trigger] a1.owned().contains(p) && m2@[p] == m@[p],
{
    assert forall|k: int| 0 <= k < views.len() implies area_ok(#[trigger] views[k], &pt2, &m2) by {
        let a = views[k];
        lemma_valid_frames(a, &pt, &m);
        assert forall|v: int| #[trigger] a.frames.dom().contains(v) implies leaf(m2@, pt.root(), v)
            == leaf(m@, pt.root(), v) && !m2.free().contains(a.frames[v]) by {
            assert(frame_ok(a, v, &pt, &m));
            assert(!(a0.start <= v < a0.end));
        }
        assert(a0.owned() =~= Set::empty());
        assert forall|p: int| #[trigger] pt2.tables().contains(p) implies pt.tables().contains(p)
            || m.free().contains(p) by {
            assert(holdings(a1, &pt2).contains(p));
        }
        lemma_area_kept(a, pt, pt2, m, m2);
    }
    assert forall|k: int, p: int|
        0 <= k < views.len() && (#[trigger] views[k]).owned().contains(p)
            implies !#[trigger] a1.owned().contains(p) && m2@[p] == m@[p] by {
        let a = views[k];
        let v = choose|v: int| a.frames.dom().contains(v) && a.frames[v] == p;
        assert(frame_ok(a, v, &pt, &m));
        assert(area_ok(a, &pt2, &m2));
        assert(frame_ok(a, v, &pt2, &m2));
        if a1.owned().contains(p) {
            let w = choose|w: int| a1.frames.dom().contains(w) && a1.frames[w] == p;
            assert(a0.start <= w < a0.end);
            assert(m.free().contains(a1.frames[w]));
        }
    }
}

/// The other areas are as before when data is copied into the pages of one area.
proof fn lemma_copy_kept(
    views: Seq<AreaView>,
    pt: PageTable,
    a1: AreaView,
    m: Memory,
    m2: Memory,
)
    requires
        forall|k: int| 0 <= k < views.len() ==> area_ok(#[trigger] views[k], &pt, &m),
        m2.free() == m.free(),
        m2.limit() == m.limit(),
        m2@.dom() == m@.dom(),
        forall|v: int|
            0 <= v < VPN_COUNT ==> #[trigger] leaf(m2@, pt.root(), v) == leaf(m@, pt.root(), v),
    ensures
        forall|k: int| 0 <= k < views.len() ==> area_ok(#[trigger] views[k], &pt, &m2),
{
    assert forall|k: int| 0 <= k < views.len() implies area_ok(#[trigger] views[k], &pt, &m2) by {
        let a = views[k];
        assert forall|v: int| #[trigger] a.frames.dom().contains(v) implies leaf(m2@, pt.root(), v)
            == leaf(m@, pt.root(), v) && !m2.free().contains(a.frames[v]) by {
            assert(frame_ok(a, v, &pt, &m));
        }
        lemma_area_kept(a, pt, pt, m, m2);
    }
}

/// Mapping the pages and copying the data adds the area.
proof fn lemma_pushed(
    ms: MemorySet,
    ms2: MemorySet,
    a0: AreaView,
    a1: AreaView,
    m0: Memory,
    m1: Memory,
    m2: Memory,
    data: Option<Seq<u8>>,
)
    requires
        ms.wf(&m0),
        can_push(&ms, a0, data, &m0),
        ms2.page_table.wf(&m2),
        area_ok(a1, &ms2.page_table, &m2),
        forall|k: int|
            0 <= k < ms.views().len() ==> area_ok(
                #[trigger] ms.views()[k],
                &ms2.page_table,
                &m2,
            ),
        forall|k: int, p: int|
            0 <= k < ms.views().len() && (#[trigger] ms.views()[k]).owned().contains(p)
                ==> !#[trigger] a1.owned().contains(p) && m1@[p] == m0@[p],
        ms2.views() == ms.views().push(a1),
        mapped_more(a0, a1, a0.start, a0.end, &ms.page_table, &ms2.page_table, &m0, &m1),
        m2.free() == m1.free(),
        m2.limit() == m1.limit(),
        m2@.dom() == m1@.dom(),
        shape(m2@, ms.root()) == shape(m1@, ms.root()),
        forall|v: int|
            0 <= v < VPN_COUNT ==> #[trigger] leaf(m2@, ms.root(), v) == leaf(m1@, ms.root(), v),
        match data {
            Some(d) => filled(a1, d, m1@, m2@),
            None => m2@ == m1@,
        },
    ensures
        ms2.wf(&m2),
        pushed(
            &ms,
            &ms2,
            a0,
            match data {
                Some(d) => d,
                None => Seq::empty(),
            },
            &m0,
            &m2,
        ),
{
    let views0 = ms.views();
    let views2 = ms2.views();
    let d = match data {
        Some(d) => d,
        None => Seq::empty(),
    };
    assert forall|k: int| 0 <= k < views2.len() implies area_ok(
        #[trigger] views2[k],
        &ms2.page_table,
        &m2,
    ) by {
        if k < views0.len() {
            assert(views2[k] == views0[k]);
        }
    }
    assert(apart(views2)) by {
        assert forall|j: int, k: int, p: int|
            0 <= j < views2.len() && 0 <= k < views2.len() && (
            #[trigger] views2[j]).owned().contains(p) && #[trigger] views2[k].owned().contains(
                p,
            ) implies j == k by {
            if j < views0.len() {
                assert(views2[j] == views0[j]);
            }
            if k < views0.len() {
                assert(views2[k] == views0[k]);
            }
        }
    }
    assert(a0.owned() =~= Set::empty());
    assert forall|p: int| #[trigger] ms2.owned().contains(p) == ms.owned().union(
        m0.free().difference(m2.free()),
    ).contains(p) by {
        let h0 = holdings(a0, &ms.page_table);
        let h1 = holdings(a1, &ms2.page_table);
        assert(h1.contains(p) == (h0.contains(p) || m0.free().contains(p) && !m1.free().contains(
            p,
        )));
        if in_areas(views2, p) {
            let k = choose|k: int|
                0 <= k < views2.len() && (#[trigger] views2[k]).owned().contains(p);
            if k < views0.len() {
                assert(views0[k].owned().contains(p));
            } else {
                assert(h1.contains(p));
            }
        }
        if in_areas(views0, p) {
            let k = choose|k: int|
                0 <= k < views0.len() && (#[trigger] views0[k]).owned().contains(p);
            assert(views2[k].owned().contains(p));
        }
        if a1.owned().contains(p) {
            assert(views2[views0.len() as int].owned().contains(p));
        }
    }
    assert(ms2.owned() =~= ms.owned().union(m0.free().difference(m2.free())));
    if a0.framed {
        assert(a1.frames.dom() =~= pages(a0.start, a0.end));
        assert forall|v: int| a0.start <= v < a0.end implies m0.free().contains(
            #[trigger] a1.frames[v],
        ) && m2@[a1.frames[v]] == page_of(d, v - a0.start) by {
            assert(a1.frames.dom().contains(v));
            assert(m1@[a1.frames[v]] == zero_page());
            lemma_page_of(d, v - a0.start);
            if data is None {
                assert(page_of(d, v - a0.start) =~= zero_page());
            }
        }
    }
    assert forall|q: int|
        !ms2.page_table.tables().contains(q) && !a1.owned().contains(q) implies #[trigger] m2@[q]
        == m0@[q] by {
        assert(m2@[q] == m1@[q]);
        let h1 = holdings(a1, &ms2.page_table);
        assert(!h1.contains(q));
        assert(m1@[q] == m0@[q]);
    }
}

} // verus!
