//! How an address space is built area by area: from nothing, for the kernel, or as a copy.

use vstd::prelude::*;

use super::address::{mid_index, top_index, PhysPageNum, VirtPageNum, VPN_COUNT};
use super::frame_allocator::Memory;
use super::map_area::{
    area_ok, frame_ok, lemma_same_shape, lemma_valid_frames, page_of, pages, AreaView, MapArea,
    Shape,
};
use super::memory_set::{data_of, in_areas, lemma_area_kept, pushed, MemorySet, TRAMPOLINE_VPN};
use super::page_table::{
    in_use, leaf, lemma_same_tree, pte_of, pte_valid, took, PageTableEntry,
};

verus! {

/// An area that is to be added to an address space, and what its pages are to hold, page by page.
pub struct Piece {
    pub area: AreaView,
    pub content: spec_fn(int) -> Seq<u8>,
}

/// The tables of an address space with the trampoline and nothing else.
pub open spec fn first_shape() -> Shape {
    Shape { mids: Set::empty(), lows: Set::empty() }.with_page(TRAMPOLINE_VPN as int)
}

/// The tables of an address space with the trampoline and these pieces.
pub open spec fn shape_of(pieces: Seq<Piece>) -> Shape
    decreases pieces.len(),
{
    if pieces.len() == 0 {
        first_shape()
    } else {
        shape_of(pieces.drop_last()).with_pages_upto(
            pieces.last().area.start,
            pieces.last().area.end,
        )
    }
}

/// How many frames an address space with the trampoline and these pieces takes.
pub open spec fn cost_of(pieces: Seq<Piece>) -> nat
    decreases pieces.len(),
{
    if pieces.len() == 0 {
        3
    } else {
        cost_of(pieces.drop_last()) + shape_of(pieces.drop_last()).cost(
            pieces.last().area.framed,
            pieces.last().area.start,
            pieces.last().area.end,
        )
    }
}

/// Page `v` belongs to the area.
pub open spec fn covers(area: AreaView, v: int) -> bool {
    area.start <= v < area.end
}

/// The address space has the trampoline and these pieces and nothing else. It was built from free
/// frames, and no page but its own has changed.
pub open spec fn built(
    ms: &MemorySet,
    pieces: Seq<Piece>,
    strampoline: u64,
    memory0: &Memory,
    memory: &Memory,
) -> bool {
    &&& ms.wf(memory)
    &&& memory.limit() == memory0.limit()
    &&& memory@.dom() == memory0@.dom()
    // the areas
    &&& ms.views().len() == pieces.len()
    &&& forall|k: int| 0 <= k < pieces.len() ==> piece_done(ms, pieces, k, memory)
    // the frames
    &&& took(memory0.free(), memory.free(), Set::empty(), ms.owned())
    &&& memory.free().len() == memory0.free().len() - cost_of(pieces)
    // the mapping
    &&& ms.shape(memory) == shape_of(pieces)
    &&& !covered(pieces, TRAMPOLINE_VPN as int)
    &&& leaf(memory@, ms.root(), TRAMPOLINE_VPN as int) == pte_of(strampoline as int / 4096, 11)
    &&& forall|v: int|
        0 <= v < VPN_COUNT && v != TRAMPOLINE_VPN && !covered(pieces, v) ==> #[trigger] leaf(
            memory@,
            ms.root(),
            v,
        ) == 0
    // the pages of others
    &&& forall|q: int| !ms.owned().contains(q) ==> #[trigger] memory@[q] == memory0@[q]
}

/// Page `v` belongs to one of the pieces.
pub open spec fn covered(pieces: Seq<Piece>, v: int) -> bool {
    exists|k: int| 0 <= k < pieces.len() && covers((#[trigger] pieces[k]).area, v)
}

/// Piece `k` is an area of the address space: its pages are mapped and hold what they are to hold.
pub open spec fn piece_done(
    ms: &MemorySet,
    pieces: Seq<Piece>,
    k: int,
    memory: &Memory,
) -> bool {
    let a = pieces[k].area;
    let a2 = ms.views()[k];
    &&& a2 == (AreaView { frames: a2.frames, ..a })
    &&& a.framed ==> a2.frames.dom() == pages(a.start, a.end)
    &&& a.framed ==> forall|v: int|
        a.start <= v < a.end ==> memory@[#[trigger] a2.frames[v]] == (pieces[k].content)(
            v - a.start,
        )
    &&& forall|v: int|
        a.start <= v < a.end ==> #[trigger] leaf(memory@, ms.root(), v) == pte_of(
            a2.target(v),
            in_use(a.perm as int),
        )
}

/// A piece with this data at its beginning, and zeros behind it.
pub open spec fn data_piece(area: AreaView, data: Seq<u8>) -> Piece {
    Piece { area, content: |i: int| page_of(data, i) }
}

/// Adding an area to what is built so far.
pub proof fn lemma_built_push(
    ms: MemorySet,
    ms2: MemorySet,
    pieces: Seq<Piece>,
    area: AreaView,
    data: Seq<u8>,
    strampoline: u64,
    m0: Memory,
    m: Memory,
    m2: Memory,
)
    requires
        built(&ms, pieces, strampoline, &m0, &m),
        m0.wf(),
        ms2.wf(&m2),
        area.wf(),
        forall|v: int| area.start <= v < area.end ==> !covered(pieces, v),
        !(area.start <= TRAMPOLINE_VPN < area.end),
        pushed(&ms, &ms2, area, data, &m, &m2),
    ensures
        built(&ms2, pieces.push(data_piece(area, data)), strampoline, &m0, &m2),
{
    let piece = data_piece(area, data);
    let pieces2 = pieces.push(piece);
    let n = pieces.len() as int;
    let root = ms.root();
    assert(pieces2.drop_last() =~= pieces);
    ms.lemma_wf(&m);
    ms2.lemma_wf(&m2);
    assert forall|k: int| 0 <= k < pieces2.len() implies piece_done(&ms2, pieces2, k, &m2) by {
        if k < n {
            assert(pieces2[k] == pieces[k]);
            assert(piece_done(&ms, pieces, k, &m));
            assert(ms2.views()[k] == ms.views()[k]);
            let a = pieces[k].area;
            let b = ms.views()[k];
            assert forall|v: int| a.start <= v < a.end implies #[trigger] leaf(m2@, root, v)
                == pte_of(b.target(v), in_use(a.perm as int)) by {
                assert(covered(pieces, v));
                assert(leaf(m2@, root, v) == leaf(m@, root, v));
            }
            if a.framed {
                assert forall|v: int| a.start <= v < a.end implies m2@[#[trigger] b.frames[v]] == (
                pieces[k].content)(v - a.start) by {
                    let p = b.frames[v];
                    assert(b.frames.dom().contains(v));
                    assert(b.owned().contains(p));
                    assert(ms2.views()[k].owned().contains(p));
                    assert(ms2.wf(&m2));
                    assert(area_ok(ms2.views()[k], &ms2.page_table, &m2));
                    assert(frame_ok(b, v, &ms2.page_table, &m2));
                    if ms2.views()[n].owned().contains(p) {
                        assert(ms2.views()[k].owned().contains(p)
                            && ms2.views()[n].owned().contains(p));
                    }
                    assert(m2@[p] == m@[p]);
                }
            }
        } else {
            let a2 = ms2.views()[n];
            if area.framed {
                assert forall|v: int| area.start <= v < area.end implies m2@[#[trigger] a2.frames[v]]
                    == (piece.content)(v - area.start) by {}
            }
        }
    }
    assert(took(m0.free(), m2.free(), Set::empty(), ms2.owned())) by {
        assert(ms2.owned() =~= Set::<int>::empty().union(m0.free().difference(m2.free())));
    }
    assert forall|v: int|
        0 <= v < VPN_COUNT && v != TRAMPOLINE_VPN && !covered(pieces2, v) implies #[trigger] leaf(
        m2@,
        root,
        v,
    ) == 0 by {
        if area.start <= v < area.end {
            assert(covers(pieces2[n].area, v));
        }
        if covered(pieces, v) {
            let k = choose|k: int| 0 <= k < pieces.len() && covers((#[trigger] pieces[k]).area, v);
            assert(covers(pieces2[k].area, v));
        }
        assert(leaf(m2@, root, v) == leaf(m@, root, v));
    }
    assert(leaf(m2@, root, TRAMPOLINE_VPN as int) == leaf(m@, root, TRAMPOLINE_VPN as int));
    assert(!covered(pieces2, TRAMPOLINE_VPN as int)) by {
        assert forall|k: int| 0 <= k < pieces2.len() implies !covers(
            (#[trigger] pieces2[k]).area,
            TRAMPOLINE_VPN as int,
        ) by {
            if k < n {
                assert(pieces2[k] == pieces[k]);
            }
        }
    }
    assert forall|q: int| !ms2.owned().contains(q) implies #[trigger] m2@[q] == m0@[q] by {
        assert(!ms.owned().contains(q));
        if ms2.views()[n].owned().contains(q) {
            assert(in_areas(ms2.views(), q));
        }
        assert(m2@[q] == m@[q]);
    }
}

/// The rest of what is built leaves room for each piece in its turn.
pub proof fn lemma_cost_grows(pieces: Seq<Piece>, n: int)
    requires
        0 <= n <= pieces.len(),
    ensures
        cost_of(pieces.take(n)) <= cost_of(pieces),
    decreases pieces.len() - n,
{
    if n < pieces.len() {
        lemma_cost_grows(pieces, n + 1);
        assert(pieces.take(n + 1).drop_last() =~= pieces.take(n));
    } else {
        assert(pieces.take(n) =~= pieces);
    }
}

impl MemorySet {
    /// An address space with the trampoline and nothing else.
    pub fn new_with_trampoline(strampoline: u64, memory: &mut Memory) -> (r: Self)
        requires
            old(memory).wf(),
            strampoline % 4096 == 0,
            strampoline < 0x100_0000_0000_0000,
            old(memory).free().len() >= 3,
        ensures
            built(&r, Seq::empty(), strampoline, old(memory), final(memory)),
    {
        let ghost m0 = *memory;
        let mut r: MemorySet = Self::new_bare(memory);
        let ghost m1 = *memory;
        let ghost r1 = r;
        proof {
            memory.lemma_wf();
            assert(r.shape(memory).missing(TRAMPOLINE_VPN as int) == 2);
        }
        r.map_trampoline(strampoline, memory);
        proof {
            assert(r.owned() =~= Set::<int>::empty().union(m0.free().difference(memory.free())));
            assert forall|q: int| !r.owned().contains(q) implies #[trigger] memory@[q]
                == m0@[q] by {
                assert(!r1.owned().contains(q));
                assert(memory@[q] == m1@[q]);
            }
        }
        r
    }

    /// Adds a piece to an address space that is being built.
    pub(crate) fn add_piece(
        &mut self,
        map_area: MapArea,
        data: Option<&[u8]>,
        memory: &mut Memory,
        Ghost(pieces): Ghost<Seq<Piece>>,
        Ghost(strampoline): Ghost<u64>,
        Ghost(memory0): Ghost<Memory>,
    )
        requires
            memory0.wf(),
            built(old(self), pieces, strampoline, &memory0, old(memory)),
            can_add(pieces, map_area@, data_of(data), memory0.free().len() as int),
        ensures
            built(
                final(self),
                pieces.push(
                    data_piece(
                        map_area@,
                        match data {
                            Some(d) => d@,
                            None => Seq::empty(),
                        },
                    ),
                ),
                strampoline,
                &memory0,
                final(memory),
            ),
            final(self).root() == old(self).root(),
    {
        let ghost a = map_area@;
        let ghost root = self.root();
        proof {
            assert forall|v: int| a.start <= v < a.end implies !pte_valid(
                #[trigger] leaf(memory@, root, v),
            ) by {
                assert(!covered(pieces, v));
            }
            if data is Some && a.start >= a.end {
                assert(shape_of(pieces).lows.contains((top_index(a.start), mid_index(a.start))));
                assert(self.shape(memory).lows.contains(
                    (top_index(a.start), mid_index(a.start)),
                ));
            }
        }
        let ghost ms1 = *self;
        let ghost m1 = *memory;
        self.push(map_area, data, memory);
        proof {
            lemma_built_push(
                ms1,
                *self,
                pieces,
                a,
                match data {
                    Some(d) => d@,
                    None => Seq::empty(),
                },
                strampoline,
                memory0,
                m1,
                *memory,
            );
        }
    }

    /// A copy of the address space of a program: the same areas, with frames of their own that hold
    /// the same.
    pub fn from_existed_user(user_space: &Self, strampoline: u64, memory: &mut Memory) -> (r: Self)
        requires
            user_space.wf(old(memory)),
            strampoline % 4096 == 0,
            strampoline < 0x100_0000_0000_0000,
            complete(user_space),
            cost_of(copies(user_space, old(memory))) <= old(memory).free().len(),
        ensures
            built(
                &r,
                copies(user_space, old(memory)),
                strampoline,
                old(memory),
                final(memory),
            ),
            user_space.wf(final(memory)),
    {
        let ghost m0 = *memory;
        let ghost all = copies(user_space, memory);
        let ghost views = user_space.views();
        proof {
            user_space.lemma_wf(memory);
            memory.lemma_wf();
            lemma_cost_grows(all, 0);
            assert(all.take(0) =~= Seq::empty());
            lemma_areas_apart(user_space, memory);
        }
        let mut r: MemorySet = Self::new_with_trampoline(strampoline, memory);
        let mut k: usize = 0;
        while k < user_space.areas.len()
            invariant
                k <= user_space.areas@.len(),
                user_space.wf(&m0),
                complete(user_space),
                views == user_space.views(),
                views.len() == user_space.areas@.len(),
                all == copies(user_space, &m0),
                m0.wf(),
                cost_of(all) <= m0.free().len(),
                built(&r, all.take(k as int), strampoline, &m0, memory),
                forall|p: int| #[trigger]
                    user_space.owned().contains(p) ==> m0@.dom().contains(p)
                        && !m0.free().contains(p),
                forall|i: int, j: int, v: int|
                    0 <= i < views.len() && 0 <= j < views.len() && #[trigger] covers(views[i], v)
                        && #[trigger] covers(views[j], v) ==> i == j,
            decreases user_space.areas@.len() - k,
        {
            let ghost done = all.take(k as int);
            let ghost a = views[k as int];
            let ghost fresh = AreaView { frames: Map::empty(), ..a };
            let area: &MapArea = &user_space.areas[k];
            assert(area@ == a);
            assert(area_ok(a, &user_space.page_table, &m0));
            proof {
                lemma_cost_grows(all, k + 1);
                assert(all.take(k + 1).drop_last() =~= done);
                assert forall|v: int| a.start <= v < a.end implies !covered(done, v) by {
                    if covered(done, v) {
                        let j = choose|j: int|
                            0 <= j < done.len() && covers((#[trigger] done[j]).area, v);
                        assert(covers(views[j], v));
                        assert(covers(views[k as int], v));
                    }
                }
            }
            let new_area: MapArea = MapArea::from_another(area);
            r.add_piece(new_area, None, memory, Ghost(done), Ghost(strampoline), Ghost(m0));
            let ghost blank = done.push(data_piece(fresh, Seq::empty()));
            let ghost b = r.views()[k as int];
            let ghost r1 = r;
            let ghost m1 = *memory;
            proof {
                assert(piece_done(&r, blank, k as int, memory));
                assert(user_space.owned().disjoint(r.owned()));
                user_space.lemma_same_space(&m0, memory);
            }
            let mut vpn: u64 = area.get_start().0;
            let end: u64 = area.get_end().0;
            while vpn < end
                invariant
                    a.start <= vpn <= end,
                    end == a.end,
                    a == views[k as int],
                    k < views.len(),
                    views == user_space.views(),
                    complete(user_space),
                    b == r.views()[k as int],
                    r == r1,
                    r.wf(memory),
                    user_space.wf(&m0),
                    user_space.wf(memory),
                    m0.wf(),
                    m1.wf(),
                    memory.free() == m1.free(),
                    memory.limit() == m1.limit(),
                    memory@.dom() == m1@.dom(),
                    r.wf(&m1),
                    b.framed,
                    b.perm == a.perm,
                    b.start == a.start,
                    b.end == a.end,
                    b.frames.dom() == pages(a.start, a.end),
                    k < r.views().len(),
                    user_space.owned().disjoint(r.owned()),
                    forall|p: int| #[trigger]
                        user_space.owned().contains(p) ==> memory@[p] == m0@[p],
                    forall|v: int|
                        0 <= v < VPN_COUNT ==> #[trigger] leaf(memory@, r.root(), v) == leaf(
                            m1@,
                            r.root(),
                            v,
                        ),
                    forall|v: int|
                        0 <= v < VPN_COUNT ==> #[trigger] leaf(memory@, user_space.root(), v)
                            == leaf(m0@, user_space.root(), v),
                    r.shape(memory) == r.shape(&m1),
                    forall|v: int|
                        a.start <= v < vpn ==> memory@[#[trigger] b.frames[v]]
                            == m0@[a.frames[v]],
                    forall|q: int|
                        !b.owned().contains(q) ==> #[trigger] memory@[q] == m1@[q],
                decreases end - vpn,
            {
                let ghost v0 = vpn as int;
                let ghost m2 = *memory;
                proof {
                    assert(area_ok(a, &user_space.page_table, memory));
                    assert(area_ok(b, &r.page_table, memory));
                    assert(a.frames.dom().contains(v0));
                    assert(b.frames.dom().contains(v0));
                    lemma_valid_frames(a, &user_space.page_table, memory);
                    lemma_valid_frames(b, &r.page_table, memory);
                    assert(frame_ok(a, v0, &user_space.page_table, memory));
                    assert(frame_ok(b, v0, &r.page_table, memory));
                    assert(a.owned().contains(a.frames[v0]));
                    assert(b.owned().contains(b.frames[v0]));
                    assert(in_areas(views, a.frames[v0]));
                    assert(in_areas(r.views(), b.frames[v0]));
                }
                let src: Option<PageTableEntry> = user_space.translate(VirtPageNum(vpn), memory);
                let src_ppn: PhysPageNum = src.unwrap().ppn();
                let dst: Option<PageTableEntry> = r.translate(VirtPageNum(vpn), memory);
                let dst_ppn: PhysPageNum = dst.unwrap().ppn();
                memory.copy_page(src_ppn, dst_ppn);
                proof {
                    let p = b.frames[v0];
                    assert(dst_ppn.0 == p);
                    assert(src_ppn.0 == a.frames[v0]);
                    assert(memory@.dom() =~= m1@.dom());
                    lemma_frame_changed(r, m2, *memory, p);
                    assert forall|q: int| #[trigger] user_space.owned().contains(q) implies memory@[q]
                        == m0@[q] && !memory.free().contains(q) by {
                        assert(r.owned().contains(p));
                        assert(q != p);
                    }
                    user_space.lemma_same_space(&m2, memory);
                    assert forall|v: int| a.start <= v < v0 + 1 implies memory@[#[trigger] b.frames[v]]
                        == m0@[a.frames[v]] by {
                        assert(b.frames.dom().contains(v));
                        if v != v0 {
                            assert(b.frames[v] != p);
                        } else {
                            assert(user_space.owned().contains(a.frames[v0]));
                        }
                    }
                }
                vpn += 1;
            }
            proof {
                lemma_piece_copied(r, all, k as int, blank, strampoline, m0, m1, *memory, a, b);
            }
            k += 1;
        }
        proof {
            assert(all.take(k as int) =~= all);
            user_space.lemma_same_space(&m0, memory);
        }
        r
    }
}

/// The next piece fits: it is apart from the others, there are frames for it, and so does its data.
pub open spec fn can_add(
    pieces: Seq<Piece>,
    area: AreaView,
    data: Option<Seq<u8>>,
    frames: int,
) -> bool {
    &&& area.wf()
    &&& area.frames == Map::<int, int>::empty()
    &&& forall|v: int| area.start <= v < area.end ==> !covered(pieces, v)
    &&& !(area.start <= TRAMPOLINE_VPN < area.end)
    &&& cost_of(pieces) + shape_of(pieces).cost(area.framed, area.start, area.end) <= frames
    &&& data matches Some(d) ==> {
        &&& area.framed
        &&& area.start < VPN_COUNT
        &&& (d.len() + 4095) / 4096 <= area.end - area.start
        &&& d.len() + 4096 <= usize::MAX
        &&& area.start < area.end || shape_of(pieces).lows.contains(
            (top_index(area.start), mid_index(area.start)),
        )
    }
}

/// Every page of every area has a frame, and the trampoline belongs to none of them.
pub open spec fn complete(ms: &MemorySet) -> bool {
    forall|k: int|
        0 <= k < ms.views().len() ==> {
            let a = #[trigger] ms.views()[k];
            &&& a.framed
            &&& a.frames.dom() == pages(a.start, a.end)
            &&& !(a.start <= TRAMPOLINE_VPN < a.end)
        }
}

/// The areas of an address space with what their pages hold.
pub open spec fn copies(ms: &MemorySet, memory: &Memory) -> Seq<Piece> {
    Seq::new(
        ms.views().len(),
        |k: int|
            Piece {
                area: AreaView { frames: Map::empty(), ..ms.views()[k] },
                content: |i: int| memory@[ms.views()[k].frames[ms.views()[k].start + i]],
            },
    )
}

/// Areas whose pages all have frames have no page in common.
pub proof fn lemma_areas_apart(ms: &MemorySet, memory: &Memory)
    requires
        ms.wf(memory),
        complete(ms),
    ensures
        forall|i: int, j: int, v: int|
            0 <= i < ms.views().len() && 0 <= j < ms.views().len() && #[trigger] covers(
                ms.views()[i],
                v,
            ) && #[trigger] covers(ms.views()[j], v) ==> i == j,
{
    let views = ms.views();
    assert forall|i: int, j: int, v: int|
        0 <= i < views.len() && 0 <= j < views.len() && #[trigger] covers(views[i], v)
            && #[trigger] covers(views[j], v) implies i == j by {
        let a = views[i];
        let b = views[j];
        assert(area_ok(a, &ms.page_table, memory));
        assert(area_ok(b, &ms.page_table, memory));
        lemma_valid_frames(a, &ms.page_table, memory);
        lemma_valid_frames(b, &ms.page_table, memory);
        assert(a.frames.dom().contains(v) && b.frames.dom().contains(v));
        assert(a.frames[v] == b.frames[v]);
        assert(views[i].owned().contains(a.frames[v]) && views[j].owned().contains(a.frames[v]));
    }
}

/// What a frame of an area holds can change without a change of the address space.
pub proof fn lemma_frame_changed(ms: MemorySet, m: Memory, m2: Memory, p: int)
    requires
        ms.wf(&m),
        m2.wf(),
        m2.free() == m.free(),
        m2.limit() == m.limit(),
        m2@ == m@.insert(p, m2@[p]),
        m@.dom().contains(p),
        !ms.page_table.tables().contains(p),
    ensures
        ms.wf(&m2),
        ms.shape(&m2) == ms.shape(&m),
        forall|v: int|
            0 <= v < VPN_COUNT ==> #[trigger] leaf(m2@, ms.root(), v) == leaf(m@, ms.root(), v),
{
    assert(m2@.dom() =~= m@.dom());
    lemma_same_tree(m@, m2@, ms.root(), ms.page_table.tables());
    lemma_same_shape(m@, m2@, ms.root());
    assert forall|k: int| 0 <= k < ms.views().len() implies area_ok(
        #[trigger] ms.views()[k],
        &ms.page_table,
        &m2,
    ) by {
        let a = ms.views()[k];
        assert(area_ok(a, &ms.page_table, &m));
        assert forall|v: int| #[trigger] a.frames.dom().contains(v) implies !m2.free().contains(
            a.frames[v],
        ) by {
            assert(frame_ok(a, v, &ms.page_table, &m));
        }
        lemma_area_kept(a, ms.page_table, ms.page_table, m, m2);
    }
}

/// Copying the pages of the last piece completes it.
proof fn lemma_piece_copied(
    r: MemorySet,
    all: Seq<Piece>,
    k: int,
    blank: Seq<Piece>,
    strampoline: u64,
    m0: Memory,
    m1: Memory,
    m2: Memory,
    a: AreaView,
    b: AreaView,
)
    requires
        0 <= k < all.len(),
        built(&r, blank, strampoline, &m0, &m1),
        blank == all.take(k).push(
            data_piece((AreaView { frames: Map::empty(), ..a }), Seq::empty()),
        ),
        all[k].area == (AreaView { frames: Map::empty(), ..a }),
        forall|i: int|
            0 <= i < a.end - a.start ==> #[trigger] (all[k].content)(i) == m0@[a.frames[a.start
                + i]],
        b == r.views()[k],
        b.framed,
        b.frames.dom() == pages(a.start, a.end),
        r.wf(&m2),
        m2.free() == m1.free(),
        m2.limit() == m1.limit(),
        m2@.dom() == m1@.dom(),
        r.shape(&m2) == r.shape(&m1),
        forall|v: int|
            0 <= v < VPN_COUNT ==> #[trigger] leaf(m2@, r.root(), v) == leaf(m1@, r.root(), v),
        forall|v: int|
            a.start <= v < a.end ==> m2@[#[trigger] b.frames[v]] == m0@[a.frames[v]],
        forall|q: int| !b.owned().contains(q) ==> #[trigger] m2@[q] == m1@[q],
        0 <= a.start <= a.end <= VPN_COUNT,
    ensures
        built(&r, all.take(k + 1), strampoline, &m0, &m2),
{
    let now = all.take(k + 1);
    assert(now.drop_last() =~= all.take(k));
    assert(blank.drop_last() =~= all.take(k));
    assert(piece_done(&r, blank, k, &m1));
    assert forall|j: int| 0 <= j < now.len() implies piece_done(&r, now, j, &m2) by {
        assert(piece_done(&r, blank, j, &m1));
        let c = r.views()[j];
        let area = now[j].area;
        assert(area == blank[j].area);
        assert(area_ok(c, &r.page_table, &m1));
        assert forall|v: int| area.start <= v < area.end implies #[trigger] leaf(m2@, r.root(), v)
            == pte_of(c.target(v), in_use(area.perm as int)) by {
            assert(leaf(m1@, r.root(), v) == pte_of(c.target(v), in_use(area.perm as int)));
        }
        if area.framed {
            assert forall|v: int| area.start <= v < area.end implies m2@[#[trigger] c.frames[v]]
                == (now[j].content)(v - area.start) by {
                if j < k {
                    assert(now[j] == blank[j]);
                    assert(c.frames.dom().contains(v));
                    assert(c.owned().contains(c.frames[v]));
                    if b.owned().contains(c.frames[v]) {
                        assert(r.views()[j].owned().contains(c.frames[v])
                            && r.views()[k].owned().contains(c.frames[v]));
                    }
                    assert(m1@[c.frames[v]] == (blank[j].content)(v - area.start));
                } else {
                    assert((all[k].content)(v - a.start) == m0@[a.frames[a.start + (v - a.start)]]);
                }
            }
        }
    }
    assert forall|v: int| covered(now, v) == covered(blank, v) by {
        if covered(now, v) {
            let j = choose|j: int| 0 <= j < now.len() && covers((#[trigger] now[j]).area, v);
            assert(covers(blank[j].area, v));
        }
        if covered(blank, v) {
            let j = choose|j: int| 0 <= j < blank.len() && covers((#[trigger] blank[j]).area, v);
            assert(covers(now[j].area, v));
        }
    }
    assert forall|v: int|
        0 <= v < VPN_COUNT && v != TRAMPOLINE_VPN && !covered(now, v) implies #[trigger] leaf(
        m2@,
        r.root(),
        v,
    ) == 0 by {
        assert(leaf(m1@, r.root(), v) == 0);
    }
    assert forall|q: int| !r.owned().contains(q) implies #[trigger] m2@[q] == m0@[q] by {
        if b.owned().contains(q) {
            assert(in_areas(r.views(), q));
        }
        assert(m2@[q] == m1@[q]);
    }
}

/// Page `v` has frame `p`.
pub open spec fn has_frame(ms: &MemorySet, v: int, p: int) -> bool {
    exists|k: int|
        0 <= k < ms.views().len() && (#[trigger] ms.views()[k]).frames.dom().contains(v)
            && ms.views()[k].frames[v] == p
}

/// Piece `k` is an area of the address space: its pages are mapped, and all of them but page `hole`
/// hold what they are to hold.
pub open spec fn piece_done_but(
    ms: &MemorySet,
    pieces: Seq<Piece>,
    k: int,
    memory: &Memory,
    hole: int,
) -> bool {
    let a = pieces[k].area;
    let a2 = ms.views()[k];
    &&& a2 == (AreaView { frames: a2.frames, ..a })
    &&& a.framed ==> a2.frames.dom() == pages(a.start, a.end)
    &&& a.framed ==> forall|v: int|
        a.start <= v < a.end && v != hole ==> memory@[#[trigger] a2.frames[v]] == (
        pieces[k].content)(v - a.start)
    &&& forall|v: int|
        a.start <= v < a.end ==> #[trigger] leaf(memory@, ms.root(), v) == pte_of(
            a2.target(v),
            in_use(a.perm as int),
        )
}

/// The address space has the trampoline and these pieces and nothing else; page `hole` may hold
/// anything.
pub open spec fn built_but(
    ms: &MemorySet,
    pieces: Seq<Piece>,
    strampoline: u64,
    memory: &Memory,
    hole: int,
) -> bool {
    &&& ms.wf(memory)
    &&& ms.views().len() == pieces.len()
    &&& forall|k: int| 0 <= k < pieces.len() ==> piece_done_but(ms, pieces, k, memory, hole)
    &&& ms.shape(memory) == shape_of(pieces)
    &&& !covered(pieces, TRAMPOLINE_VPN as int)
    &&& leaf(memory@, ms.root(), TRAMPOLINE_VPN as int) == pte_of(strampoline as int / 4096, 11)
    &&& forall|v: int|
        0 <= v < VPN_COUNT && v != TRAMPOLINE_VPN && !covered(pieces, v) ==> #[trigger] leaf(
            memory@,
            ms.root(),
            v,
        ) == 0
}

/// A complete address space is complete but for a page.
pub proof fn lemma_built_but(
    ms: &MemorySet,
    pieces: Seq<Piece>,
    strampoline: u64,
    m0: &Memory,
    m: &Memory,
    hole: int,
)
    requires
        built(ms, pieces, strampoline, m0, m),
    ensures
        built_but(ms, pieces, strampoline, m, hole),
{
    assert forall|k: int| 0 <= k < pieces.len() implies piece_done_but(ms, pieces, k, m, hole) by {
        assert(piece_done(ms, pieces, k, m));
    }
}

/// Where the pages of an address space are as before, but for the frame of page `hole`, it still has
/// its pieces.
pub proof fn lemma_hole_changed(
    ms: &MemorySet,
    pieces: Seq<Piece>,
    strampoline: u64,
    m: &Memory,
    m2: &Memory,
    hole: int,
    p: int,
)
    requires
        built_but(ms, pieces, strampoline, m, hole),
        has_frame(ms, hole, p),
        ms.wf(m2),
        ms.shape(m2) == ms.shape(m),
        forall|v: int|
            0 <= v < VPN_COUNT ==> #[trigger] leaf(m2@, ms.root(), v) == leaf(m@, ms.root(), v),
        forall|q: int| #[trigger] ms.owned().contains(q) && q != p ==> m2@[q] == m@[q],
    ensures
        built_but(ms, pieces, strampoline, m2, hole),
{
    let views = ms.views();
    let h = choose|k: int|
        0 <= k < views.len() && (#[trigger] views[k]).frames.dom().contains(hole)
            && views[k].frames[hole] == p;
    assert(area_ok(views[h], &ms.page_table, m));
    assert(views[h].owned().contains(p));
    assert forall|k: int| 0 <= k < pieces.len() implies piece_done_but(ms, pieces, k, m2, hole) by {
        assert(piece_done_but(ms, pieces, k, m, hole));
        let a = pieces[k].area;
        let b = views[k];
        assert(area_ok(b, &ms.page_table, m));
        assert forall|v: int| a.start <= v < a.end implies #[trigger] leaf(m2@, ms.root(), v)
            == pte_of(b.target(v), in_use(a.perm as int)) by {
            assert(leaf(m@, ms.root(), v) == pte_of(b.target(v), in_use(a.perm as int)));
        }
        if a.framed {
            assert forall|v: int| a.start <= v < a.end && v != hole implies m2@[#[trigger] b.frames[v]]
                == (pieces[k].content)(v - a.start) by {
                let q = b.frames[v];
                assert(b.frames.dom().contains(v));
                assert(views[k].owned().contains(q));
                assert(in_areas(views, q));
                assert(ms.owned().contains(q));
                if q == p {
                    assert(views[h].owned().contains(q) && views[k].owned().contains(q));
                    assert(b.frames[v] == b.frames[hole]);
                }
            }
        }
    }
    assert forall|v: int|
        0 <= v < VPN_COUNT && v != TRAMPOLINE_VPN && !covered(pieces, v) implies #[trigger] leaf(
        m2@,
        ms.root(),
        v,
    ) == 0 by {
        assert(leaf(m@, ms.root(), v) == 0);
    }
}

} // verus!
