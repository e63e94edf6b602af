//! No page of a program is mapped behind the back of its areas.

use vstd::prelude::*;

use super::address::VPN_COUNT;
use super::frame_allocator::Memory;
use super::map_area::{area_ok, pages, AreaView};
use super::memory_set::{
    appended, held, lost_pages, pushed, without_pages, MemorySet, TRAMPOLINE_VPN,
};
use super::page_table::{leaf, lemma_pte, pte_valid};
use super::space::{built_but, covered, covers, piece_done_but, Piece};

verus! {

/// One of the areas maps page `v`.
pub open spec fn in_area(ms: &MemorySet, v: int) -> bool {
    exists|k: int| 0 <= k < ms.views().len() && (#[trigger] ms.views()[k]).maps(v)
}

/// Every page that is mapped is mapped by one of the areas, but for the trampoline, which is mapped
/// and belongs to none of them.
#[verifier::opaque]
pub open spec fn areas_only(ms: &MemorySet, memory: &Memory) -> bool {
    &&& forall|v: int|
        0 <= v < VPN_COUNT && v != TRAMPOLINE_VPN && pte_valid(
            #[trigger] leaf(memory@, ms.root(), v),
        ) ==> in_area(ms, v)
    &&& pte_valid(leaf(memory@, ms.root(), TRAMPOLINE_VPN as int))
    &&& !in_area(ms, TRAMPOLINE_VPN as int)
}

/// A page is mapped by an area exactly if it is mapped and not the trampoline.
pub proof fn lemma_held(ms: &MemorySet, memory: &Memory, v: int)
    requires
        areas_only(ms, memory),
        0 <= v < VPN_COUNT,
    ensures
        held(ms, memory, v) == (pte_valid(leaf(memory@, ms.root(), v)) && v != TRAMPOLINE_VPN),
{
    reveal(areas_only);
}

/// The trampoline is mapped.
pub proof fn lemma_trampoline_mapped(ms: &MemorySet, memory: &Memory)
    requires
        areas_only(ms, memory),
    ensures
        pte_valid(leaf(memory@, ms.root(), TRAMPOLINE_VPN as int)),
{
    reveal(areas_only);
}

/// An address space that was built from pieces.
pub proof fn lemma_areas_only_built(
    ms: &MemorySet,
    pieces: Seq<Piece>,
    strampoline: u64,
    m: &Memory,
    hole: int,
)
    requires
        built_but(ms, pieces, strampoline, m, hole),
        strampoline < 0x100_0000_0000_0000,
    ensures
        areas_only(ms, m),
{
    reveal(areas_only);
    lemma_pte(strampoline as int / 4096, 11);
    assert forall|k: int| 0 <= k < ms.views().len() implies !(#[trigger] ms.views()[k]).maps(
        TRAMPOLINE_VPN as int,
    ) by {
        assert(piece_done_but(ms, pieces, k, m, hole));
        assert(!covers(pieces[k].area, TRAMPOLINE_VPN as int));
        assert(area_ok(ms.views()[k], &ms.page_table, m));
    }
    assert forall|v: int|
        0 <= v < VPN_COUNT && v != TRAMPOLINE_VPN && pte_valid(
            #[trigger] leaf(m@, ms.root(), v),
        ) implies in_area(ms, v) by {
        assert(covered(pieces, v));
        let k = choose|k: int| 0 <= k < pieces.len() && covers((#[trigger] pieces[k]).area, v);
        assert(piece_done_but(ms, pieces, k, m, hole));
        assert(ms.views()[k].maps(v));
    }
}

/// Where the entries of the page table are as before.
pub proof fn lemma_areas_only_kept(ms: &MemorySet, m: &Memory, m2: &Memory)
    requires
        areas_only(ms, m),
        forall|v: int|
            0 <= v < VPN_COUNT ==> #[trigger] leaf(m2@, ms.root(), v) == leaf(m@, ms.root(), v),
    ensures
        areas_only(ms, m2),
{
    reveal(areas_only);
    assert forall|v: int|
        0 <= v < VPN_COUNT && v != TRAMPOLINE_VPN && pte_valid(
            #[trigger] leaf(m2@, ms.root(), v),
        ) implies in_area(ms, v) by {
        assert(pte_valid(leaf(m@, ms.root(), v)));
    }
}

/// Where the areas and the page table are as before.
pub proof fn lemma_areas_only_same(ms: &MemorySet, ms2: &MemorySet, m: &Memory)
    requires
        areas_only(ms, m),
        ms2.views() == ms.views(),
        ms2.page_table == ms.page_table,
    ensures
        areas_only(ms2, m),
{
    reveal(areas_only);
    assert forall|v: int|
        0 <= v < VPN_COUNT && v != TRAMPOLINE_VPN && pte_valid(
            #[trigger] leaf(m@, ms2.root(), v),
        ) implies in_area(ms2, v) by {
        assert(pte_valid(leaf(m@, ms.root(), v)));
        let k = choose|k: int| 0 <= k < ms.views().len() && (#[trigger] ms.views()[k]).maps(v);
        assert(ms2.views()[k].maps(v));
    }
    lemma_none(ms, ms2, TRAMPOLINE_VPN as int);
}

/// A page that belonged to no area belongs to none.
proof fn lemma_none(ms: &MemorySet, ms2: &MemorySet, v: int)
    requires
        !in_area(ms, v),
        ms2.views().len() == ms.views().len(),
        forall|k: int|
            0 <= k < ms.views().len() && #[trigger] ms2.views()[k].maps(v) ==> ms.views()[k].maps(v),
    ensures
        !in_area(ms2, v),
{
}

/// With an area more.
pub proof fn lemma_areas_only_pushed(
    ms: &MemorySet,
    ms2: &MemorySet,
    area: AreaView,
    data: Seq<u8>,
    m: &Memory,
    m2: &Memory,
)
    requires
        areas_only(ms, m),
        forall|v: int|
            area.start <= v < area.end ==> !pte_valid(#[trigger] leaf(m@, ms.root(), v)),
        pushed(ms, ms2, area, data, m, m2),
    ensures
        areas_only(ms2, m2),
{
    reveal(areas_only);
    let n = ms.views().len() as int;
    assert forall|v: int|
        0 <= v < VPN_COUNT && v != TRAMPOLINE_VPN && pte_valid(
            #[trigger] leaf(m2@, ms2.root(), v),
        ) implies in_area(ms2, v) by {
        if area.start <= v < area.end {
            assert(ms2.views()[n].maps(v));
        } else {
            assert(pte_valid(leaf(m@, ms.root(), v)));
            let k = choose|k: int| 0 <= k < n && (#[trigger] ms.views()[k]).maps(v);
            assert(ms2.views()[k] == ms.views()[k]);
        }
    }
    assert forall|k: int| 0 <= k < ms2.views().len() implies !(#[trigger] ms2.views()[k]).maps(
        TRAMPOLINE_VPN as int,
    ) by {
        if k < n {
            assert(ms2.views()[k] == ms.views()[k]);
        }
    }
}

/// Without some pages, where the areas still have the others.
pub proof fn lemma_areas_only_lost(
    ms: &MemorySet,
    ms2: &MemorySet,
    from: int,
    to: int,
    m: &Memory,
    m2: &Memory,
)
    requires
        areas_only(ms, m),
        lost_pages(ms, ms2, from, to, m, m2),
        ms2.views().len() == ms.views().len(),
        forall|k: int, v: int|
            0 <= k < ms.views().len() && !(from <= v < to) && #[trigger] ms.views()[k].maps(v)
                ==> ms2.views()[k].maps(v),
        forall|k: int, v: int|
            0 <= k < ms.views().len() && #[trigger] ms2.views()[k].maps(v)
                ==> ms.views()[k].maps(v),
        !(from <= TRAMPOLINE_VPN < to),
    ensures
        areas_only(ms2, m2),
{
    reveal(areas_only);
    assert forall|v: int|
        0 <= v < VPN_COUNT && v != TRAMPOLINE_VPN && pte_valid(
            #[trigger] leaf(m2@, ms2.root(), v),
        ) implies in_area(ms2, v) by {
        assert(pte_valid(leaf(m@, ms.root(), v)));
        let k = choose|k: int| 0 <= k < ms.views().len() && (#[trigger] ms.views()[k]).maps(v);
        assert(ms2.views()[k].maps(v));
    }
    lemma_none(ms, ms2, TRAMPOLINE_VPN as int);
}

/// Without the pages of a range.
pub proof fn lemma_areas_only_without(
    ms: &MemorySet,
    ms2: &MemorySet,
    from: int,
    to: int,
    m: &Memory,
    m2: &Memory,
)
    requires
        areas_only(ms, m),
        ms2.views() == without_pages(ms.views(), from, to),
        !(from <= TRAMPOLINE_VPN < to),
        lost_pages(ms, ms2, from, to, m, m2),
    ensures
        areas_only(ms2, m2),
{
    assert forall|k: int, v: int|
        0 <= k < ms.views().len() && !(from <= v < to) && #[trigger] ms.views()[k].maps(v) implies
        ms2.views()[k].maps(v) by {
        assert(!pages(from, to).contains(v));
    }
    assert forall|k: int, v: int|
        0 <= k < ms.views().len() && #[trigger] ms2.views()[k].maps(v) implies ms.views()[k].maps(
        v,
    ) by {}
    lemma_areas_only_lost(ms, ms2, from, to, m, m2);
}

/// With an area that has grown.
pub proof fn lemma_areas_only_appended(
    ms: &MemorySet,
    ms2: &MemorySet,
    k: int,
    end: int,
    m: &Memory,
    m2: &Memory,
)
    requires
        areas_only(ms, m),
        0 <= k < ms.views().len(),
        ms.views()[k].end <= end,
        ms.views()[k].start <= ms.views()[k].end,
        forall|v: int|
            ms.views()[k].end <= v < end ==> !pte_valid(#[trigger] leaf(m@, ms.root(), v)),
        appended(ms, ms2, k, end, m, m2),
    ensures
        areas_only(ms2, m2),
{
    reveal(areas_only);
    let a = ms.views()[k];
    assert forall|v: int|
        0 <= v < VPN_COUNT && v != TRAMPOLINE_VPN && pte_valid(
            #[trigger] leaf(m2@, ms2.root(), v),
        ) implies in_area(ms2, v) by {
        if a.end <= v < end {
            assert(ms2.views()[k].maps(v));
        } else {
            assert(pte_valid(leaf(m@, ms.root(), v)));
            let j = choose|j: int| 0 <= j < ms.views().len() && (#[trigger] ms.views()[j]).maps(v);
            assert(ms2.views()[j].maps(v));
        }
    }
    lemma_none(ms, ms2, TRAMPOLINE_VPN as int);
}

} // verus!
