//! The memory of a process as the kernel uses it.

use vstd::prelude::*;
use vstd::utf8::encode_utf8;

use crate::mm::address::{va_of, VPN_COUNT};
use crate::mm::frame_allocator::{same_frames, Memory};
use crate::mm::map_area::{area_ok, frame_ok, lemma_same_shape, lemma_valid_frames};
use crate::mm::memory_set::{lemma_area_kept, MemorySet};
use crate::mm::page_table::{leaf, lemma_same_tree};
use crate::mm::space::has_frame;
use crate::mm::stray::{areas_only, lemma_areas_only_kept};
use crate::mm::user::{
    bytes_at, cell, cells_of, has_table, in_memory, in_one_half, is_text, law_read_gives_what_was_put,
    lemma_cells_index, lemma_put_bytes, page_by_page, put_bytes, text_at, translated_byte_buffer,
    translated_str, user_byte, UserBuffer, UserSegment,
};
use crate::task::shared::only;

verus! {

/// A page has a frame of the address space.
pub open spec fn page_framed(ms: &MemorySet, v: int) -> bool {
    exists|p: int| has_frame(ms, v, p)
}

/// The page of an address has a frame of the address space.
pub open spec fn framed(ms: &MemorySet, va: u64) -> bool {
    page_framed(ms, va_of(va) / 4096)
}

/// A buffer of a process: its addresses lie in one half of the address space, and their pages have
/// frames.
pub open spec fn buffer_ok(ms: &MemorySet, ptr: u64, len: u64) -> bool {
    &&& in_one_half(ptr, len)
    &&& forall|k: int| 0 <= k < len ==> framed(ms, #[trigger] ((ptr + k) as u64))
}

/// Where the bytes of a buffer lie.
pub open spec fn buffer_cells(ms: &MemorySet, memory: &Memory, ptr: u64, len: u64) -> Seq<
    (int, int),
> {
    Seq::new(len as nat, |k: int| cell(memory@, ms.root(), (ptr + k) as u64))
}

/// What is at an address whose page has a frame.
pub proof fn lemma_framed(ms: &MemorySet, memory: &Memory, va: u64)
    requires
        ms.wf(memory),
        framed(ms, va),
    ensures
        has_table(memory@, ms.root(), va),
        ({
            let c = cell(memory@, ms.root(), va);
            &&& memory@.dom().contains(c.0)
            &&& memory@[c.0].len() == 4096
            &&& 0 <= c.1 < 4096
            &&& ms.owned().contains(c.0)
            &&& !ms.page_table.tables().contains(c.0)
            &&& has_frame(ms, va_of(va) / 4096, c.0)
        }),
{
    let v = va_of(va) / 4096;
    let p = choose|p: int| has_frame(ms, v, p);
    let k = choose|k: int|
        0 <= k < ms.views().len() && (#[trigger] ms.views()[k]).frames.dom().contains(v)
            && ms.views()[k].frames[v] == p;
    let a = ms.views()[k];
    assert(area_ok(a, &ms.page_table, memory));
    assert(frame_ok(a, v, &ms.page_table, memory));
    lemma_valid_frames(a, &ms.page_table, memory);
    assert(ms.views()[k].owned().contains(p));
    memory.lemma_wf();
}

/// Runs whose bytes lie in memory.
proof fn lemma_runs_in_memory(segs: Seq<UserSegment>, mem: Map<int, Seq<u8>>)
    requires
        forall|i: int| 0 <= i < segs.len() ==> (#[trigger] segs[i]).wf(),
        forall|k: int|
            0 <= k < cells_of(segs).len() ==> mem.dom().contains((#[trigger] cells_of(segs)[k]).0),
    ensures
        in_memory(segs, mem),
{
    assert forall|i: int| 0 <= i < segs.len() implies (#[trigger] segs[i]).wf()
        && mem.dom().contains(segs[i].ppn.0 as int) by {
        lemma_cells_index(segs, i, segs.len() as int);
        assert(segs.take(segs.len() as int) =~= segs);
        let n = cells_of(segs.take(i)).len() as int;
        assert(cells_of(segs)[n + 0] == segs[i].cells()[0]);
    }
}

/// The runs of a buffer of a process.
pub(crate) fn user_buffer(ms: &MemorySet, ptr: u64, len: u64, memory: &Memory) -> (r: UserBuffer)
    requires
        ms.wf(memory),
        buffer_ok(ms, ptr, len),
    ensures
        r.cells() == buffer_cells(ms, memory, ptr, len),
        in_memory(r.segments@, memory@),
        page_by_page(r.segments@, ptr, len),
{
    proof {
        ms.lemma_wf(memory);
        ms.page_table.lemma_walkable(memory);
        assert forall|k: int| 0 <= k < len implies has_table(
            memory@,
            ms.root(),
            #[trigger] ((ptr + k) as u64),
        ) by {
            lemma_framed(ms, memory, (ptr + k) as u64);
        }
    }
    let token: u64 = ms.token();
    assert((0x8000_0000_0000_0000 + ms.root()) % 0x1000_0000_0000 == ms.root());
    let segments: Vec<UserSegment> = translated_byte_buffer(token, ptr, len, memory);
    proof {
        let cells = buffer_cells(ms, memory, ptr, len);
        assert(cells_of(segments@) =~= cells);
        assert forall|k: int| 0 <= k < cells_of(segments@).len() implies memory@.dom().contains(
            (#[trigger] cells_of(segments@)[k]).0,
        ) by {
            assert(framed(ms, (ptr + k) as u64));
            lemma_framed(ms, memory, (ptr + k) as u64);
        }
        lemma_runs_in_memory(segments@, memory@);
    }
    UserBuffer::new(segments)
}

/// What the frames of the areas hold can change without a change of the address space.
pub proof fn lemma_pages_changed(ms: &MemorySet, m: &Memory, m2: &Memory)
    requires
        ms.wf(m),
        m2.wf(),
        m2.free() == m.free(),
        m2.limit() == m.limit(),
        m2@.dom() == m@.dom(),
        forall|p: int| #[trigger] ms.page_table.tables().contains(p) ==> m2@[p] == m@[p],
        forall|p: int| !ms.owned().contains(p) ==> #[trigger] m2@[p] == m@[p],
    ensures
        ms.wf(m2),
        only(m, m2, ms.owned(), ms.owned()),
        ms.shape(m2) == ms.shape(m),
        forall|v: int|
            0 <= v < VPN_COUNT ==> #[trigger] leaf(m2@, ms.root(), v) == leaf(m@, ms.root(), v),
        areas_only(ms, m) ==> areas_only(ms, m2),
{
    lemma_same_tree(m@, m2@, ms.root(), ms.page_table.tables());
    lemma_same_shape(m@, m2@, ms.root());
    assert forall|k: int| 0 <= k < ms.views().len() implies area_ok(
        #[trigger] ms.views()[k],
        &ms.page_table,
        m2,
    ) by {
        let a = ms.views()[k];
        assert(area_ok(a, &ms.page_table, m));
        assert forall|v: int| #[trigger] a.frames.dom().contains(v) implies !m2.free().contains(
            a.frames[v],
        ) by {
            assert(frame_ok(a, v, &ms.page_table, m));
        }
        lemma_area_kept(a, ms.page_table, ms.page_table, *m, *m2);
    }
    if areas_only(ms, m) {
        lemma_areas_only_kept(ms, m, m2);
    }
}

/// Putting bytes into a buffer of a process.
pub proof fn lemma_buffer_written(
    ms: &MemorySet,
    m: &Memory,
    m2: &Memory,
    ptr: u64,
    len: u64,
    data: Seq<u8>,
    n: int,
)
    requires
        ms.wf(m),
        m.wf(),
        buffer_ok(ms, ptr, len),
        0 <= n <= len,
        n <= data.len(),
        same_frames(m, m2),
        m2@ == put_bytes(m@, buffer_cells(ms, m, ptr, len), data, n),
    ensures
        ms.wf(m2),
        only(m, m2, ms.owned(), ms.owned()),
        areas_only(ms, m) ==> areas_only(ms, m2),
{
    let cells = buffer_cells(ms, m, ptr, len);
    assert forall|k: int| 0 <= k < cells.len() implies {
        let c = #[trigger] cells[k];
        &&& m@.dom().contains(c.0)
        &&& 0 <= c.1 < m@[c.0].len()
        &&& ms.owned().contains(c.0)
        &&& !ms.page_table.tables().contains(c.0)
    } by {
        assert(framed(ms, (ptr + k) as u64));
        lemma_framed(ms, m, (ptr + k) as u64);
    }
    lemma_put_bytes(m@, cells, data, n);
    assert forall|p: int| #[trigger] ms.page_table.tables().contains(p) implies m2@[p]
        == m@[p] by {
        assert forall|k: int| 0 <= k < n implies (#[trigger] cells[k]).0 != p by {}
        assert(put_bytes(m@, cells, data, n)[p] == m@[p]);
    }
    assert forall|p: int| !ms.owned().contains(p) implies #[trigger] m2@[p] == m@[p] by {
        assert forall|k: int| 0 <= k < n implies (#[trigger] cells[k]).0 != p by {}
        assert(put_bytes(m@, cells, data, n)[p] == m@[p]);
    }
    lemma_pages_changed(ms, m, m2);
}

/// Two addresses whose pages have frames lie in the same place only if they are the same address.
proof fn lemma_places_apart(ms: &MemorySet, m: &Memory, a: u64, b: u64)
    requires
        ms.wf(m),
        framed(ms, a),
        framed(ms, b),
        cell(m@, ms.root(), a) == cell(m@, ms.root(), b),
    ensures
        va_of(a) == va_of(b),
{
    lemma_framed(ms, m, a);
    lemma_framed(ms, m, b);
    let p = cell(m@, ms.root(), a).0;
    let v = va_of(a) / 4096;
    let w = va_of(b) / 4096;
    let views = ms.views();
    let i = choose|i: int|
        0 <= i < views.len() && (#[trigger] views[i]).frames.dom().contains(v)
            && views[i].frames[v] == p;
    let j = choose|j: int|
        0 <= j < views.len() && (#[trigger] views[j]).frames.dom().contains(w)
            && views[j].frames[w] == p;
    assert(views[i].owned().contains(p) && views[j].owned().contains(p));
    assert(area_ok(views[i], &ms.page_table, m));
    assert(v == w);
}

/// What was put into a buffer of a process is what the process finds there, byte for byte, and at every
/// other address it finds what was there before.
#[verifier::rlimit(40)]
pub proof fn law_process_finds_what_was_put(
    ms: &MemorySet,
    m: &Memory,
    m2: &Memory,
    ptr: u64,
    len: u64,
    data: Seq<u8>,
    n: int,
)
    requires
        ms.wf(m),
        m.wf(),
        buffer_ok(ms, ptr, len),
        0 <= n <= len,
        n <= data.len(),
        m2@ == put_bytes(m@, buffer_cells(ms, m, ptr, len), data, n),
    ensures
        forall|k: int|
            0 <= k < n ==> user_byte(m2@, ms.root(), #[trigger] ((ptr + k) as u64)) == data[k],
        forall|va: u64|
            framed(ms, va) && (forall|k: int|
                0 <= k < n ==> va_of(va) != va_of(#[trigger] ((ptr + k) as u64)))
                ==> #[trigger] user_byte(m2@, ms.root(), va) == user_byte(m@, ms.root(), va),
{
    let cells = buffer_cells(ms, m, ptr, len);
    assert forall|k: int| 0 <= k < cells.len() implies {
        let c = #[trigger] cells[k];
        &&& m@.dom().contains(c.0)
        &&& 0 <= c.1 < m@[c.0].len()
        &&& !ms.page_table.tables().contains(c.0)
    } by {
        assert(framed(ms, (ptr + k) as u64));
        lemma_framed(ms, m, (ptr + k) as u64);
    }
    lemma_put_bytes(m@, cells, data, n);
    assert forall|p: int| #[trigger] ms.page_table.tables().contains(p) implies m2@[p]
        == m@[p] by {
        assert forall|k: int| 0 <= k < n implies (#[trigger] cells[k]).0 != p by {}
        assert(put_bytes(m@, cells, data, n)[p] == m@[p]);
    }
    lemma_same_tree(m@, m2@, ms.root(), ms.page_table.tables());
    assert(cells.no_duplicates()) by {
        assert forall|i: int, j: int|
            0 <= i < cells.len() && 0 <= j < cells.len() && i != j implies cells[i] != cells[j] by {
            if cells[i] == cells[j] {
                assert(framed(ms, (ptr + i) as u64) && framed(ms, (ptr + j) as u64));
                lemma_places_apart(ms, m, (ptr + i) as u64, (ptr + j) as u64);
                lemma_one_half(ptr, len, i, j);
            }
        }
    }
    law_read_gives_what_was_put(m@, cells, data, n);
    assert forall|k: int| 0 <= k < n implies user_byte(
        m2@,
        ms.root(),
        #[trigger] ((ptr + k) as u64),
    ) == data[k] by {
        let va = (ptr + k) as u64;
        assert(0 <= va_of(va) / 4096 < VPN_COUNT);
        assert(bytes_at(m2@, cells.take(n))[k] == data.take(n)[k]);
        assert(cells.take(n)[k] == cell(m@, ms.root(), va));
        assert(cell(m2@, ms.root(), va) == cell(m@, ms.root(), va));
    }
    assert forall|va: u64|
        framed(ms, va) && (forall|k: int|
            0 <= k < n ==> va_of(va) != va_of(#[trigger] ((ptr + k) as u64))) implies
        #[trigger] user_byte(m2@, ms.root(), va) == user_byte(m@, ms.root(), va) by {
        let c = cell(m@, ms.root(), va);
        assert(0 <= va_of(va) / 4096 < VPN_COUNT);
        assert(cell(m2@, ms.root(), va) == c);
        lemma_framed(ms, m, va);
        assert forall|k: int| 0 <= k < n implies #[trigger] cells[k] != (c.0, c.1) by {
            assert(framed(ms, (ptr + k) as u64));
            if cells[k] == (c.0, c.1) {
                lemma_places_apart(ms, m, va, (ptr + k) as u64);
            }
        }
        lemma_put_bytes(m@, cells, data, n);
        assert(put_bytes(m@, cells, data, n)[c.0][c.1] == m@[c.0][c.1]);
    }
}

/// Two addresses of a buffer differ in their 39 bits.
proof fn lemma_one_half(ptr: u64, len: u64, i: int, j: int)
    requires
        in_one_half(ptr, len),
        0 <= i < len,
        0 <= j < len,
        i != j,
    ensures
        va_of((ptr + i) as u64) != va_of((ptr + j) as u64),
{
    let base: int = if ptr >= 0xffff_ffc0_0000_0000 {
        0xffff_ff80_0000_0000
    } else {
        0
    };
    assert(va_of((ptr + i) as u64) == ptr + i - base);
    assert(va_of((ptr + j) as u64) == ptr + j - base);
}

/// There is a text at an address: it ends with a zero, and all of it can be reached.
pub open spec fn text_ok(ms: &MemorySet, memory: &Memory, ptr: u64) -> bool {
    exists|n: int| is_text(memory@, ms.root(), ptr, n)
}

/// The bytes of the text at an address, as a name is written in a directory.
pub open spec fn name_at(ms: &MemorySet, memory: &Memory, ptr: u64) -> Seq<u8> {
    encode_utf8(text_at(memory@, ms.root(), ptr))
}

/// The text at an address of a process.
pub(crate) fn user_text(ms: &MemorySet, ptr: u64, memory: &Memory) -> (r: String)
    requires
        ms.wf(memory),
        text_ok(ms, memory, ptr),
    ensures
        encode_utf8(r@) == name_at(ms, memory, ptr),
{
    proof {
        ms.lemma_wf(memory);
        ms.page_table.lemma_walkable(memory);
    }
    let token: u64 = ms.token();
    assert((0x8000_0000_0000_0000 + ms.root()) % 0x1000_0000_0000 == ms.root());
    translated_str(token, ptr, memory)
}

} // verus!
