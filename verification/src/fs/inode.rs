//! Open files.

use vstd::prelude::*;
use vstd::slice::slice_subrange;
use vstd::string::StringSliceAdditionalSpecFns;

use super::stat::{Stat, StatMode, STAT_DIR, STAT_FILE};
use crate::bytes::splice;
use crate::easy_fs::block_dev::BlockDevice;
use crate::easy_fs::dir::{
    content_without, entries, entry_bytes, lemma_links_bounds, lemma_position_found, lemma_tree_content, lookup,
    position, tree_ok, without, EntryView,
};
use crate::easy_fs::efs::EasyFileSystem;
use crate::easy_fs::fs_state::FileView;
use crate::easy_fs::layout::{
    blocks_for, data_count, good_name, lemma_block_count_monotone, MAX_FILE_SIZE,
};
use crate::easy_fs::vfs::{overwritten, same_text, Inode};
use crate::mm::frame_allocator::{same_frames, Memory};
use crate::mm::user::{
    bytes_at, cells_of, in_memory, lemma_cells_index, put_bytes, shorter, UserBuffer, UserSegment,
};

verus! {

/// An open regular file: its inode, what can be done with it, and where the next read or write takes
/// place.
#[derive(Copy, Clone)]
pub struct OSInode {
    pub readable: bool,
    pub writable: bool,
    pub offset: usize,
    pub inode: Inode,
}

/// The bytes that a read of `len` bytes from `offset` on gives.
pub open spec fn read_part(content: Seq<u8>, offset: int, len: int) -> Seq<u8> {
    if offset >= content.len() {
        Seq::empty()
    } else {
        content.subrange(offset, offset + shorter(len, content.len() - offset))
    }
}

impl OSInode {
    /// The file. When it has lost its last name, this is what its inode holds.
    pub open spec fn file<D: BlockDevice>(&self, fs: &EasyFileSystem<D>) -> FileView {
        fs.slots()[self.inode.number(fs.division())]
    }

    /// An open file that stands at its beginning.
    pub fn new(readable: bool, writable: bool, inode: Inode) -> (r: Self)
        ensures
            r.readable == readable,
            r.writable == writable,
            r.offset == 0,
            r.inode == inode,
    {
        OSInode { readable, writable, offset: 0, inode }
    }

    /// All that is left of the file.
    pub fn read_all<D: BlockDevice>(&mut self, fs: &mut EasyFileSystem<D>) -> (r: Vec<u8>)
        requires
            old(fs).wf(),
            old(self).inode.valid(old(fs)),
            old(self).offset + 512 <= usize::MAX,
        ensures
            final(fs).wf(),
            final(fs).same_shape(old(fs)),
            final(fs).disk() == old(fs).disk(),
            final(self).readable == old(self).readable,
            final(self).writable == old(self).writable,
            final(self).inode == old(self).inode,
            ({
                let content = old(self).file(old(fs)).content;
                &&& r@ == read_part(content, old(self).offset as int, content.len() as int)
                &&& final(self).offset == old(self).offset + r@.len()
            }),
    {
        let ghost content = self.file(fs).content;
        let ghost start = self.offset as int;
        let ghost inode = self.inode;
        let mut buffer: [u8; 512] = [0u8; 512];
        let mut v: Vec<u8> = Vec::new();
        proof {
            lemma_file_size(fs, self.inode.number(fs.division()));
        }
        assert(v@ =~= Seq::empty());
        loop
            invariant_except_break
                self.offset == start + v@.len(),
                v@ == read_part(content, start, v@.len() as int),
                start + v@.len() <= content.len() || v@.len() == 0,
            invariant
                fs.wf(),
                fs.same_shape(old(fs)),
                fs.disk() == old(fs).disk(),
                self.readable == old(self).readable,
                self.writable == old(self).writable,
                self.inode == inode,
                inode == old(self).inode,
                inode.valid(fs),
                content == fs.slots()[inode.number(fs.division())].content,
                content == old(self).file(old(fs)).content,
                start == old(self).offset,
                start + 512 <= usize::MAX,
                content.len() <= MAX_FILE_SIZE,
            ensures
                self.offset == start + v@.len(),
                v@ == read_part(content, start, content.len() as int),
            decreases content.len() + 1 - v@.len(),
        {
            let len: usize = self.inode.read_at(self.offset, &mut buffer, fs);
            if len == 0 {
                assert(v@ =~= read_part(content, start, content.len() as int));
                break ;
            }
            self.offset = self.offset + len;
            let ghost before = v@;
            let mut i: usize = 0;
            while i < len
                invariant
                    i <= len <= 512,
                    v@ == before + buffer@.take(i as int),
                decreases len - i,
            {
                v.push(buffer[i]);
                i += 1;
                assert(v@ =~= before + buffer@.take(i as int));
            }
            assert(v@ =~= read_part(content, start, v@.len() as int));
        }
        v
    }

    /// Reads into a buffer of a process, as far as the file and the buffer go, and moves on by as
    /// much. Returns how many bytes were read.
    pub fn read<D: BlockDevice>(
        &mut self,
        buf: &UserBuffer,
        fs: &mut EasyFileSystem<D>,
        memory: &mut Memory,
    ) -> (r: usize)
        requires
            old(fs).wf(),
            old(self).inode.valid(old(fs)),
            old(memory).wf(),
            in_memory(buf.segments@, old(memory)@),
            old(self).offset + buf.cells().len() <= usize::MAX,
        ensures
            final(fs).wf(),
            final(fs).same_shape(old(fs)),
            final(fs).disk() == old(fs).disk(),
            final(self).readable == old(self).readable,
            final(self).writable == old(self).writable,
            final(self).inode == old(self).inode,
            final(self).offset == old(self).offset + r,
            same_frames(old(memory), final(memory)),
            ({
                let part = read_part(
                    old(self).file(old(fs)).content,
                    old(self).offset as int,
                    buf.cells().len() as int,
                );
                &&& r == part.len()
                &&& final(memory)@ == put_bytes(old(memory)@, buf.cells(), part, r as int)
            }),
    {
        let ghost content = self.file(fs).content;
        let ghost start = self.offset as int;
        let ghost inode = self.inode;
        let ghost segs = buf.segments@;
        let ghost cells = buf.cells();
        let ghost mem0 = memory@;
        let ghost part = read_part(content, start, cells.len() as int);
        let mut total: usize = 0;
        let mut i: usize = 0;
        assert(segs.take(0) =~= Seq::empty());
        assert(segs.len() == 0 ==> segs.take(0) =~= segs);
        while i < buf.segments.len()
            invariant_except_break
                i <= segs.len(),
                total == cells_of(segs.take(i as int)).len(),
                total <= part.len(),
                self.offset == start + total,
                i == segs.len() ==> total == cells.len(),
                memory@ == put_bytes(mem0, cells, part, total as int),
            invariant
                fs.wf(),
                fs.same_shape(old(fs)),
                fs.disk() == old(fs).disk(),
                self.readable == old(self).readable,
                self.writable == old(self).writable,
                self.inode == inode,
                inode == old(self).inode,
                inode.valid(fs),
                content == fs.slots()[inode.number(fs.division())].content,
                start == old(self).offset,
                start + cells.len() <= usize::MAX,
                segs == buf.segments@,
                cells == cells_of(segs),
                mem0 == old(memory)@,
                in_memory(segs, mem0),
                memory@.dom() == mem0.dom(),
                memory.wf(),
                same_frames(old(memory), memory),
                part == read_part(content, start, cells.len() as int),
            ensures
                total == part.len(),
                self.offset == start + total,
                memory@ == put_bytes(mem0, cells, part, total as int),
            decreases segs.len() - i,
        {
            let seg: UserSegment = buf.segments[i];
            let ghost before = cells_of(segs.take(i as int)).len() as int;
            proof {
                assert(segs[i as int].wf());
                lemma_cells_index(segs, i as int, segs.len() as int);
                assert(segs.take(segs.len() as int) =~= segs);
                assert(segs.take(i + 1).drop_last() =~= segs.take(i as int));
            }
            assert forall|k: int|
                0 <= k < seg.end - seg.start implies #[trigger] cells[before + k] == (
                seg.ppn.0 as int,
                seg.start + k,
            ) by {
                assert(cells[before + k] == seg.cells()[k]);
            }
            let mut buffer: Vec<u8> = zeros(seg.end - seg.start);
            let len: usize = self.inode.read_at(self.offset, buffer.as_mut_slice(), fs);
            let ghost piece = buffer@.take(len as int);
            if len == 0 {
                assert(total == part.len());
                break ;
            }
            proof {
                memory.lemma_wf();
            }
            memory.write_page(seg.ppn, seg.start, slice_subrange(buffer.as_slice(), 0, len));
            proof {
                assert(piece =~= part.subrange(before, before + len));
                lemma_put_run(mem0, cells, part, before, len as int, seg);
                assert(memory@.dom() =~= mem0.dom());
            }
            self.offset = self.offset + len;
            total += len;
            if len < seg.end - seg.start {
                assert(total == part.len());
                break ;
            }
            i += 1;
            assert(i == segs.len() ==> segs.take(i as int) =~= segs);
        }
        total
    }

    /// Writes a buffer of a process to the file and moves on by as much. Returns how many bytes were
    /// written, which is all of them.
    pub fn write<D: BlockDevice>(
        &mut self,
        buf: &UserBuffer,
        fs: &mut EasyFileSystem<D>,
        memory: &Memory,
    ) -> (r: usize)
        requires
            old(fs).wf(),
            old(self).inode.valid(old(fs)),
            !old(self).file(old(fs)).directory,
            memory.wf(),
            in_memory(buf.segments@, memory@),
            old(self).offset + buf.cells().len() <= MAX_FILE_SIZE,
            blocks_for(old(self).offset + buf.cells().len()) - blocks_for(
                old(self).file(old(fs)).content.len() as int,
            ) <= old(fs).free_blocks(),
        ensures
            final(fs).wf(),
            final(fs).same_shape(old(fs)),
            final(self).inode.valid(final(fs)),
            final(self).readable == old(self).readable,
            final(self).writable == old(self).writable,
            final(self).inode == old(self).inode,
            final(self).offset == old(self).offset + r,
            r == buf.cells().len(),
            ({
                let f = old(self).file(old(fs));
                let content = if r == 0 {
                    f.content
                } else {
                    overwritten(
                        f.content,
                        old(self).offset as int,
                        bytes_at(memory@, buf.cells()),
                    )
                };
                &&& final(fs).changed_at(
                    old(fs),
                    old(self).inode.number(old(fs).division()),
                    (FileView { content, ..f }),
                )
                &&& final(fs).free_blocks() == old(fs).free_blocks() - (blocks_for(
                    content.len() as int,
                ) - blocks_for(f.content.len() as int))
            }),
            final(fs).free_inodes() == old(fs).free_inodes(),
    {
        let ghost f0 = self.file(fs);
        let ghost d = fs.division();
        let ghost id = self.inode.number(d);
        let ghost start = self.offset as int;
        let ghost inode = self.inode;
        let ghost segs = buf.segments@;
        let ghost cells = buf.cells();
        let ghost data = bytes_at(memory@, cells);
        let ghost free0 = fs.free_blocks();
        let mut total: usize = 0;
        let mut i: usize = 0;
        assert(segs.take(0) =~= Seq::empty());
        assert(fs.slots() =~= fs.slots().insert(id, f0));
        assert(fs.live(id) ==> fs.files() =~= fs.files().insert(id, f0));
        while i < buf.segments.len()
            invariant
                i <= segs.len(),
                total == cells_of(segs.take(i as int)).len(),
                total <= cells.len(),
                i == 0 || total > 0,
                self.offset == start + total,
                fs.wf(),
                fs.same_shape(old(fs)),
                fs.division() == d,
                self.readable == old(self).readable,
                self.writable == old(self).writable,
                self.inode == inode,
                inode == old(self).inode,
                inode.valid(fs),
                id == inode.number(d),
                f0 == old(fs).slots()[id],
                !f0.directory,
                start == old(self).offset,
                start + cells.len() <= MAX_FILE_SIZE,
                segs == buf.segments@,
                cells == cells_of(segs),
                memory.wf(),
                in_memory(segs, memory@),
                data == bytes_at(memory@, cells),
                fs.changed_at(
                    old(fs),
                    id,
                    (FileView {
                        content: if total == 0 {
                            f0.content
                        } else {
                            overwritten(f0.content, start, data.take(total as int))
                        },
                        ..f0
                    }),
                ),
                fs.free_blocks() == free0 - (blocks_for(fs.slots()[id].content.len() as int)
                    - blocks_for(f0.content.len() as int)),
                blocks_for(start + cells.len()) - blocks_for(f0.content.len() as int) <= free0,
                fs.free_inodes() == old(fs).free_inodes(),
            decreases segs.len() - i,
        {
            let seg: UserSegment = buf.segments[i];
            let ghost fs1 = *fs;
            let ghost c1 = fs.slots()[id].content;
            proof {
                memory.lemma_wf();
                assert(segs[i as int].wf());
                lemma_cells_index(segs, i as int, segs.len() as int);
                assert(segs.take(segs.len() as int) =~= segs);
                assert(segs.take(i + 1).drop_last() =~= segs.take(i as int));
            }
            let bytes: Vec<u8> = memory.read_page(seg.ppn, seg.start, seg.end);
            let ghost n = bytes@.len() as int;
            proof {
                assert(bytes@ =~= data.subrange(total as int, total + n)) by {
                    assert forall|k: int| 0 <= k < n implies bytes@[k] == #[trigger] data.subrange(
                        total as int,
                        total + n,
                    )[k] by {
                        assert(cells[total + k] == seg.cells()[k]);
                    }
                }
                lemma_blocks_enough(start + total + n, start + cells.len(), c1.len() as int,
                    f0.content.len() as int);
            }
            let write_size: usize = self.inode.write_at(self.offset, bytes.as_slice(), fs);
            proof {
                let c2 = fs.slots()[id].content;
                assert(c2 == overwritten(c1, start + total, bytes@));
                assert(data.take(total as int) + bytes@ =~= data.take(total + n));
                if total == 0 {
                    assert(bytes@ =~= data.take(n));
                } else {
                    lemma_write_on(f0.content, start, data.take(total as int), bytes@);
                }
                let f2 = FileView {
                    content: overwritten(f0.content, start, data.take(total + n)),
                    ..f0
                };
                assert(fs1.live(id) == old(fs).live(id));
                assert(fs.slots() =~= old(fs).slots().insert(id, f2));
                assert(old(fs).live(id) ==> fs.files() =~= old(fs).files().insert(id, f2));
            }
            self.offset = self.offset + write_size;
            total += write_size;
            i += 1;
        }
        proof {
            assert(segs.take(i as int) =~= segs);
            assert(data.take(total as int) =~= data);
        }
        total
    }

    /// What can be learned about the file.
    pub fn get_stat<D: BlockDevice>(&self, fs: &mut EasyFileSystem<D>) -> (r: Option<Stat>)
        requires
            old(fs).wf(),
            self.inode.valid(old(fs)),
        ensures
            final(fs).wf(),
            final(fs).same_shape(old(fs)),
            final(fs).disk() == old(fs).disk(),
            r matches Some(stat) && {
                let f = self.file(old(fs));
                &&& stat.dev == 0
                &&& stat.ino == self.inode.number(old(fs).division())
                &&& stat.mode.bits == (if f.directory {
                    STAT_DIR
                } else {
                    STAT_FILE
                })
                &&& stat.nlink == f.nlink
                &&& stat.pad@ == Seq::new(7, |i: int| 0u64)
            },
    {
        let ino: u32 = self.inode.get_inode_id(fs.inode_area_start_block as usize);
        let (mode, nlink) = self.inode.stat(fs);
        let bits: u32 = if mode == 1 {
            STAT_DIR
        } else {
            STAT_FILE
        };
        let pad: [u64; 7] = [0u64; 7];
        assert(pad@ =~= Seq::new(7, |i: int| 0u64));
        Some(Stat { dev: 0, ino: ino as u64, mode: StatMode { bits }, nlink, pad })
    }
}

/// So many zeros.
fn zeros(n: usize) -> (r: Vec<u8>)
    ensures
        r@ == Seq::new(n as nat, |i: int| 0u8),
{
    let mut r: Vec<u8> = Vec::new();
    let mut i: usize = 0;
    while i < n
        invariant
            i <= n,
            r@.len() == i,
            forall|j: int| 0 <= j < i ==> #[trigger] r@[j] == 0,
        decreases n - i,
    {
        r.push(0);
        i += 1;
    }
    assert(r@ =~= Seq::new(n as nat, |i: int| 0u8));
    r
}

/// Two writes, one right behind the other, are one write.
pub proof fn lemma_write_on(c: Seq<u8>, offset: int, a: Seq<u8>, b: Seq<u8>)
    requires
        0 <= offset,
    ensures
        overwritten(overwritten(c, offset, a), offset + a.len(), b) == overwritten(
            c,
            offset,
            a + b,
        ),
{
    assert(overwritten(overwritten(c, offset, a), offset + a.len(), b) =~= overwritten(
        c,
        offset,
        a + b,
    ));
}

/// The blocks for the whole are enough for a part.
proof fn lemma_blocks_enough(part: int, whole: int, now: int, before: int)
    requires
        0 <= part <= whole,
        0 <= before <= now,
    ensures
        blocks_for(part) <= blocks_for(whole),
        blocks_for(before) <= blocks_for(now),
{
    lemma_block_count_monotone(data_count(part), data_count(whole));
    lemma_block_count_monotone(data_count(before), data_count(now));
}

/// Copying bytes into a run of a page is putting them to its places.
proof fn lemma_put_run(
    mem: Map<int, Seq<u8>>,
    cells: Seq<(int, int)>,
    data: Seq<u8>,
    from: int,
    n: int,
    seg: UserSegment,
)
    requires
        0 <= from,
        0 <= n <= seg.end - seg.start,
        from + n <= cells.len(),
        from + n <= data.len(),
        seg.end <= put_bytes(mem, cells, data, from)[seg.ppn.0 as int].len(),
        forall|k: int|
            0 <= k < n ==> #[trigger] cells[from + k] == (seg.ppn.0 as int, seg.start + k),
    ensures
        ({
            let m = put_bytes(mem, cells, data, from);
            let p = seg.ppn.0 as int;
            n > 0 ==> put_bytes(mem, cells, data, from + n) == m.insert(
                p,
                splice(m[p], seg.start as int, data.subrange(from, from + n)),
            )
        }),
    decreases n,
{
    let m = put_bytes(mem, cells, data, from);
    let p = seg.ppn.0 as int;
    if n > 0 {
        assert(cells[from + (n - 1)] == (p, seg.start + (n - 1)));
        let m1 = put_bytes(mem, cells, data, from + n - 1);
        let m2 = put_bytes(mem, cells, data, from + n);
        let want = splice(m[p], seg.start as int, data.subrange(from, from + n));
        if n > 1 {
            lemma_put_run(mem, cells, data, from, n - 1, seg);
            assert(m2 =~= m.insert(
                p,
                splice(m[p], seg.start as int, data.subrange(from, from + n - 1)).update(
                    seg.start + (n - 1),
                    data[from + n - 1],
                ),
            ));
            assert(splice(m[p], seg.start as int, data.subrange(from, from + n - 1)).update(
                seg.start + (n - 1),
                data[from + n - 1],
            ) =~= want);
        } else {
            assert(m[p].update(seg.start as int, data[from]) =~= want);
        }
    }
}

/// A file is not longer than the longest file.
pub proof fn lemma_file_size<D: BlockDevice>(fs: &EasyFileSystem<D>, i: int)
    requires
        fs.wf(),
        fs.division().slot(i),
    ensures
        fs.slots()[i].content.len() <= MAX_FILE_SIZE,
{
    let d = fs.division();
    assert(d.file_sound(fs.disk(), i));
}

/// Open for reading only.
pub const OPEN_RDONLY: u32 = 0;

/// Open for writing only.
pub const OPEN_WRONLY: u32 = 0x1;

/// Open for reading and writing.
pub const OPEN_RDWR: u32 = 0x2;

/// Make the file if it is not there.
pub const OPEN_CREATE: u32 = 0x200;

/// Take away what the file holds.
pub const OPEN_TRUNC: u32 = 0x400;

/// How a file is to be opened.
#[derive(Copy, Clone, PartialEq, Eq, Structural)]
pub struct OpenFlags {
    pub bits: u32,
}

impl OpenFlags {
    /// All of these bits are set.
    pub open spec fn has(self, bits: u32) -> bool {
        self.bits & bits == bits
    }

    /// Flags of these bits, `None` if one of them means nothing.
    pub fn from_bits(bits: u32) -> (r: Option<Self>)
        ensures
            r == (if bits & !0x603u32 == 0 {
                Some(OpenFlags { bits })
            } else {
                None
            }),
    {
        let known: u32 = OPEN_WRONLY | OPEN_RDWR | OPEN_CREATE | OPEN_TRUNC;
        assert(0x1u32 | 0x2u32 | 0x200u32 | 0x400u32 == 0x603u32) by (bit_vector);
        if bits & !known == 0 {
            Some(OpenFlags { bits })
        } else {
            None
        }
    }

    /// Whether all of these bits are set.
    pub fn contains(&self, bits: u32) -> (r: bool)
        ensures
            r == self.has(bits),
    {
        self.bits & bits == bits
    }

    /// Whether the file can be read, and whether it can be written.
    pub fn read_write(&self) -> (r: (bool, bool))
        ensures
            r == self.access(),
    {
        if self.bits == 0 {
            (true, false)
        } else if self.contains(OPEN_WRONLY) {
            (false, true)
        } else {
            (true, true)
        }
    }

    /// Whether the file can be read, and whether it can be written.
    pub open spec fn access(self) -> (bool, bool) {
        (self.bits == 0 || !self.has(OPEN_WRONLY), self.bits != 0)
    }
}

/// The number of the file of that name.
pub open spec fn file_named<D: BlockDevice>(fs: &EasyFileSystem<D>, name: Seq<u8>) -> Option<int> {
    lookup(entries(fs.files()[0].content), name)
}

/// There is room for another file of that name.
pub open spec fn can_create<D: BlockDevice>(fs: &EasyFileSystem<D>, name: Seq<u8>) -> bool {
    &&& good_name(name)
    &&& fs.can_take_entry()
    &&& fs.free_inodes() > 0
}

/// `fs2` is `fs` with an empty file of that name, which has number `id`.
pub open spec fn created<D: BlockDevice>(
    fs: &EasyFileSystem<D>,
    fs2: &EasyFileSystem<D>,
    name: Seq<u8>,
    id: int,
) -> bool {
    let root = fs.files()[0];
    &&& !fs.live(id)
    &&& forall|j: int| 0 <= j < id ==> #[trigger] fs.live(j)
    &&& fs2.files() == fs.files().insert(
        id,
        (FileView { content: Seq::empty(), nlink: 1, directory: false }),
    ).insert(0, (FileView { content: root.content + entry_bytes(name, id as u32), ..root }))
    &&& fs2.slots() == fs.slots().insert(id, fs2.files()[id]).insert(0, fs2.files()[0])
    &&& entries(fs2.files()[0].content) == entries(root.content).push(EntryView { name, id })
    &&& fs2.free_inodes() == fs.free_inodes() - 1
    &&& fs2.free_blocks() == fs.free_blocks() - fs.blocks_for_entry()
}

/// `fs2` is `fs` with nothing in file `id`.
pub open spec fn emptied<D: BlockDevice>(
    fs: &EasyFileSystem<D>,
    fs2: &EasyFileSystem<D>,
    id: int,
) -> bool {
    let f = fs.files()[id];
    &&& fs2.files() == fs.files().insert(id, (FileView { content: Seq::empty(), ..f }))
    &&& fs2.slots() == fs.slots().insert(id, fs2.files()[id])
    &&& fs2.free_blocks() == fs.free_blocks() + blocks_for(f.content.len() as int)
    &&& fs2.free_set() == fs.free_set().union(fs.blocks_of(id).to_set())
    &&& fs2.free_inodes() == fs.free_inodes()
}

/// The root directory of a file system is there and in order.
pub open spec fn rooted<D: BlockDevice>(fs: &EasyFileSystem<D>) -> bool {
    &&& fs.wf()
    &&& tree_ok(fs.files())
}

/// Opens the file of that name. With `OPEN_CREATE` it is made if it is not there and emptied if it
/// is; with `OPEN_TRUNC` it is emptied. Without `OPEN_CREATE` there may be no such file: `None`.
pub fn open_file<D: BlockDevice>(
    name: &str,
    flags: OpenFlags,
    fs: &mut EasyFileSystem<D>,
) -> (r: Option<OSInode>)
    requires
        rooted(old(fs)),
        flags.has(OPEN_CREATE) && file_named(old(fs), name.spec_bytes()) is None ==> can_create(
            old(fs),
            name.spec_bytes(),
        ),
    ensures
        rooted(final(fs)),
        final(fs).same_shape(old(fs)),
        match file_named(old(fs), name.spec_bytes()) {
            Some(id) => {
                &&& r is Some
                &&& r->0.inode.number(final(fs).division()) == id
                &&& if flags.has(OPEN_CREATE) || flags.has(OPEN_TRUNC) {
                    emptied(old(fs), final(fs), id)
                } else {
                    final(fs).disk() == old(fs).disk()
                }
            },
            None => if flags.has(OPEN_CREATE) {
                &&& r is Some
                &&& created(
                    old(fs),
                    final(fs),
                    name.spec_bytes(),
                    r->0.inode.number(final(fs).division()),
                )
            } else {
                r is None && final(fs).disk() == old(fs).disk()
            },
        },
        r matches Some(file) ==> {
            &&& file.inode.valid(final(fs))
            &&& (file.readable, file.writable) == flags.access()
            &&& file.offset == 0
        },
{
    let (readable, writable) = flags.read_write();
    let root: Inode = fs.root_inode();
    if flags.contains(OPEN_CREATE) {
        if let Some(inode) = root.find(name, fs) {
            let ghost files = fs.files();
            let ghost id = inode.number(fs.division());
            proof {
                lemma_named(files, name.spec_bytes());
            }
            inode.clear(fs);
            proof {
                lemma_tree_content(files, fs.files(), id);
            }
            Some(OSInode::new(readable, writable, inode))
        } else {
            let ghost fs1 = *fs;
            match root.create(name, fs) {
                Some(inode) => {
                    assert forall|j: int|
                        0 <= j < inode.number(fs.division()) implies #[trigger] old(fs).live(j) by {
                        assert(fs1.live(j));
                    }
                    Some(OSInode::new(readable, writable, inode))
                },
                None => None,
            }
        }
    } else {
        match root.find(name, fs) {
            Some(inode) => {
                if flags.contains(OPEN_TRUNC) {
                    let ghost files = fs.files();
                    let ghost id = inode.number(fs.division());
                    proof {
                        lemma_named(files, name.spec_bytes());
                    }
                    inode.clear(fs);
                    proof {
                        lemma_tree_content(files, fs.files(), id);
                    }
                }
                Some(OSInode::new(readable, writable, inode))
            },
            None => None,
        }
    }
}

/// A file with a name is a regular file.
pub proof fn lemma_named(files: Map<int, FileView>, name: Seq<u8>)
    requires
        tree_ok(files),
    ensures
        lookup(entries(files[0].content), name) matches Some(id) ==> id != 0
            && files.dom().contains(id) && !files[id].directory,
{
    let es = entries(files[0].content);
    lemma_position_found(es, name);
    if lookup(es, name) is Some {
        assert(es[position(es, name)].id != 0);
    }
}

/// `fs2` is `fs` where file `id` has one name more.
pub open spec fn linked<D: BlockDevice>(
    fs: &EasyFileSystem<D>,
    fs2: &EasyFileSystem<D>,
    name: Seq<u8>,
    id: int,
) -> bool {
    let root = fs.files()[0];
    let f = fs.files()[id];
    &&& fs2.files() == fs.files().insert(id, (FileView { nlink: (f.nlink + 1) as u8, ..f })).insert(
        0,
        (FileView { content: root.content + entry_bytes(name, id as u32), ..root }),
    )
    &&& fs2.slots() == fs.slots().insert(id, fs2.files()[id]).insert(0, fs2.files()[0])
    &&& entries(fs2.files()[0].content) == entries(root.content).push(EntryView { name, id })
    &&& fs2.free_inodes() == fs.free_inodes()
    &&& fs2.free_blocks() == fs.free_blocks() - fs.blocks_for_entry()
}

/// `fs2` is `fs` without that name; the file behind it is gone if it had no other.
pub open spec fn unlinked<D: BlockDevice>(
    fs: &EasyFileSystem<D>,
    fs2: &EasyFileSystem<D>,
    name: Seq<u8>,
) -> bool {
    let root = fs.files()[0];
    let es = entries(root.content);
    let k = position(es, name);
    let id = es[k].id;
    let f = fs.files()[id];
    let root2 = FileView { content: content_without(root.content, k), ..root };
    &&& entries(root2.content) == without(es, k)
    &&& if f.nlink > 1 {
        &&& fs2.files() == fs.files().insert(
            id,
            (FileView { nlink: (f.nlink - 1) as u8, ..f }),
        ).insert(0, root2)
        &&& fs2.slots() == fs.slots().insert(id, fs2.files()[id]).insert(0, root2)
        &&& fs2.free_inodes() == fs.free_inodes()
        &&& fs2.free_set() == fs.free_set()
        &&& fs2.blocks_of(id) == fs.blocks_of(id)
    } else {
        &&& fs2.files() == fs.files().remove(id).insert(0, root2)
        &&& fs2.slots() == fs.slots().insert(
            id,
            (FileView { content: Seq::empty(), nlink: 0, ..f }),
        ).insert(0, root2)
        &&& fs2.free_inodes() == fs.free_inodes() + 1
        &&& fs2.free_blocks() == fs.free_blocks() + blocks_for(f.content.len() as int)
        &&& fs2.free_set() == fs.free_set().union(fs.blocks_of(id).to_set())
    }
}

/// There is room for `new_name` as another name of the file `old_name`, if that file is there and
/// the new name is not taken.
pub open spec fn can_link<D: BlockDevice>(
    fs: &EasyFileSystem<D>,
    old_name: Seq<u8>,
    new_name: Seq<u8>,
) -> bool {
    file_named(fs, old_name) is Some && file_named(fs, new_name) is None ==> {
        &&& good_name(new_name)
        &&& fs.can_take_entry()
        &&& fs.files()[file_named(fs, old_name)->0].nlink < 255
    }
}

/// Gives a file another name. `None` if both names are the same, if there is no file of the old name
/// or if the new one is taken.
pub fn link_file<D: BlockDevice>(
    old_name: &str,
    new_name: &str,
    fs: &mut EasyFileSystem<D>,
) -> (r: Option<()>)
    requires
        rooted(old(fs)),
        can_link(old(fs), old_name.spec_bytes(), new_name.spec_bytes()),
    ensures
        rooted(final(fs)),
        final(fs).same_shape(old(fs)),
        r is Some <==> {
            &&& old_name.spec_bytes() != new_name.spec_bytes()
            &&& file_named(old(fs), old_name.spec_bytes()) is Some
            &&& file_named(old(fs), new_name.spec_bytes()) is None
        },
        r is Some ==> linked(
            old(fs),
            final(fs),
            new_name.spec_bytes(),
            file_named(old(fs), old_name.spec_bytes())->0,
        ),
        r is None ==> final(fs).disk() == old(fs).disk(),
{
    if same_text(old_name, new_name) {
        return None;
    }
    let root: Inode = fs.root_inode();
    root.link(old_name, new_name, fs)
}

/// Takes a name away. `None` if there is no such name.
pub fn unlink_file<D: BlockDevice>(name: &str, fs: &mut EasyFileSystem<D>) -> (r: Option<()>)
    requires
        rooted(old(fs)),
    ensures
        rooted(final(fs)),
        final(fs).same_shape(old(fs)),
        r is Some <==> file_named(old(fs), name.spec_bytes()) is Some,
        r is Some ==> unlinked(old(fs), final(fs), name.spec_bytes()),
        r is None ==> final(fs).disk() == old(fs).disk(),
{
    let root: Inode = fs.root_inode();
    proof {
        lemma_named(fs.files(), name.spec_bytes());
        let es = entries(fs.files()[0].content);
        lemma_position_found(es, name.spec_bytes());
        let id = es[position(es, name.spec_bytes())].id;
        lemma_links_bounds(es, id);
        assert(position(es, name.spec_bytes()) < es.len() ==> fs.files().dom().contains(id));
    }
    root.unlink(name, fs)
}

} // verus!
