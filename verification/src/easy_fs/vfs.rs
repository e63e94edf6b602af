//! Files and directories as the users of the file system see them.

use vstd::prelude::*;
use vstd::string::StringSliceAdditionalSpecFns;
use vstd::utf8::{encode_utf8, encode_utf8_valid_utf8};

use super::block_dev::{whole_blocks, BlockDevice, BLOCK_SZ};
use super::codec::DiskLayout;
use super::dir::{
    all_readable, content_without, entries, entry_bytes, entry_in, lemma_content_without,
    lemma_links_bounds, lemma_position, lemma_position_found, lemma_tree_with, lemma_tree_without,
    lookup, position, raw_entry, readable, tree_ok, without, EntryView,
};
use super::efs::EasyFileSystem;
use super::fs_state::{Division, FileView};
use super::layout::{
    blocks_for, can_grow, data_count, good_name, growth, grown, lemma_block_count_monotone,
    lemma_content_of_room, lemma_grown_room, lemma_in_order_reaches, on_disk, read_end, read_into, read_len,
    written, DirEntry, DiskInode, DiskInodeType, InodeView, DIRENT_SZ, MAX_FILE_SIZE,
};
use crate::bytes::{lemma_u32_bytes, splice, u32_bytes, zero_from};

verus! {

/// A handle to an inode: where it lies on the disk. The file system itself is an argument of the
/// methods.
#[derive(Copy, Clone, Debug)]
pub struct Inode {
    block_id: usize,
    block_offset: usize,
}

/// `c` with `buf` written over it from `offset` on; zeros fill the gap if there is one.
pub open spec fn overwritten(c: Seq<u8>, offset: int, buf: Seq<u8>) -> Seq<u8> {
    Seq::new(
        if c.len() <= offset + buf.len() {
            (offset + buf.len()) as nat
        } else {
            c.len()
        },
        |k: int|
            if offset <= k < offset + buf.len() {
                buf[k - offset]
            } else if k < c.len() {
                c[k]
            } else {
                0u8
            },
    )
}

impl Inode {
    /// The number of the inode on a disk that is divided like this.
    pub open spec fn number(&self, d: Division) -> int {
        (self.block() - d.inode_start()) * 4 + self.offset() / 128
    }

    /// The block in which the inode lies.
    pub closed spec fn block(&self) -> int {
        self.block_id as int
    }

    /// Where in its block the inode lies.
    pub closed spec fn offset(&self) -> int {
        self.block_offset as int
    }

    /// The handle is that of an inode of the disk. The inode need not be in use: when a file loses its
    /// last name, handles to it stay.
    pub open spec fn valid<D: BlockDevice>(&self, fs: &EasyFileSystem<D>) -> bool {
        let i = self.number(fs.division());
        &&& fs.division().slot(i)
        &&& self.block() == fs.division().inode_start() + i / 4
        &&& self.offset() == i % 4 * 128
    }

    /// The number of bytes of the file.
    pub fn size<D: BlockDevice>(&self, fs: &mut EasyFileSystem<D>) -> (r: u32)
        requires
            old(fs).wf(),
            self.valid(old(fs)),
        ensures
            final(fs).wf(),
            final(fs).same_shape(old(fs)),
            final(fs).disk() == old(fs).disk(),
            r == old(fs).slots()[self.number(old(fs).division())].content.len(),
            r <= MAX_FILE_SIZE,
    {
        let ghost d = fs.division();
        let ghost i = self.number(d);
        assert(d.file_sound(fs.disk(), i));
        let disk_inode: DiskInode = self.read_disk_inode(fs);
        disk_inode.size
    }

    /// The inode as it is on the disk.
    fn read_disk_inode<D: BlockDevice>(&self, fs: &mut EasyFileSystem<D>) -> (r: DiskInode)
        requires
            old(fs).wf(),
            self.valid(old(fs)),
        ensures
            final(fs).wf(),
            final(fs).same_shape(old(fs)),
            final(fs).disk() == old(fs).disk(),
            r@ == old(fs).division().inode(old(fs).disk(), self.number(old(fs).division())),
    {
        assert(fs.disk().dom().contains(self.block_id as int));
        let r: DiskInode = fs.cache.load(self.block_id, self.block_offset);
        r
    }

    /// Stores the inode; with that a change of the file is complete.
    fn store_disk_inode<D: BlockDevice>(
        &self,
        disk_inode: &DiskInode,
        fs: &mut EasyFileSystem<D>,
        Ghost(disk): Ghost<Map<int, Seq<u8>>>,
    )
        requires
            old(fs).placed(),
            self.valid(old(fs)),
            old(fs).division().sound(disk),
            old(fs).division().changing(
                disk,
                old(fs).disk(),
                self.number(old(fs).division()),
                disk_inode@,
            ),
        ensures
            final(fs).wf(),
            final(fs).same_shape(old(fs)),
            self.valid(final(fs)),
            ({
                let d = old(fs).division();
                let i = self.number(d);
                let f = FileView {
                    content: disk_inode@.content(old(fs).disk()),
                    nlink: disk_inode@.nlink,
                    directory: disk_inode@.directory,
                };
                &&& final(fs).slots() == d.slots(disk).insert(i, f)
                &&& final(fs).files() == (if d.live(disk, i) {
                    d.files(disk).insert(i, f)
                } else {
                    d.files(disk)
                })
            }),
            final(fs).division().free_data(final(fs).disk()) == old(fs).division().free_data(
                old(fs).disk(),
            ),
            final(fs).division().free_inodes(final(fs).disk()) == old(fs).division().free_inodes(
                disk,
            ),
            final(fs).division().inode(final(fs).disk(), self.number(old(fs).division()))
                == disk_inode@,
            final(fs).division().blocks(final(fs).disk(), self.number(old(fs).division()))
                == disk_inode@.all_blocks(old(fs).disk()),
            forall|j: int| #[trigger] final(fs).live(j) == old(fs).live(j),
            forall|j: int| #[trigger] final(fs).live(j) == old(fs).division().live(disk, j),
            forall|j: int|
                j != self.number(old(fs).division()) && old(fs).division().slot(j) ==>
                    #[trigger] final(fs).division().blocks(final(fs).disk(), j) == old(
                    fs,
                ).division().blocks(disk, j),
    {
        let ghost d = fs.division();
        let ghost disk2 = fs.disk();
        let ghost i = self.number(d);
        proof {
            fs.cache.lemma_whole_blocks();
        }
        assert(fs.disk().dom().contains(self.block_id as int));
        fs.cache.store(self.block_id, self.block_offset, disk_inode);
        proof {
            d.lemma_outside_inodes(disk, disk2);
            d.lemma_stored(disk, disk2, fs.disk(), i, disk_inode@);
        }
    }

    /// Gives the file blocks for `new_size` bytes if it is shorter. The inode is changed in memory
    /// only.
    fn increase_size<D: BlockDevice>(
        &self,
        new_size: u32,
        disk_inode: &mut DiskInode,
        fs: &mut EasyFileSystem<D>,
    )
        requires
            old(fs).wf(),
            self.valid(old(fs)),
            old(disk_inode)@ == old(fs).division().inode(
                old(fs).disk(),
                self.number(old(fs).division()),
            ),
            new_size <= MAX_FILE_SIZE,
            blocks_for(new_size as int) - blocks_for(old(disk_inode).size as int) <= old(
                fs,
            ).free_blocks(),
        ensures
            final(fs).placed(),
            final(fs).same_shape(old(fs)),
            self.valid(final(fs)),
            old(fs).division().changing(
                old(fs).disk(),
                final(fs).disk(),
                self.number(old(fs).division()),
                final(disk_inode)@,
            ),
            final(disk_inode)@.size == (if new_size <= old(disk_inode).size {
                old(disk_inode).size
            } else {
                new_size
            }),
            final(disk_inode)@.nlink == old(disk_inode)@.nlink,
            final(disk_inode)@.directory == old(disk_inode)@.directory,
            final(disk_inode)@.content(final(fs).disk()).take(old(disk_inode).size as int) == old(
                disk_inode,
            )@.content(old(fs).disk()),
            final(disk_inode)@.directory || zero_from(
                final(disk_inode)@.content(final(fs).disk()),
                old(disk_inode).size as int,
            ),
            final(fs).free_blocks() == old(fs).free_blocks() - (if new_size <= old(
                disk_inode,
            ).size {
                0
            } else {
                blocks_for(new_size as int) - blocks_for(old(disk_inode).size as int)
            }),
    {
        let ghost d = fs.division();
        let ghost disk = fs.disk();
        let ghost i = self.number(d);
        let ghost v = disk_inode@;
        let ghost free = d.free_data(disk);
        assert(d.file_sound(disk, i));
        proof {
            d.lemma_free_finite(disk);
        }
        if new_size <= disk_inode.size {
            proof {
                assert forall|b: int| #[trigger] v.all_blocks(disk).contains(b) implies d.is_data(b)
                    && d.taken(disk, b - d.data_start()) && d.owns(disk, i, b) by {
                    assert(d.owns(disk, i, b));
                }
                assert(v.content(disk).take(v.size as int) =~= v.content(disk));
            }
            return ;
        }
        let blocks_needed: u32 = disk_inode.blocks_num_needed(new_size);
        let mut new_blocks: Vec<u32> = Vec::new();
        let mut k: u32 = 0;
        while k < blocks_needed
            invariant
                k <= blocks_needed,
                new_blocks@.len() == k,
                blocks_needed <= free.len(),
                free.finite(),
                free == d.free_data(disk),
                fs.wf(),
                fs.division() == d,
                fs.same_shape(old(fs)),
                fs.disk().dom() == disk.dom(),
                forall|b: int|
                    !(d.data_bitmap_start() <= b < d.data_start()) ==> #[trigger] fs.disk()[b]
                        == disk[b],
                forall|j: int|
                    0 <= j < k ==> free.contains(#[trigger] new_blocks@[j] as int),
                forall|j: int, l: int|
                    0 <= j < l < k ==> #[trigger] new_blocks@[j] != #[trigger] new_blocks@[l],
                d.free_data(fs.disk()).len() == free.len() - k,
                d.free_data(fs.disk()).finite(),
                forall|b: int|
                    #[trigger] d.free_data(fs.disk()).contains(b) ==> free.contains(b)
                        && forall|j: int| 0 <= j < k ==> #[trigger] new_blocks@[j] != b,
                forall|b: int|
                    free.contains(b) && (forall|j: int|
                        0 <= j < k ==> #[trigger] new_blocks@[j] != b) ==> #[trigger] d.free_data(
                        fs.disk(),
                    ).contains(b),
            decreases blocks_needed - k,
        {
            let ghost now = d.free_data(fs.disk());
            assert(now.len() > 0);
            assert(now.contains(now.choose()));
            let ghost list = new_blocks@;
            let b: u32 = fs.alloc_data();
            new_blocks.push(b);
            k += 1;
            proof {
                assert forall|x: int| #[trigger] d.free_data(fs.disk()).contains(x) implies free.contains(x)
                    && forall|j: int| 0 <= j < k ==> #[trigger] new_blocks@[j] != x by {
                    assert(now.contains(x));
                }
                assert forall|x: int|
                    free.contains(x) && (forall|j: int|
                        0 <= j < k ==> #[trigger] new_blocks@[j] != x) implies #[trigger] d.free_data(
                    fs.disk(),
                ).contains(x) by {
                    assert(new_blocks@[k - 1] != x);
                    assert forall|j: int| 0 <= j < k - 1 implies #[trigger] list[j] != x by {
                        assert(new_blocks@[j] == list[j]);
                    }
                    assert(now.contains(x));
                }
            }
        }
        let ghost disk1 = fs.disk();
        let ghost list = new_blocks@;
        proof {
            d.lemma_outside_inodes(disk, disk1);
            lemma_taken_list(d, disk, disk1, i, new_size, list);
            fs.cache.lemma_whole_blocks();
        }
        disk_inode.increase_size(new_size, new_blocks, &mut fs.cache);
        proof {
            lemma_grown_changing(d, disk, disk1, fs.disk(), i, new_size, list, disk_inode@);
        }
    }

    /// Gives back the blocks that the file had on `disk` and no longer has.
    fn give_back<D: BlockDevice>(
        &self,
        blocks: &Vec<u32>,
        fs: &mut EasyFileSystem<D>,
        Ghost(disk): Ghost<Map<int, Seq<u8>>>,
    )
        requires
            old(fs).wf(),
            self.valid(old(fs)),
            old(fs).division().sound(disk),
            blocks@.map_values(|b: u32| b as int) == old(fs).division().blocks(
                disk,
                self.number(old(fs).division()),
            ),
            old(fs).division().blocks(old(fs).disk(), self.number(old(fs).division())).len() == 0,
            forall|j: int| #[trigger] old(fs).live(j) == old(fs).division().live(disk, j),
            old(fs).division().free_data(old(fs).disk()) == old(fs).division().free_data(disk),
            forall|j: int|
                j != self.number(old(fs).division()) && old(fs).division().slot(j)
                    ==> #[trigger] old(fs).division().blocks(old(fs).disk(), j) == old(fs).division().blocks(disk, j),
        ensures
            final(fs).wf(),
            final(fs).same_shape(old(fs)),
            self.valid(final(fs)),
            final(fs).files() == old(fs).files(),
            final(fs).slots() == old(fs).slots(),
            final(fs).division().inode(final(fs).disk(), self.number(old(fs).division())) == old(
                fs,
            ).division().inode(old(fs).disk(), self.number(old(fs).division())),
            final(fs).free_blocks() == old(fs).free_blocks() + blocks@.len(),
            final(fs).free_set() == old(fs).free_set().union(
                old(fs).division().blocks(disk, self.number(old(fs).division())).to_set(),
            ),
            final(fs).division().free_inodes(final(fs).disk()) == old(fs).division().free_inodes(
                old(fs).disk(),
            ),
            forall|j: int| #[trigger] final(fs).live(j) == old(fs).live(j),
    {
        let ghost d = fs.division();
        let ghost disk1 = fs.disk();
        let ghost i = self.number(d);
        let ghost all = d.blocks(disk, i);
        proof {
            assert(d.file_sound(disk, i));
            d.lemma_free_finite(disk);
            assert forall|j: int, b: int|
                d.slot(j) && #[trigger] d.owns(disk1, j, b) implies j != i && d.owns(disk, j, b) by {}
        }
        let mut k: usize = 0;
        assert(all.take(0) =~= Seq::empty());
        assert(d.free_data(fs.disk()) =~= d.free_data(disk).union(all.take(0).to_set()));
        while k < blocks.len()
            invariant
                k <= blocks@.len(),
                fs.wf(),
                fs.division() == d,
                fs.same_shape(old(fs)),
                i == self.number(d),
                all == d.blocks(disk, i),
                d.sound(disk),
                d.slot(i),
                d.file_sound(disk, i),
                blocks@.map_values(|b: u32| b as int) == all,
                fs.files() == d.files(disk1),
                fs.slots() == d.slots(disk1),
                forall|j: int| #[trigger] d.live(fs.disk(), j) == d.live(disk1, j),
                d.inode(fs.disk(), i) == d.inode(disk1, i),
                forall|j: int| #[trigger] d.live(disk1, j) == old(fs).live(j),
                forall|j: int, b: int|
                    d.slot(j) && #[trigger] d.owns(fs.disk(), j, b) ==> j != i && d.owns(
                        disk,
                        j,
                        b,
                    ),
                d.free_data(fs.disk()).len() == d.free_data(disk).len() + k,
                d.free_data(fs.disk()).finite(),
                d.free_data(fs.disk()) == d.free_data(disk).union(all.take(k as int).to_set()),
                forall|b: int|
                    #[trigger] d.free_data(fs.disk()).contains(b) ==> d.free_data(disk).contains(b)
                        || exists|p: int| 0 <= p < k && #[trigger] all[p] == b,
            decreases blocks@.len() - k,
        {
            let b: u32 = blocks[k];
            let ghost now = fs.disk();
            proof {
                assert(all[k as int] == b);
                assert(d.owns(disk, i, b as int));
                assert(!d.free_data(now).contains(b as int));
                assert forall|j: int| #[trigger] d.slot(j) implies !d.owns(now, j, b as int) by {}
            }
            fs.dealloc_data(b);
            k += 1;
            proof {
                assert(all.take(k as int) =~= all.take(k - 1).push(b as int));
                assert(d.free_data(fs.disk()) =~= d.free_data(disk).union(
                    all.take(k as int).to_set(),
                )) by {
                    lemma_push_to_set(all.take(k - 1), b as int);
                }
                assert forall|x: int| #[trigger] d.free_data(fs.disk()).contains(x) implies d.free_data(
                    disk,
                ).contains(x) || exists|p: int| 0 <= p < k && #[trigger] all[p] == x by {
                    if x == b {
                        assert(all[k - 1] == x);
                    } else {
                        assert(d.free_data(now).contains(x));
                    }
                }
                assert forall|j: int| #[trigger] d.live(fs.disk(), j) == d.live(disk1, j) by {
                    assert(fs.live(j) == d.live(now, j));
                }
                assert forall|j: int, x: int|
                    d.slot(j) && #[trigger] d.owns(fs.disk(), j, x) implies j != i && d.owns(
                    disk,
                    j,
                    x,
                ) by {
                    assert(d.owns(now, j, x));
                }
            }
        }
        proof {
            assert(d.free_inodes(fs.disk()) =~= d.free_inodes(disk1));
            assert(all.take(k as int) =~= all);
        }
    }

    /// Reads the file from byte `offset` on into `buf`, as far as the file and the buffer go.
    /// Returns how many bytes were read.
    pub fn read_at<D: BlockDevice>(
        &self,
        offset: usize,
        buf: &mut [u8],
        fs: &mut EasyFileSystem<D>,
    ) -> (r: usize)
        requires
            old(fs).wf(),
            self.valid(old(fs)),
            offset + old(buf)@.len() <= usize::MAX,
        ensures
            final(fs).wf(),
            final(fs).same_shape(old(fs)),
            final(fs).disk() == old(fs).disk(),
            ({
                let content = old(fs).slots()[self.number(old(fs).division())].content;
                &&& r == read_len(offset as int, old(buf)@.len() as int, content.len() as int)
                &&& read_into(old(buf)@, final(buf)@, content, offset as int, r as int)
            }),
    {
        let ghost d = fs.division();
        let ghost i = self.number(d);
        assert(d.file_sound(fs.disk(), i));
        let disk_inode: DiskInode = self.read_disk_inode(fs);
        proof {
            let v = disk_inode@;
            let end = read_end(offset as int, buf@.len() as int, v.size as int);
            assert forall|k: int| offset as int / 512 <= k < data_count(end) implies #[trigger] v.reaches(
                fs.disk(),
                k,
            ) by {
                lemma_in_order_reaches(v, fs.disk(), k);
            }
        }
        disk_inode.read_at(offset, buf, &mut fs.cache)
    }

    /// Writes `buf` to the file from byte `offset` on, without writing the cache back.
    fn write_cached<D: BlockDevice>(
        &self,
        offset: usize,
        buf: &[u8],
        fs: &mut EasyFileSystem<D>,
    ) -> (r: usize)
        requires
            old(fs).wf(),
            self.valid(old(fs)),
            offset + buf@.len() <= MAX_FILE_SIZE,
            ({
                let size = old(fs).slots()[self.number(old(fs).division())].content.len() as int;
                blocks_for(offset + buf@.len()) - blocks_for(size) <= old(fs).free_blocks()
            }),
        ensures
            final(fs).wf(),
            final(fs).same_shape(old(fs)),
            self.valid(final(fs)),
            r == buf@.len(),
            ({
                let i = self.number(old(fs).division());
                let f = old(fs).slots()[i];
                let f2 = final(fs).slots()[i];
                &&& final(fs).changed_at(old(fs), i, f2)
                &&& f2.nlink == f.nlink
                &&& f2.directory == f.directory
                &&& f2.content.len() == overwritten(f.content, offset as int, buf@).len()
                &&& forall|k: int|
                    0 <= k < f2.content.len() && (k < f.content.len() || offset <= k
                        || !f.directory) ==> #[trigger] f2.content[k] == overwritten(
                        f.content,
                        offset as int,
                        buf@,
                    )[k]
                &&& !f.directory ==> f2.content == overwritten(f.content, offset as int, buf@)
                &&& final(fs).free_blocks() == old(fs).free_blocks() - (blocks_for(
                    f2.content.len() as int,
                ) - blocks_for(f.content.len() as int))
            }),
            final(fs).free_inodes() == old(fs).free_inodes(),
    {
        let ghost d = fs.division();
        let ghost disk = fs.disk();
        let ghost i = self.number(d);
        let mut disk_inode: DiskInode = self.read_disk_inode(fs);
        let ghost v = disk_inode@;
        let ghost c = v.content(disk);
        self.increase_size((offset + buf.len()) as u32, &mut disk_inode, fs);
        let ghost disk2 = fs.disk();
        let ghost v2 = disk_inode@;
        let ghost c2 = v2.content(disk2);
        let size: usize = if buf.len() == 0 {
            0
        } else {
            disk_inode.write_at(offset, buf, &mut fs.cache)
        };
        let ghost c3 = v2.content(fs.disk());
        proof {
            assert(buf@.take(buf@.len() as int) =~= buf@);
            if buf@.len() == 0 {
                assert(splice(c2, offset as int, buf@) =~= c2);
            } else {
                lemma_written_changing(d, disk, disk2, fs.disk(), i, v2);
            }
            let w = overwritten(c, offset as int, buf@);
            assert forall|k: int|
                0 <= k < c3.len() && (k < c.len() || offset <= k || !v.directory) implies #[trigger] c3[k]
                == w[k] by {
                assert(c3[k] == splice(c2, offset as int, buf@)[k]);
                if k < c.len() {
                    assert(c2.take(c.len() as int)[k] == c2[k]);
                }
            }
            if !v.directory {
                assert(c3 =~= w);
            }
        }
        self.store_disk_inode(&disk_inode, fs, Ghost(disk));
        size
    }

    /// Writes `buf` to the file from byte `offset` on; the file grows if it has to. Returns how many
    /// bytes were written, which is all of them.
    pub fn write_at<D: BlockDevice>(
        &self,
        offset: usize,
        buf: &[u8],
        fs: &mut EasyFileSystem<D>,
    ) -> (r: usize)
        requires
            old(fs).wf(),
            self.valid(old(fs)),
            offset + buf@.len() <= MAX_FILE_SIZE,
            ({
                let size = old(fs).slots()[self.number(old(fs).division())].content.len() as int;
                blocks_for(offset + buf@.len()) - blocks_for(size) <= old(fs).free_blocks()
            }),
        ensures
            final(fs).wf(),
            final(fs).same_shape(old(fs)),
            final(fs).synced(),
            self.valid(final(fs)),
            r == buf@.len(),
            ({
                let i = self.number(old(fs).division());
                let f = old(fs).slots()[i];
                let f2 = final(fs).slots()[i];
                &&& final(fs).changed_at(old(fs), i, f2)
                &&& f2.nlink == f.nlink
                &&& f2.directory == f.directory
                &&& f2.content.len() == overwritten(f.content, offset as int, buf@).len()
                &&& forall|k: int|
                    0 <= k < f2.content.len() && (k < f.content.len() || offset <= k
                        || !f.directory) ==> #[trigger] f2.content[k] == overwritten(
                        f.content,
                        offset as int,
                        buf@,
                    )[k]
                &&& !f.directory ==> f2.content == overwritten(f.content, offset as int, buf@)
                &&& final(fs).free_blocks() == old(fs).free_blocks() - (blocks_for(
                    f2.content.len() as int,
                ) - blocks_for(f.content.len() as int))
            }),
            final(fs).free_inodes() == old(fs).free_inodes(),
    {
        let size: usize = self.write_cached(offset, buf, fs);
        let ghost fs1 = *fs;
        fs.cache.block_cache_sync_all();
        assert forall|j: int| #[trigger] fs.live(j) == old(fs).live(j) by {
            assert(fs1.live(j) == old(fs).live(j));
        }
        size
    }

    /// Empties the file and gives back all its blocks, without writing the cache back.
    fn clear_cached<D: BlockDevice>(&self, fs: &mut EasyFileSystem<D>)
        requires
            old(fs).wf(),
            self.valid(old(fs)),
        ensures
            final(fs).wf(),
            final(fs).same_shape(old(fs)),
            self.valid(final(fs)),
            ({
                let i = self.number(old(fs).division());
                let f = old(fs).slots()[i];
                &&& final(fs).changed_at(old(fs), i, (FileView { content: Seq::empty(), ..f }))
                &&& final(fs).free_blocks() == old(fs).free_blocks() + blocks_for(
                    f.content.len() as int,
                )
                &&& final(fs).free_set() == old(fs).free_set().union(old(fs).blocks_of(i).to_set())
            }),
            final(fs).free_inodes() == old(fs).free_inodes(),
    {
        let ghost d = fs.division();
        let ghost disk = fs.disk();
        let ghost i = self.number(d);
        assert(d.file_sound(disk, i));
        let mut disk_inode: DiskInode = self.read_disk_inode(fs);
        let ghost v = disk_inode@;
        proof {
            assert forall|k: int| 0 <= k < data_count(v.size as int) implies #[trigger] v.path_on_disk(
                disk,
                k,
            ) by {
                lemma_in_order_reaches(v, disk, k);
            }
        }
        let blocks: Vec<u32> = disk_inode.clear_size(&mut fs.cache);
        proof {
            let v2 = disk_inode@;
            assert(v2.all_blocks(disk) =~= Seq::empty());
            assert(v2.content(disk) =~= Seq::empty());
        }
        self.store_disk_inode(&disk_inode, fs, Ghost(disk));
        self.give_back(&blocks, fs, Ghost(disk));
        proof {
            let all = v.all_blocks(disk);
            assert(blocks@.map_values(|b: u32| b as int).len() == all.len());
            lemma_block_count_monotone(0, data_count(v.size as int));
        }
    }

    /// Empties the file and gives back all its blocks.
    pub fn clear<D: BlockDevice>(&self, fs: &mut EasyFileSystem<D>)
        requires
            old(fs).wf(),
            self.valid(old(fs)),
        ensures
            final(fs).wf(),
            final(fs).same_shape(old(fs)),
            final(fs).synced(),
            self.valid(final(fs)),
            ({
                let i = self.number(old(fs).division());
                let f = old(fs).slots()[i];
                &&& final(fs).changed_at(old(fs), i, (FileView { content: Seq::empty(), ..f }))
                &&& final(fs).free_blocks() == old(fs).free_blocks() + blocks_for(
                    f.content.len() as int,
                )
                &&& final(fs).free_set() == old(fs).free_set().union(old(fs).blocks_of(i).to_set())
            }),
            final(fs).free_inodes() == old(fs).free_inodes(),
    {
        self.clear_cached(fs);
        let ghost fs1 = *fs;
        fs.cache.block_cache_sync_all();
        assert forall|j: int| #[trigger] fs.live(j) == old(fs).live(j) by {
            assert(fs1.live(j) == old(fs).live(j));
        }
    }

    /// Whether the file is a directory (1) or a regular file (2), and how many links it has.
    pub fn stat<D: BlockDevice>(&self, fs: &mut EasyFileSystem<D>) -> (r: (i32, u32))
        requires
            old(fs).wf(),
            self.valid(old(fs)),
        ensures
            final(fs).wf(),
            final(fs).same_shape(old(fs)),
            final(fs).disk() == old(fs).disk(),
            ({
                let f = old(fs).slots()[self.number(old(fs).division())];
                r.0 == (if f.directory {
                    1i32
                } else {
                    2
                }) && r.1 == f.nlink
            }),
    {
        let disk_inode: DiskInode = self.read_disk_inode(fs);
        let mode: i32 = if disk_inode.is_dir() {
            1
        } else {
            2
        };
        (mode, disk_inode.nlink as u32)
    }

    /// A handle to the inode at that place.
    pub fn new(block_id: u32, block_offset: usize) -> (r: Self)
        ensures
            r.block() == block_id,
            r.offset() == block_offset,
    {
        Inode { block_id: block_id as usize, block_offset }
    }

    /// The number of the inode, counted from the first inode of the disk.
    pub fn get_inode_id(&self, inode_area_start_block: usize) -> (r: u32)
        requires
            inode_area_start_block <= self.block(),
            (self.block() - inode_area_start_block) * 4 + self.offset() / 128 <= u32::MAX,
        ensures
            r == (self.block() - inode_area_start_block) * 4 + self.offset() / 128,
    {
        let inode_size: usize = 128;
        let inodes_per_block: usize = BLOCK_SZ / inode_size;
        ((self.block_id - inode_area_start_block) * inodes_per_block + self.block_offset
            / inode_size) as u32
    }

    /// The handle of inode `id`.
    fn handle<D: BlockDevice>(id: u32, fs: &EasyFileSystem<D>) -> (r: Self)
        requires
            fs.placed(),
            fs.division().slot(id as int),
        ensures
            r.valid(fs),
            r.number(fs.division()) == id,
    {
        let (block_id, block_offset) = fs.get_disk_inode_pos(id);
        Self::new(block_id, block_offset)
    }

    /// Entry `k` of a directory.
    fn entry<D: BlockDevice>(
        &self,
        k: usize,
        disk_inode: &DiskInode,
        fs: &mut EasyFileSystem<D>,
    ) -> (r: DirEntry)
        requires
            old(fs).wf(),
            self.valid(old(fs)),
            disk_inode@ == old(fs).division().inode(
                old(fs).disk(),
                self.number(old(fs).division()),
            ),
            k < disk_inode.size as int / 32,
        ensures
            final(fs).wf(),
            final(fs).same_shape(old(fs)),
            final(fs).disk() == old(fs).disk(),
            ({
                let raw = raw_entry(disk_inode@.content(old(fs).disk()), k as int);
                &&& r.bytes() == raw
                &&& r.name_field() == raw.subrange(0, 28)
                &&& r.id() == entry_in(raw).id
            }),
    {
        let ghost d = fs.division();
        let ghost disk = fs.disk();
        let ghost v = disk_inode@;
        let ghost content = v.content(disk);
        assert(d.file_sound(disk, self.number(d)));
        let mut buf: [u8; DIRENT_SZ] = [0u8; DIRENT_SZ];
        proof {
            assert forall|j: int|
                (32 * k) / 512 <= j < data_count(32 * k + 32) implies #[trigger] v.reaches(
                disk,
                j,
            ) by {
                lemma_in_order_reaches(v, disk, j);
            }
        }
        let n: usize = disk_inode.read_at(DIRENT_SZ * k, &mut buf, &mut fs.cache);
        assert(buf@ =~= raw_entry(content, k as int));
        let r: DirEntry = DirEntry::from_bytes(&buf);
        proof {
            lemma_u32_bytes();
            assert(r.bytes().len() == 32);
            assert(r.name_field() =~= r.bytes().subrange(0, 28));
            assert(u32_bytes(r.id()) =~= r.bytes().subrange(28, 32));
        }
        r
    }

    /// The inode of that name and the place of its entry, if the directory has one.
    fn find_entry<D: BlockDevice>(
        &self,
        name: &str,
        disk_inode: &DiskInode,
        fs: &mut EasyFileSystem<D>,
    ) -> (r: Option<(usize, u32)>)
        requires
            old(fs).wf(),
            self.valid(old(fs)),
            disk_inode@ == old(fs).division().inode(
                old(fs).disk(),
                self.number(old(fs).division()),
            ),
            all_readable(disk_inode@.content(old(fs).disk())),
        ensures
            final(fs).wf(),
            final(fs).same_shape(old(fs)),
            final(fs).disk() == old(fs).disk(),
            ({
                let es = entries(disk_inode@.content(old(fs).disk()));
                match r {
                    Some((k, id)) => k == position(es, name.spec_bytes()) && k < es.len()
                        && lookup(es, name.spec_bytes()) == Some(id as int),
                    None => lookup(es, name.spec_bytes()) is None,
                }
            }),
    {
        let ghost disk = fs.disk();
        let ghost d = fs.division();
        let ghost content = disk_inode@.content(disk);
        let ghost es = entries(content);
        let file_count: usize = disk_inode.size as usize / DIRENT_SZ;
        let mut i: usize = 0;
        while i < file_count
            invariant
                i <= file_count,
                file_count == disk_inode.size as int / 32,
                fs.wf(),
                fs.division() == d,
                fs.same_shape(old(fs)),
                fs.disk() == disk,
                self.valid(fs),
                disk_inode@ == d.inode(disk, self.number(d)),
                content == disk_inode@.content(disk),
                all_readable(content),
                disk == old(fs).disk(),
                es == entries(content),
                forall|j: int| 0 <= j < i ==> #[trigger] es[j].name != name.spec_bytes(),
            decreases file_count - i,
        {
            let dirent: DirEntry = self.entry(i, disk_inode, fs);
            assert(readable(raw_entry(content, i as int)));
            assert(es[i as int] == entry_in(raw_entry(content, i as int)));
            if same_text(dirent.name(), name) {
                proof {
                    lemma_position(es, name.spec_bytes(), i as int);
                }
                return Some((i, dirent.inode_id()));
            }
            i += 1;
        }
        proof {
            lemma_position(es, name.spec_bytes(), es.len() as int);
        }
        None
    }

    /// The inode of that name, if the directory has one.
    fn find_inode_id<D: BlockDevice>(
        &self,
        name: &str,
        disk_inode: &DiskInode,
        fs: &mut EasyFileSystem<D>,
    ) -> (r: Option<u32>)
        requires
            old(fs).wf(),
            self.valid(old(fs)),
            disk_inode@ == old(fs).division().inode(
                old(fs).disk(),
                self.number(old(fs).division()),
            ),
            all_readable(disk_inode@.content(old(fs).disk())),
        ensures
            final(fs).wf(),
            final(fs).same_shape(old(fs)),
            final(fs).disk() == old(fs).disk(),
            ({
                let es = entries(disk_inode@.content(old(fs).disk()));
                match r {
                    Some(id) => lookup(es, name.spec_bytes()) == Some(id as int),
                    None => lookup(es, name.spec_bytes()) is None,
                }
            }),
    {
        match self.find_entry(name, disk_inode, fs) {
            Some((_k, id)) => Some(id),
            None => None,
        }
    }

    /// The file of that name in the directory.
    pub fn find<D: BlockDevice>(&self, name: &str, fs: &mut EasyFileSystem<D>) -> (r: Option<Inode>)
        requires
            old(fs).wf(),
            self.valid(old(fs)),
            self.number(old(fs).division()) == 0,
            tree_ok(old(fs).files()),
        ensures
            final(fs).wf(),
            final(fs).same_shape(old(fs)),
            final(fs).disk() == old(fs).disk(),
            ({
                let found = lookup(entries(old(fs).files()[0].content), name.spec_bytes());
                match r {
                    Some(inode) => inode.valid(final(fs)) && final(fs).live(
                        inode.number(final(fs).division()),
                    ) && found == Some(inode.number(final(fs).division())),
                    None => found is None,
                }
            }),
    {
        let disk_inode: DiskInode = self.read_disk_inode(fs);
        match self.find_inode_id(name, &disk_inode, fs) {
            Some(id) => {
                proof {
                    let es = entries(fs.files()[0].content);
                    lemma_position_found(es, name.spec_bytes());
                    assert(fs.files().dom().contains(es[position(es, name.spec_bytes())].id));
                }
                Some(Self::handle(id, fs))
            },
            None => None,
        }
    }

    /// The names in the directory, in the order of its entries.
    pub fn ls<D: BlockDevice>(&self, fs: &mut EasyFileSystem<D>) -> (r: Vec<String>)
        requires
            old(fs).wf(),
            self.valid(old(fs)),
            self.number(old(fs).division()) == 0,
            tree_ok(old(fs).files()),
        ensures
            final(fs).wf(),
            final(fs).same_shape(old(fs)),
            final(fs).disk() == old(fs).disk(),
            ({
                let es = entries(old(fs).files()[0].content);
                &&& r@.len() == es.len()
                &&& forall|k: int|
                    0 <= k < es.len() ==> encode_utf8(#[trigger] r@[k]@) == es[k].name
            }),
    {
        let disk_inode: DiskInode = self.read_disk_inode(fs);
        let ghost disk = fs.disk();
        let ghost d = fs.division();
        let ghost content = fs.files()[0].content;
        let ghost es = entries(content);
        let file_count: usize = disk_inode.size as usize / DIRENT_SZ;
        let mut v: Vec<String> = Vec::new();
        let mut i: usize = 0;
        while i < file_count
            invariant
                i <= file_count,
                file_count == disk_inode.size as int / 32,
                fs.wf(),
                fs.division() == d,
                fs.same_shape(old(fs)),
                fs.disk() == disk,
                self.valid(fs),
                self.number(d) == 0,
                tree_ok(fs.files()),
                disk_inode@ == d.inode(disk, 0),
                content == fs.files()[0].content,
                content == disk_inode@.content(disk),
                es == entries(content),
                v@.len() == i,
                forall|k: int| 0 <= k < i ==> encode_utf8(#[trigger] v@[k]@) == es[k].name,
            decreases file_count - i,
        {
            let dirent: DirEntry = self.entry(i, &disk_inode, fs);
            assert(readable(raw_entry(content, i as int)));
            assert(es[i as int] == entry_in(raw_entry(content, i as int)));
            v.push(dirent.name().to_owned());
            i += 1;
        }
        v
    }

    /// Puts a further entry at the end of the directory.
    fn append_entry<D: BlockDevice>(&self, name: &str, id: u32, fs: &mut EasyFileSystem<D>)
        requires
            old(fs).wf(),
            self.valid(old(fs)),
            good_name(name.spec_bytes()),
            ({
                let content = old(fs).slots()[self.number(old(fs).division())].content;
                &&& content.len() % 32 == 0
                &&& content.len() + 32 <= MAX_FILE_SIZE
                &&& blocks_for(content.len() as int + 32) - blocks_for(content.len() as int) <= old(
                    fs,
                ).free_blocks()
            }),
        ensures
            final(fs).wf(),
            final(fs).same_shape(old(fs)),
            self.valid(final(fs)),
            ({
                let i = self.number(old(fs).division());
                let f = old(fs).slots()[i];
                &&& final(fs).changed_at(
                    old(fs),
                    i,
                    (FileView {
                        content: f.content + entry_bytes(name.spec_bytes(), id),
                        ..f
                    }),
                )
                &&& final(fs).free_blocks() == old(fs).free_blocks() - (blocks_for(
                    f.content.len() as int + 32,
                ) - blocks_for(f.content.len() as int))
            }),
            final(fs).free_inodes() == old(fs).free_inodes(),
    {
        let ghost i = self.number(fs.division());
        let ghost f = fs.slots()[i];
        let ghost raw = entry_bytes(name.spec_bytes(), id);
        let disk_inode: DiskInode = self.read_disk_inode(fs);
        let file_count: usize = disk_inode.size as usize / DIRENT_SZ;
        let dirent: DirEntry = DirEntry::new(name, id);
        let bytes: [u8; DIRENT_SZ] = dirent.as_bytes();
        assert(bytes@ == raw);
        self.write_cached(file_count * DIRENT_SZ, &bytes, fs);
        proof {
            let f2 = fs.slots()[i];
            assert(f2.content =~= f.content + raw);
            assert(f2 == (FileView { content: f.content + raw, ..f }));
        }
    }

    /// Makes an empty file of that name in the directory; `None` if the name is taken.
    pub fn create<D: BlockDevice>(
        &self,
        name: &str,
        fs: &mut EasyFileSystem<D>,
    ) -> (r: Option<Inode>)
        requires
            old(fs).wf(),
            self.valid(old(fs)),
            self.number(old(fs).division()) == 0,
            tree_ok(old(fs).files()),
            lookup(entries(old(fs).files()[0].content), name.spec_bytes()) is None ==> {
                &&& good_name(name.spec_bytes())
                &&& old(fs).can_take_entry()
                &&& old(fs).free_inodes() > 0
            },
        ensures
            final(fs).wf(),
            final(fs).same_shape(old(fs)),
            self.valid(final(fs)),
            tree_ok(final(fs).files()),
            ({
                let root = old(fs).files()[0];
                let found = lookup(entries(root.content), name.spec_bytes());
                match r {
                    Some(inode) => {
                        let id = inode.number(old(fs).division());
                        &&& found is None
                        &&& inode.valid(final(fs))
                        &&& final(fs).live(id)
                        &&& !old(fs).live(id)
                        &&& forall|j: int| 0 <= j < id ==> #[trigger] old(fs).live(j)
                        &&& final(fs).files() == old(fs).files().insert(
                            id,
                            (FileView { content: Seq::empty(), nlink: 1, directory: false }),
                        ).insert(
                            0,
                            (FileView {
                                content: root.content + entry_bytes(name.spec_bytes(), id as u32),
                                ..root
                            }),
                        )
                        &&& final(fs).slots() == old(fs).slots().insert(
                            id,
                            final(fs).files()[id],
                        ).insert(0, final(fs).files()[0])
                        &&& entries(final(fs).files()[0].content) == entries(root.content).push(
                            EntryView { name: name.spec_bytes(), id },
                        )
                        &&& final(fs).free_inodes() == old(fs).free_inodes() - 1
                        &&& final(fs).free_blocks() == old(fs).free_blocks() - old(
                            fs,
                        ).blocks_for_entry()
                        &&& final(fs).synced()
                    },
                    None => found is Some && final(fs).disk() == old(fs).disk(),
                }
            }),
    {
        let ghost d = fs.division();
        let ghost disk = fs.disk();
        let ghost files = fs.files();
        let ghost root = files[0];
        let disk_inode: DiskInode = self.read_disk_inode(fs);
        if self.find_inode_id(name, &disk_inode, fs).is_some() {
            return None;
        }
        proof {
            d.lemma_free_finite(disk);
            let free = d.free_inodes(disk);
            assert(free.contains(free.choose()));
        }
        let id: u32 = fs.alloc_inode();
        let ghost disk1 = fs.disk();
        assert forall|i: int| #[trigger] d.live(disk1, i) == (i == id || d.live(disk, i)) by {
            assert(fs.live(i) == d.live(disk1, i));
        }
        assert(id != 0) by {
            assert(d.live(disk, 0));
        }
        let (block_id, block_offset) = fs.get_disk_inode_pos(id);
        proof {
            fs.cache.lemma_whole_blocks();
            assert(disk1.dom().contains(d.inode_start() + id as int / 4));
        }
        let mut new_inode: DiskInode = fs.cache.load(block_id as usize, block_offset);
        new_inode.initialize(DiskInodeType::File);
        fs.cache.store(block_id as usize, block_offset, &new_inode);
        proof {
            d.lemma_new_file(disk, disk1, fs.disk(), id as int, new_inode@);
        }
        let ghost f = FileView { content: Seq::<u8>::empty(), nlink: 1u8, directory: false };
        assert(fs.files() == files.insert(id as int, f));
        self.append_entry(name, id, fs);
        proof {
            encode_utf8_valid_utf8(name@);
            assert(fs.files().dom() =~= files.dom().insert(id as int));
            lemma_tree_with(files, fs.files(), id, name.spec_bytes());
            assert(fs.live(id as int));
        }
        let r: Inode = Self::handle(id, fs);
        fs.cache.block_cache_sync_all();
        Some(r)
    }

    /// Gives the file `old_name` the further name `new_name`; `None` if there is no such file or the
    /// new name is taken.
    pub fn link<D: BlockDevice>(
        &self,
        old_name: &str,
        new_name: &str,
        fs: &mut EasyFileSystem<D>,
    ) -> (r: Option<()>)
        requires
            old(fs).wf(),
            self.valid(old(fs)),
            self.number(old(fs).division()) == 0,
            tree_ok(old(fs).files()),
            ({
                let es = entries(old(fs).files()[0].content);
                let found = lookup(es, old_name.spec_bytes());
                found is Some && lookup(es, new_name.spec_bytes()) is None ==> {
                    &&& good_name(new_name.spec_bytes())
                    &&& old(fs).can_take_entry()
                    &&& old(fs).files()[found->0].nlink < 255
                }
            }),
        ensures
            final(fs).wf(),
            final(fs).same_shape(old(fs)),
            self.valid(final(fs)),
            tree_ok(final(fs).files()),
            ({
                let root = old(fs).files()[0];
                let found = lookup(entries(root.content), old_name.spec_bytes());
                let taken = lookup(entries(root.content), new_name.spec_bytes());
                match r {
                    Some(_) => {
                        let id = found->0;
                        let f = old(fs).files()[id];
                        &&& found is Some
                        &&& taken is None
                        &&& final(fs).files() == old(fs).files().insert(
                            id,
                            (FileView { nlink: (f.nlink + 1) as u8, ..f }),
                        ).insert(
                            0,
                            (FileView {
                                content: root.content + entry_bytes(
                                    new_name.spec_bytes(),
                                    id as u32,
                                ),
                                ..root
                            }),
                        )
                        &&& final(fs).slots() == old(fs).slots().insert(
                            id,
                            final(fs).files()[id],
                        ).insert(0, final(fs).files()[0])
                        &&& entries(final(fs).files()[0].content) == entries(root.content).push(
                            EntryView { name: new_name.spec_bytes(), id },
                        )
                        &&& final(fs).free_inodes() == old(fs).free_inodes()
                        &&& final(fs).free_blocks() == old(fs).free_blocks() - old(
                            fs,
                        ).blocks_for_entry()
                        &&& final(fs).synced()
                    },
                    None => (found is None || taken is Some) && final(fs).disk() == old(fs).disk(),
                }
            }),
    {
        let ghost d = fs.division();
        let ghost disk = fs.disk();
        let ghost files = fs.files();
        let ghost root = files[0];
        let disk_inode: DiskInode = self.read_disk_inode(fs);
        let old_id: Option<u32> = self.find_inode_id(old_name, &disk_inode, fs);
        let new_exists: bool = self.find_inode_id(new_name, &disk_inode, fs).is_some();
        if new_exists {
            return None;
        }
        let id: u32 = match old_id {
            Some(id) => id,
            None => {
                return None;
            },
        };
        proof {
            lemma_position_found(entries(root.content), old_name.spec_bytes());
            let e = entries(root.content)[position(
                entries(root.content),
                old_name.spec_bytes(),
            )];
            assert(files.dom().contains(e.id) && e.id != 0);
        }
        let target: Inode = Self::handle(id, fs);
        let mut old_disk_inode: DiskInode = target.read_disk_inode(fs);
        let ghost v = old_disk_inode@;
        old_disk_inode.nlink = old_disk_inode.nlink + 1;
        proof {
            lemma_only_links(d, disk, id as int, old_disk_inode@);
        }
        target.store_disk_inode(&old_disk_inode, fs, Ghost(disk));
        self.append_entry(new_name, id, fs);
        proof {
            encode_utf8_valid_utf8(new_name@);
            assert(fs.files().dom() =~= files.dom().insert(id as int));
            lemma_tree_with(files, fs.files(), id, new_name.spec_bytes());
        }
        fs.cache.block_cache_sync_all();
        Some(())
    }

    /// Takes the entry of that name out of the directory: the last entry takes its place. The blocks
    /// of the directory stay in use.
    fn remove_entry<D: BlockDevice>(&self, name: &str, fs: &mut EasyFileSystem<D>)
        requires
            old(fs).wf(),
            self.valid(old(fs)),
            ({
                let f = old(fs).slots()[self.number(old(fs).division())];
                &&& f.directory
                &&& all_readable(f.content)
                &&& lookup(entries(f.content), name.spec_bytes()) is Some
            }),
        ensures
            final(fs).wf(),
            final(fs).same_shape(old(fs)),
            self.valid(final(fs)),
            ({
                let i = self.number(old(fs).division());
                let f = old(fs).slots()[i];
                final(fs).changed_at(
                    old(fs),
                    i,
                    (FileView {
                        content: content_without(
                            f.content,
                            position(entries(f.content), name.spec_bytes()),
                        ),
                        ..f
                    }),
                )
            }),
            final(fs).free_inodes() == old(fs).free_inodes(),
            final(fs).free_set() == old(fs).free_set(),
            forall|j: int|
                j != self.number(old(fs).division()) && old(fs).division().slot(j)
                    ==> #[trigger] final(fs).blocks_of(j) == old(fs).blocks_of(j),
    {
        let ghost d = fs.division();
        let ghost disk = fs.disk();
        let ghost i = self.number(d);
        let ghost f = fs.slots()[i];
        let mut root_inode: DiskInode = self.read_disk_inode(fs);
        let ghost v = root_inode@;
        proof {
            assert(d.file_sound(disk, i));
            lemma_only_links(d, disk, i, v);
            lemma_position_found(entries(f.content), name.spec_bytes());
        }
        let file_count: usize = root_inode.size as usize / DIRENT_SZ;
        let found: Option<(usize, u32)> = self.find_entry(name, &root_inode, fs);
        let found_idx: usize = found.unwrap().0;
        let last_idx: usize = file_count - 1;
        let ghost raw = raw_entry(f.content, last_idx as int);
        if found_idx != last_idx {
            let last_dirent: DirEntry = self.entry(last_idx, &root_inode, fs);
            let bytes: [u8; DIRENT_SZ] = last_dirent.as_bytes();
            let n: usize = root_inode.write_at(DIRENT_SZ * found_idx, &bytes, &mut fs.cache);
            proof {
                assert(bytes@.take(n as int) =~= bytes@);
                lemma_written_changing(d, disk, disk, fs.disk(), i, v);
            }
        } else {
            assert(splice(f.content, 32 * found_idx, raw) =~= f.content);
        }
        root_inode.size = root_inode.size - DIRENT_SZ as u32;
        proof {
            lemma_shorter(d, disk, fs.disk(), i, v, root_inode@);
            assert(root_inode@.content(fs.disk()) =~= content_without(
                f.content,
                found_idx as int,
            ));
        }
        self.store_disk_inode(&root_inode, fs, Ghost(disk));
    }

    /// Takes one link away from the file. With its last link the file is gone: its blocks and its
    /// inode are free again.
    fn drop_link<D: BlockDevice>(&self, fs: &mut EasyFileSystem<D>)
        requires
            old(fs).wf(),
            self.valid(old(fs)),
            old(fs).live(self.number(old(fs).division())),
            old(fs).files()[self.number(old(fs).division())].nlink > 0,
        ensures
            final(fs).wf(),
            final(fs).same_shape(old(fs)),
            ({
                let i = self.number(old(fs).division());
                let f = old(fs).files()[i];
                if f.nlink == 1 {
                    &&& final(fs).files() == old(fs).files().remove(i)
                    &&& final(fs).slots() == old(fs).slots().insert(
                        i,
                        (FileView { content: Seq::empty(), nlink: 0, ..f }),
                    )
                    &&& final(fs).free_inodes() == old(fs).free_inodes() + 1
                    &&& final(fs).free_blocks() == old(fs).free_blocks() + blocks_for(
                        f.content.len() as int,
                    )
                    &&& final(fs).free_set() == old(fs).free_set().union(
                        old(fs).blocks_of(i).to_set(),
                    )
                } else {
                    &&& final(fs).changed_at(
                        old(fs),
                        i,
                        (FileView { nlink: (f.nlink - 1) as u8, ..f }),
                    )
                    &&& final(fs).free_inodes() == old(fs).free_inodes()
                    &&& final(fs).free_set() == old(fs).free_set()
                    &&& final(fs).blocks_of(i) == old(fs).blocks_of(i)
                }
            }),
    {
        let ghost d = fs.division();
        let ghost disk = fs.disk();
        let ghost files = fs.files();
        let ghost slots = fs.slots();
        let ghost id = self.number(d);
        let mut disk_inode: DiskInode = self.read_disk_inode(fs);
        disk_inode.nlink = disk_inode.nlink - 1;
        let need_dealloc: bool = disk_inode.nlink == 0;
        proof {
            lemma_only_links(d, disk, id, disk_inode@);
            assert(d.free_data(fs.disk()) == d.free_data(disk));
        }
        self.store_disk_inode(&disk_inode, fs, Ghost(disk));
        assert(fs.live(id));
        if need_dealloc {
            self.clear_cached(fs);
            assert(fs.live(id));
            fs.cache.block_cache_sync_all();
            proof {
                d.lemma_free_finite(fs.disk());
            }
            let inode_id: u32 = self.get_inode_id(fs.inode_area_start_block as usize);
            fs.dealloc_inode(inode_id);
            assert(fs.files() =~= files.remove(id));
            assert(fs.slots() =~= slots.insert(
                id,
                (FileView { content: Seq::empty(), nlink: 0, ..files[id] }),
            ));
        }
    }

    /// Takes a name away from a file; `None` if there is no such name. A file that has lost its last
    /// name is gone: its blocks and its inode are free again.
    pub fn unlink<D: BlockDevice>(&self, name: &str, fs: &mut EasyFileSystem<D>) -> (r: Option<()>)
        requires
            old(fs).wf(),
            self.valid(old(fs)),
            self.number(old(fs).division()) == 0,
            tree_ok(old(fs).files()),
        ensures
            final(fs).wf(),
            final(fs).same_shape(old(fs)),
            self.valid(final(fs)),
            tree_ok(final(fs).files()),
            ({
                let root = old(fs).files()[0];
                let es = entries(root.content);
                let found = lookup(es, name.spec_bytes());
                let k = position(es, name.spec_bytes());
                match r {
                    Some(_) => {
                        let id = found->0;
                        let f = old(fs).files()[id];
                        let root2 = FileView { content: content_without(root.content, k), ..root };
                        &&& found is Some
                        &&& entries(root2.content) == without(es, k)
                        &&& final(fs).synced()
                        &&& f.nlink > 1 ==> {
                            &&& final(fs).files() == old(fs).files().insert(
                                id,
                                (FileView { nlink: (f.nlink - 1) as u8, ..f }),
                            ).insert(0, root2)
                            &&& final(fs).slots() == old(fs).slots().insert(
                                id,
                                (FileView { nlink: (f.nlink - 1) as u8, ..f }),
                            ).insert(0, root2)
                            &&& final(fs).free_inodes() == old(fs).free_inodes()
                            &&& final(fs).free_set() == old(fs).free_set()
                            &&& final(fs).blocks_of(id) == old(fs).blocks_of(id)
                        }
                        &&& f.nlink == 1 ==> {
                            &&& final(fs).files() == old(fs).files().remove(id).insert(0, root2)
                            &&& final(fs).slots() == old(fs).slots().insert(
                                id,
                                (FileView { content: Seq::empty(), nlink: 0, ..f }),
                            ).insert(0, root2)
                            &&& final(fs).free_inodes() == old(fs).free_inodes() + 1
                            &&& final(fs).free_blocks() == old(fs).free_blocks() + blocks_for(
                                f.content.len() as int,
                            )
                            &&& final(fs).free_set() == old(fs).free_set().union(
                                old(fs).blocks_of(id).to_set(),
                            )
                        }
                    },
                    None => found is None && final(fs).disk() == old(fs).disk(),
                }
            }),
    {
        let ghost d = fs.division();
        let ghost disk = fs.disk();
        let ghost files = fs.files();
        let ghost root = files[0];
        let ghost es = entries(root.content);
        let inode: Inode = match self.find(name, fs) {
            Some(inode) => inode,
            None => {
                return None;
            },
        };
        let ghost id = inode.number(d);
        let ghost f = files[id];
        proof {
            lemma_position_found(es, name.spec_bytes());
            lemma_links_bounds(es, id);
            assert(es[position(es, name.spec_bytes())].id == id);
            assert(files.dom().contains(id) && id != 0);
        }
        inode.drop_link(fs);
        let ghost fs1 = *fs;
        assert(fs.files()[0] == root);
        assert(fs.files().dom().contains(0));
        self.remove_entry(name, fs);
        let ghost fs2 = *fs;
        proof {
            assert(fs2.blocks_of(id) == fs1.blocks_of(id));
            lemma_content_without(root.content, position(es, name.spec_bytes()));
            assert(fs.files().dom() =~= if f.nlink == 1 {
                files.dom().remove(id)
            } else {
                files.dom()
            });
            lemma_tree_without(files, fs.files(), name.spec_bytes());
        }
        fs.cache.block_cache_sync_all();
        Some(())
    }
}

/// One element more.
proof fn lemma_push_to_set(s: Seq<int>, x: int)
    ensures
        s.push(x).to_set() == s.to_set().insert(x),
{
    let t = s.push(x);
    assert forall|y: int| t.contains(y) implies s.contains(y) || y == x by {
        let i = t.index_of(y);
        if i < s.len() {
            assert(s[i] == y);
        }
    }
    assert forall|y: int| s.contains(y) implies t.contains(y) by {
        let i = s.index_of(y);
        assert(t[i] == y);
    }
    assert(t[s.len() as int] == x);
    assert(t.to_set() =~= s.to_set().insert(x));
}

/// A directory that is cut short keeps the beginning of its content.
proof fn lemma_shorter(
    d: Division,
    disk: Map<int, Seq<u8>>,
    disk2: Map<int, Seq<u8>>,
    i: int,
    v: InodeView,
    v2: InodeView,
)
    requires
        d.changing(disk, disk2, i, v),
        v.directory,
        v2 == (InodeView { size: v2.size, ..v }),
        v2.size <= v.size,
    ensures
        d.changing(disk, disk2, i, v2),
        v2.content(disk2) == v.content(disk2).take(v2.size as int),
{
    let n = data_count(v.size as int);
    let n2 = data_count(v2.size as int);
    lemma_block_count_monotone(n2, n);
    assert forall|p: int| #[trigger] v2.nth_block(disk2, p) == v.nth_block(disk2, p) by {}
    let all = v.all_blocks(disk2);
    let all2 = v2.all_blocks(disk2);
    assert forall|p: int| 0 <= p < all2.len() implies #[trigger] all2[p] == all[p] by {}
    assert forall|b: int| #[trigger] all2.contains(b) implies all.contains(b) by {
        let p = all2.index_of(b);
        assert(all[p] == b);
    }
    assert forall|p: int, q: int| 0 <= p < q < all2.len() implies all2[p] != all2[q] by {
        assert(all[p] != all[q]);
    }
    assert forall|p: int| 0 <= p < all2.len() implies disk2.dom().contains(#[trigger] all2[p]) by {
        assert(disk2.dom().contains(all[p]));
    }
    assert forall|k: int| #[trigger] v2.block_of(disk2, k) == v.block_of(disk2, k) by {}
    assert(v2.content(disk2) =~= v.content(disk2).take(v2.size as int));
}

impl<D: BlockDevice> EasyFileSystem<D> {
    /// The handle of the root directory.
    pub fn root_inode(&self) -> (r: Inode)
        requires
            self.placed(),
        ensures
            r.valid(self),
            r.number(self.division()) == 0,
    {
        Inode::handle(0, self)
    }
}

/// An inode of which only the link count has changed.
proof fn lemma_only_links(d: Division, disk: Map<int, Seq<u8>>, i: int, v2: InodeView)
    requires
        d.sound(disk),
        d.slot(i),
        v2 == (InodeView { nlink: v2.nlink, ..d.inode(disk, i) }),
    ensures
        d.changing(disk, disk, i, v2),
        v2.content(disk) == d.file(disk, i).content,
        v2.all_blocks(disk) == d.blocks(disk, i),
{
    let v = d.inode(disk, i);
    assert(d.file_sound(disk, i));
    assert forall|p: int| #[trigger] v2.nth_block(disk, p) == v.nth_block(disk, p) by {}
    assert(v2.all_blocks(disk) =~= v.all_blocks(disk));
    assert forall|k: int| #[trigger] v2.block_of(disk, k) == v.block_of(disk, k) by {}
    assert(v2.content(disk) =~= v.content(disk));
    assert(v2.room(disk) =~= v.room(disk));
    assert forall|b: int| #[trigger] v2.all_blocks(disk).contains(b) implies d.is_data(b)
        && d.taken(disk, b - d.data_start()) && d.owns(disk, i, b) by {
        assert(d.owns(disk, i, b));
    }
}

/// Whether two texts are the same.
pub fn same_text(a: &str, b: &str) -> (r: bool)
    ensures
        r == (a.spec_bytes() == b.spec_bytes()),
{
    let x: &[u8] = a.as_bytes();
    let y: &[u8] = b.as_bytes();
    if x.len() != y.len() {
        return false;
    }
    let mut i: usize = 0;
    while i < x.len()
        invariant
            i <= x@.len(),
            x@.len() == y@.len(),
            x@ == a.spec_bytes(),
            y@ == b.spec_bytes(),
            forall|j: int| 0 <= j < i ==> #[trigger] x@[j] == y@[j],
        decreases x@.len() - i,
    {
        if x[i] != y[i] {
            return false;
        }
        i += 1;
    }
    assert(x@ =~= y@);
    true
}

proof fn lemma_written_changing(
    d: Division,
    disk: Map<int, Seq<u8>>,
    disk2: Map<int, Seq<u8>>,
    disk3: Map<int, Seq<u8>>,
    i: int,
    v2: InodeView,
)
    requires
        d.sound(disk),
        d.slot(i),
        d.changing(disk, disk2, i, v2),
        written(v2, disk2, disk3),
        forall|k: int|
            v2.size <= k < v2.room(disk2).len() ==> #[trigger] v2.room(disk3)[k] == v2.room(
                disk2,
            )[k],
    ensures
        d.changing(disk, disk3, i, v2),
        d.fits(disk3),
        d.free_data(disk3) == d.free_data(disk2),
        forall|j: int| #[trigger] d.live(disk3, j) == d.live(disk, j),
{
    let all = v2.all_blocks(disk2);
    assert forall|b: int| disk.dom().contains(b) && !all.contains(b) implies #[trigger] disk3[b]
        == disk2[b] by {}
    assert forall|b: int| !d.is_data(b) && disk.dom().contains(b) implies #[trigger] disk3[b]
        == disk2[b] by {}
    d.lemma_outside_inodes(disk, disk3);
    assert forall|b: int| d.is_data(b) implies #[trigger] d.taken(disk3, b - d.data_start())
        == d.taken(disk2, b - d.data_start()) by {
        let m = d.data_bitmap_start() + (b - d.data_start()) / 4096;
        assert(disk.dom().contains(m));
        assert(!d.is_data(m));
    }
    assert(d.free_data(disk3) =~= d.free_data(disk2));
    assert forall|b: int|
        d.is_data(b) && d.taken(disk, b - d.data_start()) && !d.owns(
            disk,
            i,
            b,
        ) implies #[trigger] disk3[b] == disk[b] by {
        assert(disk.dom().contains(b));
        assert(disk2[b] == disk[b]);
    }
    assert forall|b: int| d.is_data(b) && !d.taken(disk3, b - d.data_start()) implies zero_from(
        #[trigger] disk3[b],
        0,
    ) by {
        assert(d.taken(disk3, b - d.data_start()) == d.taken(disk2, b - d.data_start()));
        assert(disk.dom().contains(b));
        assert(!all.contains(b));
        assert(disk3[b] == disk2[b]);
    }
    assert forall|b: int| #[trigger] v2.all_blocks(disk3).contains(b) implies {
        &&& d.is_data(b)
        &&& d.taken(disk3, b - d.data_start())
        &&& d.owns(disk, i, b) || !d.taken(disk, b - d.data_start())
    } by {
        assert(all.contains(b));
        assert(d.taken(disk3, b - d.data_start()) == d.taken(disk2, b - d.data_start()));
    }
}

/// `list` can serve file `i` to grow: its blocks are free on `disk`; on `disk1` they are taken, and
/// nothing else differs.
spec fn taken_for(
    d: Division,
    disk: Map<int, Seq<u8>>,
    disk1: Map<int, Seq<u8>>,
    i: int,
    new_size: u32,
    list: Seq<u32>,
) -> bool {
    let size = d.inode(disk, i).size;
    &&& d.sound(disk)
    &&& d.slot(i)
    &&& size < new_size <= MAX_FILE_SIZE
    &&& list.len() == blocks_for(new_size as int) - blocks_for(size as int)
    &&& disk1.dom() == disk.dom()
    &&& forall|b: int|
        !(d.data_bitmap_start() <= b < d.data_start()) ==> #[trigger] disk1[b] == disk[b]
    &&& forall|j: int|
        0 <= j < list.len() ==> d.free_data(disk).contains(#[trigger] list[j] as int)
    &&& forall|j: int, l: int|
        0 <= j < l < list.len() ==> #[trigger] list[j] != #[trigger] list[l]
    &&& forall|b: int|
        #[trigger] d.free_data(disk1).contains(b) ==> d.free_data(disk).contains(b) && forall|
            j: int,
        |
            0 <= j < list.len() ==> #[trigger] list[j] != b
}

proof fn lemma_taken_list(
    d: Division,
    disk: Map<int, Seq<u8>>,
    disk1: Map<int, Seq<u8>>,
    i: int,
    new_size: u32,
    list: Seq<u32>,
)
    requires
        taken_for(d, disk, disk1, i, new_size, list),
    ensures
        ({
            let v = d.inode(disk, i);
            &&& v.in_order(disk1)
            &&& can_grow(v, disk1, new_size, list)
            &&& on_disk(growth(v, disk1, new_size, list), disk1)
            &&& v.all_blocks(disk1) == v.all_blocks(disk)
            &&& v.content(disk1) == v.content(disk)
            &&& v.room(disk1) == v.room(disk)
        }),
{
    let v = d.inode(disk, i);
    assert(d.file_sound(disk, i));
    let all = v.all_blocks(disk);
    assert forall|b: int| #[trigger] all.contains(b) implies disk1[b] == disk[b] && d.is_data(b)
        && d.taken(disk, b - d.data_start()) by {
        assert(d.owns(disk, i, b));
    }
    d.lemma_same_view(disk, disk1, v);
    let g = growth(v, disk1, new_size, list);
    lemma_block_count_monotone(data_count(v.size as int), data_count(new_size as int));
    assert forall|p: int| 0 <= p < g.len() implies disk1.dom().contains(#[trigger] g[p]) by {
        if p < all.len() {
            assert(all.contains(all[p]));
        } else {
            assert(d.free_data(disk).contains(list[p - all.len()] as int));
        }
    }
    assert(g.no_duplicates()) by {
        assert forall|p: int, q: int| 0 <= p < q < g.len() implies g[p] != g[q] by {
            if p < all.len() {
                assert(all.contains(all[p]));
                if q >= all.len() {
                    assert(d.free_data(disk).contains(list[q - all.len()] as int));
                }
            } else {
                assert(list[p - all.len()] != list[q - all.len()]);
            }
        }
    }
}

proof fn lemma_grown_changing(
    d: Division,
    disk: Map<int, Seq<u8>>,
    disk1: Map<int, Seq<u8>>,
    disk2: Map<int, Seq<u8>>,
    i: int,
    new_size: u32,
    list: Seq<u32>,
    v2: InodeView,
)
    requires
        taken_for(d, disk, disk1, i, new_size, list),
        whole_blocks(disk1),
        grown(d.inode(disk, i), disk1, new_size, list, v2, disk2),
    ensures
        d.changing(disk, disk2, i, v2),
        d.fits(disk2),
        forall|j: int| #[trigger] d.live(disk2, j) == d.live(disk, j),
        d.free_data(disk2) == d.free_data(disk1),
        v2.content(disk2).take(d.inode(disk, i).size as int) == d.file(disk, i).content,
        v2.directory || zero_from(v2.content(disk2), d.inode(disk, i).size as int),
{
    let v = d.inode(disk, i);
    lemma_taken_list(d, disk, disk1, i, new_size, list);
    assert(d.file_sound(disk, i));
    let all = v.all_blocks(disk);
    let g = growth(v, disk1, new_size, list);
    lemma_block_count_monotone(data_count(v.size as int), data_count(new_size as int));
    assert forall|p: int| 0 <= p < g.len() implies {
        &&& d.is_data(#[trigger] g[p])
        &&& d.taken(disk1, g[p] - d.data_start())
        &&& d.owns(disk, i, g[p]) || !d.taken(disk, g[p] - d.data_start())
    } by {
        if p < all.len() {
            assert(all.contains(all[p]));
            assert(d.owns(disk, i, all[p]));
            assert(!d.free_data(disk1).contains(all[p]));
        } else {
            let b = list[p - all.len()] as int;
            assert(d.free_data(disk).contains(b));
            assert(!d.free_data(disk1).contains(b));
        }
    }
    assert forall|b: int| disk.dom().contains(b) && !g.contains(b) implies #[trigger] disk2[b]
        == disk1[b] by {}
    assert forall|b: int| !d.is_data(b) && disk.dom().contains(b) implies #[trigger] disk2[b]
        == disk1[b] by {
        if g.contains(b) {
            let p = g.index_of(b);
            assert(d.is_data(g[p]));
        }
    }
    d.lemma_outside_inodes(disk, disk2);
    assert forall|b: int| d.is_data(b) implies #[trigger] d.taken(disk2, b - d.data_start())
        == d.taken(disk1, b - d.data_start()) by {
        let m = d.data_bitmap_start() + (b - d.data_start()) / 4096;
        assert(disk.dom().contains(m));
        assert(!d.is_data(m));
    }
    assert(d.free_data(disk2) =~= d.free_data(disk1));
    assert forall|b: int| d.is_data(b) && #[trigger] d.taken(disk, b - d.data_start()) implies d.taken(
        disk2,
        b - d.data_start(),
    ) by {
        assert(!d.free_data(disk1).contains(b));
        assert(d.taken(disk2, b - d.data_start()) == d.taken(disk1, b - d.data_start()));
    }
    assert forall|b: int|
        d.is_data(b) && d.taken(disk, b - d.data_start()) && !d.owns(
            disk,
            i,
            b,
        ) implies #[trigger] disk2[b] == disk[b] by {
        if g.contains(b) {
            let p = g.index_of(b);
            assert(g[p] == b);
        }
        assert(disk.dom().contains(b));
    }
    assert forall|b: int| d.is_data(b) && !d.taken(disk2, b - d.data_start()) implies zero_from(
        #[trigger] disk2[b],
        0,
    ) by {
        assert(d.taken(disk2, b - d.data_start()) == d.taken(disk1, b - d.data_start()));
        assert(d.free_data(disk1).contains(b));
        assert(d.free_data(disk).contains(b));
        if g.contains(b) {
            let p = g.index_of(b);
            assert(g[p] == b);
        }
        assert(disk.dom().contains(b));
        assert(disk2[b] == disk[b]);
    }
    assert forall|b: int| #[trigger] v2.all_blocks(disk2).contains(b) implies {
        &&& d.is_data(b)
        &&& d.taken(disk2, b - d.data_start())
        &&& d.owns(disk, i, b) || !d.taken(disk, b - d.data_start())
    } by {
        let p = v2.all_blocks(disk2).index_of(b);
        assert(g[p] == b);
        assert(d.taken(disk2, b - d.data_start()) == d.taken(disk1, b - d.data_start()));
    }
    assert forall|j: int| 0 <= j < list.len() implies {
        let block = disk1[#[trigger] list[j] as int];
        block.len() == 512 && zero_from(block, 0)
    } by {
        let b = list[j] as int;
        assert(d.free_data(disk).contains(b));
        assert(disk1.dom().contains(b));
        assert(zero_from(disk[b], 0));
    }
    lemma_grown_room(v, disk1, new_size, list, v2, disk2);
    lemma_content_of_room(v, disk1);
    lemma_content_of_room(v2, disk2);
    assert(v2.content(disk2).take(v.size as int) =~= v.content(disk));
    if !v2.directory {
        assert forall|k: int| v.size <= k < v2.room(disk2).len() implies #[trigger] v2.room(
            disk2,
        )[k] == 0 by {
            if k < v.room(disk).len() {
                assert(v.room(disk1)[k] == 0);
            }
        }
        assert forall|k: int| v.size <= k < v2.content(disk2).len() implies #[trigger] v2.content(
            disk2,
        )[k] == 0 by {
            assert(v2.content(disk2)[k] == v2.room(disk2)[k]);
        }
    }
}

} // verus!
