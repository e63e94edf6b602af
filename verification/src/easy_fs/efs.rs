//! The file system on a disk: its division into areas, and the allocation of inodes and blocks.

use vstd::prelude::*;
use vstd::set_lib::{lemma_int_range, set_int_range};

use super::bitmap::{bit_at, bit_of, Bitmap};
use super::block_cache::BlockCacheManager;
use super::block_dev::{whole_blocks, BlockDevice, BLOCK_SZ};
use super::dir::tree_ok;
use super::fs_state::{division_in, Division, FileView};
use super::layout::{blocks_for, DiskInode, DiskInodeType, SuperBlock, MAX_FILE_SIZE};
use crate::bytes::{lemma_zero_u32, lemma_zero_u64, u32_at, u64_at};

verus! {

/// A file system on a block device.
pub struct EasyFileSystem<D> {
    /// The device, behind the block cache.
    pub cache: BlockCacheManager<D>,
    /// Which inodes are in use.
    pub inode_bitmap: Bitmap,
    /// Which data blocks are in use.
    pub data_bitmap: Bitmap,
    /// The first block of the inodes.
    pub inode_area_start_block: u32,
    /// The first block of the data.
    pub data_area_start_block: u32,
    /// How many data blocks there are.
    pub data_area_blocks: u32,
}

impl<D: BlockDevice> EasyFileSystem<D> {
    /// How the disk is divided.
    pub open spec fn division(&self) -> Division {
        Division {
            inode_bitmap: self.inode_bitmap.block_count(),
            inode_area: self.data_bitmap.start() - self.inode_area_start_block,
            data_bitmap: self.data_bitmap.block_count(),
            data_area: self.data_area_blocks as int,
        }
    }

    /// The disk as it is seen through the cache.
    pub open spec fn disk(&self) -> Map<int, Seq<u8>> {
        self.cache@
    }

    /// All files by inode number.
    pub open spec fn files(&self) -> Map<int, FileView> {
        self.division().files(self.disk())
    }

    /// What all inodes hold, also those that are not in use.
    pub open spec fn slots(&self) -> Map<int, FileView> {
        self.division().slots(self.disk())
    }

    /// Inode `i` is in use.
    pub open spec fn live(&self, i: int) -> bool {
        self.division().live(self.disk(), i)
    }

    /// The data blocks that are free.
    pub open spec fn free_set(&self) -> Set<int> {
        self.division().free_data(self.disk())
    }

    /// All blocks that inode `i` has, in the order in which it got them.
    pub open spec fn blocks_of(&self, i: int) -> Seq<int> {
        self.division().blocks(self.disk(), i)
    }

    /// How many data blocks are free.
    pub open spec fn free_blocks(&self) -> nat {
        self.division().free_data(self.disk()).len()
    }

    /// How many inodes are free.
    pub open spec fn free_inodes(&self) -> nat {
        self.division().free_inodes(self.disk()).len()
    }

    /// How many blocks the root directory needs for one entry more.
    pub open spec fn blocks_for_entry(&self) -> int {
        let size = self.files()[0].content.len() as int;
        blocks_for(size + 32) - blocks_for(size)
    }

    /// There is room for one entry more in the root directory.
    pub open spec fn can_take_entry(&self) -> bool {
        &&& self.files()[0].content.len() + 32 <= MAX_FILE_SIZE
        &&& self.blocks_for_entry() <= self.free_blocks()
    }

    /// The areas lie on the disk one behind the other and nobody holds a block of the cache.
    pub open spec fn placed(&self) -> bool {
        &&& self.cache.wf()
        &&& self.cache.idle()
        &&& self.inode_bitmap.start() == 1
        &&& self.inode_area_start_block == 1 + self.inode_bitmap.block_count()
        &&& self.data_area_start_block == self.data_bitmap.start()
            + self.data_bitmap.block_count()
        &&& self.division().fits(self.disk())
    }

    /// The file system is sound.
    pub open spec fn wf(&self) -> bool {
        &&& self.placed()
        &&& self.division().sound(self.disk())
    }

    /// Everything is on the device itself.
    pub open spec fn synced(&self) -> bool {
        self.cache.device_contents() == self.disk()
    }

    /// Only the contents of the disk differ.
    pub open spec fn same_shape(&self, other: &Self) -> bool {
        &&& self.division() == other.division()
        &&& self.inode_area_start_block == other.inode_area_start_block
    }

    /// Between `old` and this state only what inode `i` holds has changed: it is `f` now.
    pub open spec fn changed_at(&self, old: &Self, i: int, f: FileView) -> bool {
        &&& self.slots() == old.slots().insert(i, f)
        &&& self.files() == (if old.live(i) {
            old.files().insert(i, f)
        } else {
            old.files()
        })
        &&& forall|j: int| #[trigger] self.live(j) == old.live(j)
    }

    /// Lays a file system on the first `total_blocks` blocks of a device. It has the empty root
    /// directory and nothing else.
    pub fn create(device: D, total_blocks: u32, inode_bitmap_blocks: u32) -> (r: Self)
        requires
            whole_blocks(device.contents()),
            forall|b: int| 0 <= b < total_blocks ==> #[trigger] device.contents().dom().contains(b),
            1 <= inode_bitmap_blocks,
            inode_bitmap_blocks * 4096 <= u32::MAX,
            1 + inode_bitmap_blocks * 1025 < total_blocks,
            total_blocks + 4096 <= u32::MAX,
        ensures
            r.wf(),
            r.synced(),
            r.division() == division_of(total_blocks as int, inode_bitmap_blocks as int),
            r.files() == map![0int => (FileView {
                content: Seq::empty(),
                nlink: 1,
                directory: true,
            })],
            r.slots() == Map::new(
                |i: int| r.division().slot(i),
                |i: int|
                    FileView {
                        content: Seq::empty(),
                        nlink: if i == 0 {
                            1
                        } else {
                            0
                        },
                        directory: i == 0,
                    },
            ),
            tree_ok(r.files()),
            r.free_blocks() == r.division().data_area,
            r.free_inodes() == r.division().inodes() - 1,
    {
        let inode_bitmap: Bitmap = Bitmap::new(1, inode_bitmap_blocks as usize);
        let inode_num: usize = inode_bitmap.maximum();
        let inode_area_blocks: u32 = ((inode_num as u64 * 128 + BLOCK_SZ as u64 - 1)
            / BLOCK_SZ as u64) as u32;
        let inode_total_blocks: u32 = inode_bitmap_blocks + inode_area_blocks;
        let data_total_blocks: u32 = total_blocks - 1 - inode_total_blocks;
        let data_bitmap_blocks: u32 = (data_total_blocks + 4096) / 4097;
        let data_area_blocks: u32 = data_total_blocks - data_bitmap_blocks;
        let data_bitmap: Bitmap = Bitmap::new(
            (1 + inode_total_blocks) as usize,
            data_bitmap_blocks as usize,
        );
        let mut efs: Self = EasyFileSystem {
            cache: BlockCacheManager::new(device),
            inode_bitmap,
            data_bitmap,
            inode_area_start_block: 1 + inode_bitmap_blocks,
            data_area_start_block: 1 + inode_total_blocks + data_bitmap_blocks,
            data_area_blocks,
        };
        let ghost d = efs.division();
        let ghost dom = efs.disk().dom();
        let zeros: [u8; BLOCK_SZ] = [0u8; BLOCK_SZ];
        let mut i: u32 = 0;
        while i < total_blocks
            invariant
                i <= total_blocks,
                efs.cache.wf(),
                efs.cache.idle(),
                efs.division() == d,
                efs.inode_bitmap == inode_bitmap,
                efs.data_bitmap == data_bitmap,
                efs.inode_area_start_block == 1 + inode_bitmap_blocks,
                efs.data_area_start_block == 1 + inode_total_blocks + data_bitmap_blocks,
                efs.disk().dom() == dom,
                forall|b: int| 0 <= b < total_blocks ==> #[trigger] dom.contains(b),
                zeros@ == Seq::new(512, |j: int| 0u8),
                forall|b: int| 0 <= b < i ==> #[trigger] efs.disk()[b] == zeros@,
            decreases total_blocks - i,
        {
            let ghost before = efs.disk();
            assert(dom.contains(i as int));
            efs.cache.store(i as usize, 0, &zeros);
            proof {
                efs.cache.lemma_whole_blocks();
                assert(efs.disk().dom() =~= dom);
                assert(efs.disk()[i as int].subrange(0, 512) =~= efs.disk()[i as int]);
            }
            i += 1;
        }
        let ghost disk0 = efs.disk();
        assert(dom.contains(0));
        let mut super_block: SuperBlock = efs.cache.load(0, 0);
        super_block.initialize(
            total_blocks,
            inode_bitmap_blocks,
            inode_area_blocks,
            data_bitmap_blocks,
            data_area_blocks,
        );
        efs.cache.store(0, 0, &super_block);
        let ghost disk1 = efs.disk();
        proof {
            efs.cache.lemma_whole_blocks();
            assert(disk1.dom() =~= dom);
            lemma_u32_within(disk1[0], 0, 24);
            assert(division_in(disk1[0]) == d);
            lemma_blank(d, disk1);
            assert(efs.division().free_inodes(efs.disk()).contains(0));
        }
        let root: u32 = efs.alloc_inode();
        let ghost disk2 = efs.disk();
        assert(root == 0);
        assert forall|k: int| #[trigger] d.live(disk2, k) == (k == 0 || d.live(disk1, k)) by {
            assert(efs.live(k) == d.live(disk2, k));
        }
        proof {
            efs.cache.lemma_whole_blocks();
            assert(disk2.dom().contains(d.inode_start()));
        }
        let (root_block, root_offset) = efs.get_disk_inode_pos(0);
        let mut root_inode: DiskInode = efs.cache.load(root_block as usize, root_offset);
        root_inode.initialize(DiskInodeType::Directory);
        efs.cache.store(root_block as usize, root_offset, &root_inode);
        proof {
            d.lemma_new_file(disk1, disk2, efs.disk(), 0, root_inode@);
            assert(efs.files() =~= map![0int => (FileView {
                content: Seq::empty(),
                nlink: 1,
                directory: true,
            })]);
            assert(efs.slots() =~= Map::new(
                |i: int| d.slot(i),
                |i: int|
                    FileView {
                        content: Seq::empty(),
                        nlink: if i == 0 {
                            1
                        } else {
                            0
                        },
                        directory: i == 0,
                    },
            ));
        }
        efs.cache.block_cache_sync_all();
        efs
    }

    /// Opens the file system that lies on a device.
    pub fn open(device: D) -> (r: Self)
        requires
            whole_blocks(device.contents()),
            device.contents().dom().contains(0),
            division_in(device.contents()[0]).sound(device.contents()),
        ensures
            r.wf(),
            r.synced(),
            r.disk() == device.contents(),
            r.division() == division_in(device.contents()[0]),
    {
        let mut cache: BlockCacheManager<D> = BlockCacheManager::new(device);
        let super_block: SuperBlock = cache.load(0, 0);
        proof {
            lemma_u32_within(device.contents()[0], 0, 24);
        }
        let inode_total_blocks: u32 = super_block.inode_bitmap_blocks
            + super_block.inode_area_blocks;
        let mut r: Self = EasyFileSystem {
            cache,
            inode_bitmap: Bitmap::new(1, super_block.inode_bitmap_blocks as usize),
            data_bitmap: Bitmap::new(
                (1 + inode_total_blocks) as usize,
                super_block.data_bitmap_blocks as usize,
            ),
            inode_area_start_block: 1 + super_block.inode_bitmap_blocks,
            data_area_start_block: 1 + inode_total_blocks + super_block.data_bitmap_blocks,
            data_area_blocks: super_block.data_area_blocks,
        };
        r.cache.block_cache_sync_all();
        r
    }

    /// Where inode `inode_id` lies: its block and its place in the block.
    pub fn get_disk_inode_pos(&self, inode_id: u32) -> (r: (u32, usize))
        requires
            self.inode_area_start_block + inode_id as int / 4 <= u32::MAX,
        ensures
            r.0 == self.inode_area_start_block + inode_id as int / 4,
            r.1 == inode_id as int % 4 * 128,
    {
        let inodes_per_block: u32 = 4;
        let block_id: u32 = self.inode_area_start_block + inode_id / inodes_per_block;
        (block_id, (inode_id % inodes_per_block) as usize * 128)
    }

    /// Takes the first free inode. What the inode holds is not changed.
    pub fn alloc_inode(&mut self) -> (r: u32)
        requires
            old(self).placed(),
            exists|i: int| #[trigger] old(self).division().free_inodes(old(self).disk()).contains(i),
        ensures
            final(self).placed(),
            final(self).same_shape(old(self)),
            old(self).division().free_inodes(old(self).disk()).contains(r as int),
            forall|i: int|
                0 <= i < r ==> #[trigger] old(self).division().live(old(self).disk(), i),
            forall|i: int| #[trigger] final(self).live(i) == (i == r || old(self).live(i)),
            final(self).disk().dom() == old(self).disk().dom(),
            forall|b: int|
                !(1 <= b < old(self).division().inode_start()) ==> #[trigger] final(self).disk()[b]
                    == old(self).disk()[b],
    {
        let ghost d = self.division();
        let ghost disk = self.disk();
        let ghost i0 = choose|i: int| d.free_inodes(disk).contains(i);
        assert(self.inode_bitmap.is_set(disk, i0) == d.live(disk, i0));
        let n: Option<usize> = self.inode_bitmap.allocate(&mut self.cache);
        let n: usize = n.unwrap();
        assert forall|i: int| #[trigger] d.live(self.disk(), i) == (i == n || d.live(disk, i)) by {
            assert(self.inode_bitmap.is_set(self.disk(), i) == bit_at(self.disk(), 1, i));
            assert(self.inode_bitmap.is_set(disk, i) == bit_at(disk, 1, i));
        }
        assert forall|i: int| 0 <= i < n implies #[trigger] d.live(disk, i) by {
            assert(self.inode_bitmap.is_set(disk, i));
        }
        assert(self.disk().dom() =~= disk.dom());
        n as u32
    }

    /// Gives back an inode: its file is gone. What blocks it still has stay in use.
    pub fn dealloc_inode(&mut self, inode_id: u32)
        requires
            old(self).wf(),
            old(self).live(inode_id as int),
        ensures
            final(self).wf(),
            final(self).same_shape(old(self)),
            final(self).files() == old(self).files().remove(inode_id as int),
            final(self).slots() == old(self).slots(),
            final(self).division().free_inodes(final(self).disk()) == old(
                self,
            ).division().free_inodes(old(self).disk()).insert(inode_id as int),
            final(self).division().free_data(final(self).disk()) == old(self).division().free_data(
                old(self).disk(),
            ),
            forall|i: int| #[trigger] final(self).live(i) == (i != inode_id && old(self).live(i)),
    {
        let ghost d = self.division();
        let ghost disk = self.disk();
        let ghost n = inode_id as int;
        assert(self.inode_bitmap.is_set(disk, n) == d.live(disk, n));
        self.inode_bitmap.dealloc(&mut self.cache, inode_id as usize);
        let ghost disk2 = self.disk();
        proof {
            assert forall|i: int| #[trigger] d.live(disk2, i) == (i != n && d.live(disk, i)) by {
                assert(self.inode_bitmap.is_set(disk2, i) == bit_at(disk2, 1, i));
                assert(self.inode_bitmap.is_set(disk, i) == bit_at(disk, 1, i));
            }
            assert(disk2.dom() =~= disk.dom());
            assert(d.free_data(disk2) =~= d.free_data(disk));
            assert(d.free_inodes(disk2) =~= d.free_inodes(disk).insert(n));
            assert forall|j: int, b: int|
                d.slot(j) && #[trigger] d.owns(disk, j, b) implies disk2[b] == disk[b] && d.taken(
                disk2,
                b - d.data_start(),
            ) by {
                assert(d.file_sound(disk, j));
            }
            assert(d.file_sound(disk, n));
            d.lemma_same_file(disk, disk2, n);
            assert forall|b: int| #[trigger] d.owns(disk2, n, b) implies d.owns(disk, n, b) by {}
            d.lemma_change_one(disk, disk2, n);
            assert(d.slots(disk2) =~= d.slots(disk));
        }
    }

    /// Takes the first free data block.
    pub fn alloc_data(&mut self) -> (r: u32)
        requires
            old(self).wf(),
            exists|b: int| #[trigger] old(self).division().free_data(old(self).disk()).contains(b),
        ensures
            final(self).wf(),
            final(self).same_shape(old(self)),
            old(self).division().free_data(old(self).disk()).contains(r as int),
            forall|b: int|
                old(self).division().data_start() <= b < r ==> !#[trigger] old(
                    self,
                ).division().free_data(old(self).disk()).contains(b),
            final(self).division().free_data(final(self).disk()) == old(self).division().free_data(
                old(self).disk(),
            ).remove(r as int),
            final(self).files() == old(self).files(),
            final(self).slots() == old(self).slots(),
            final(self).disk().dom() == old(self).disk().dom(),
            forall|b: int|
                !(old(self).division().data_bitmap_start() <= b < old(
                    self,
                ).division().data_start()) ==> #[trigger] final(self).disk()[b] == old(
                    self,
                ).disk()[b],
    {
        let ghost d = self.division();
        let ghost disk = self.disk();
        let ghost b0 = choose|b: int| d.free_data(disk).contains(b);
        assert(self.data_bitmap.is_set(disk, b0 - d.data_start()) == d.taken(
            disk,
            b0 - d.data_start(),
        ));
        let n: Option<usize> = self.data_bitmap.allocate(&mut self.cache);
        let n: usize = n.unwrap();
        let ghost disk2 = self.disk();
        proof {
            assert forall|m: int| 0 <= m < d.data_bitmap * 4096 implies #[trigger] d.taken(disk2, m) == (m == n || d.taken(
                disk,
                m,
            )) by {
                assert(self.data_bitmap.is_set(disk2, m) == d.taken(disk2, m));
                assert(self.data_bitmap.is_set(disk, m) == d.taken(disk, m));
            }
            assert(disk2.dom() =~= disk.dom());
            d.lemma_outside_inodes(disk, disk2);
            d.lemma_change_one(disk, disk2, -1);
            assert(d.files(disk2) =~= d.files(disk));
            assert(d.free_data(disk2) =~= d.free_data(disk).remove(d.data_start() + n));
            assert forall|b: int| d.data_start() <= b < d.data_start() + n implies !#[trigger] d.free_data(
                disk,
            ).contains(b) by {
                assert(self.data_bitmap.is_set(disk, b - d.data_start()));
            }
        }
        self.data_area_start_block + n as u32
    }

    /// Gives back a data block that no file has: it is filled with zeros and is free.
    pub fn dealloc_data(&mut self, block_id: u32)
        requires
            old(self).wf(),
            old(self).division().is_data(block_id as int),
            old(self).division().taken(
                old(self).disk(),
                block_id - old(self).division().data_start(),
            ),
            forall|i: int|
                #[trigger] old(self).division().slot(i) ==> !old(self).division().owns(
                    old(self).disk(),
                    i,
                    block_id as int,
                ),
        ensures
            final(self).wf(),
            final(self).same_shape(old(self)),
            final(self).files() == old(self).files(),
            final(self).slots() == old(self).slots(),
            final(self).division().free_data(final(self).disk()) == old(self).division().free_data(
                old(self).disk(),
            ).insert(block_id as int),
            forall|i: int|
                old(self).division().slot(i) ==> #[trigger] final(self).division().inode(
                    final(self).disk(),
                    i,
                ) == old(self).division().inode(old(self).disk(), i),
            forall|i: int, b: int|
                old(self).division().slot(i) ==> #[trigger] final(self).division().owns(
                    final(self).disk(),
                    i,
                    b,
                ) == old(self).division().owns(old(self).disk(), i, b),
            forall|i: int| #[trigger] final(self).live(i) == old(self).live(i),
    {
        let ghost d = self.division();
        let ghost disk = self.disk();
        let zeros: [u8; BLOCK_SZ] = [0u8; BLOCK_SZ];
        self.cache.store(block_id as usize, 0, &zeros);
        let ghost disk1 = self.disk();
        proof {
            self.cache.lemma_whole_blocks();
        }
        let bit: usize = (block_id - self.data_area_start_block) as usize;
        assert(self.data_bitmap.is_set(disk1, bit as int) == d.taken(disk, bit as int));
        self.data_bitmap.dealloc(&mut self.cache, bit);
        let ghost disk2 = self.disk();
        proof {
            assert forall|m: int| 0 <= m < d.data_bitmap * 4096 implies #[trigger] d.taken(disk2, m)
                == (m != bit && d.taken(disk, m)) by {
                assert(self.data_bitmap.is_set(disk2, m) == d.taken(disk2, m));
                assert(self.data_bitmap.is_set(disk1, m) == d.taken(disk1, m));
            }
            assert(disk2.dom() =~= disk.dom());
            let ghost b0 = block_id as int;
            assert(disk1.dom().contains(b0));
            assert(disk1[b0].subrange(0, 512) =~= disk1[b0]);
            d.lemma_outside_inodes(disk, disk2);
            assert forall|j: int, b: int| d.slot(j) && #[trigger] d.owns(disk, j, b) implies b
                != b0 && d.is_data(b) && disk2[b] == disk[b] && d.taken(
                disk2,
                b - d.data_start(),
            ) by {
                assert(d.file_sound(disk, j));
            }
            d.lemma_change_one(disk, disk2, -1);
            assert(d.files(disk2) =~= d.files(disk));
            assert(d.free_data(disk2) =~= d.free_data(disk).insert(b0));
            assert forall|i: int, b: int| d.slot(i) implies #[trigger] d.owns(disk2, i, b)
                == d.owns(disk, i, b) by {
                assert(d.file_sound(disk, i));
                d.lemma_same_file(disk, disk2, i);
            }
        }
    }
}

/// How a disk of `total` blocks is divided when its inode bitmap gets `inode_bitmap` blocks: an
/// inode for every bit, and as large a data area as the rest can describe with a bitmap of its own.
pub open spec fn division_of(total: int, inode_bitmap: int) -> Division {
    let rest = total - 1 - inode_bitmap - inode_bitmap * 1024;
    Division {
        inode_bitmap,
        inode_area: inode_bitmap * 1024,
        data_bitmap: (rest + 4096) / 4097,
        data_area: rest - (rest + 4096) / 4097,
    }
}

/// A 32-bit integer inside a part of a block is that of the block.
proof fn lemma_u32_within(block: Seq<u8>, from: int, to: int)
    requires
        0 <= from <= to <= block.len(),
    ensures
        forall|k: int|
            0 <= k && k + 4 <= to - from ==> #[trigger] u32_at(block.subrange(from, to), k)
                == u32_at(block, from + k),
{
    assert forall|k: int| 0 <= k && k + 4 <= to - from implies #[trigger] u32_at(
        block.subrange(from, to),
        k,
    ) == u32_at(block, from + k) by {
        assert(block.subrange(from, to).subrange(k, k + 4) =~= block.subrange(
            from + k,
            from + k + 4,
        ));
    }
}

/// On a disk of zeros behind the super block nothing is in use.
proof fn lemma_blank(d: Division, disk: Map<int, Seq<u8>>)
    requires
        d.fits(disk),
        forall|b: int|
            1 <= b < d.end() ==> #[trigger] disk[b] == Seq::new(512, |j: int| 0u8),
    ensures
        d.sound(disk),
        forall|i: int| !#[trigger] d.live(disk, i),
        d.free_data(disk).len() == d.data_area,
        d.free_inodes(disk).len() == d.inodes(),
        d.files(disk) == Map::<int, FileView>::empty(),
        d.slots(disk) == Map::new(
            |i: int| d.slot(i),
            |i: int| FileView { content: Seq::empty(), nlink: 0, directory: false },
        ),
        d.free_data(disk).finite(),
        d.free_inodes(disk).finite(),
{
    assert forall|start: int, n: int|
        0 <= n && 1 <= start + n / 4096 < d.end() implies !#[trigger] bit_at(disk, start, n) by {
        lemma_zero_bit(disk[start + n / 4096], n);
    }
    assert forall|i: int| #[trigger] d.slot(i) implies {
        &&& d.file(disk, i) == (FileView { content: Seq::empty(), nlink: 0, directory: false })
        &&& d.blocks(disk, i) == Seq::<int>::empty()
        &&& d.file_sound(disk, i)
    } by {
        let b = d.inode_start() + i / 4;
        let part = disk[b].subrange(i % 4 * 128, i % 4 * 128 + 128);
        assert(1 <= b < d.end());
        lemma_zero_u32(part, 0);
        let v = d.inode(disk, i);
        assert(v.all_blocks(disk) =~= Seq::<int>::empty());
        assert(v.content(disk) =~= Seq::<u8>::empty());
    }
    assert(d.slots(disk) =~= Map::new(
        |i: int| d.slot(i),
        |i: int| FileView { content: Seq::empty(), nlink: 0, directory: false },
    ));
    assert(d.files(disk) =~= Map::<int, FileView>::empty());
    lemma_int_range(d.data_start(), d.end());
    assert(d.free_data(disk) =~= set_int_range(d.data_start(), d.end()));
    lemma_int_range(0, d.inodes());
    assert(d.free_inodes(disk) =~= set_int_range(0, d.inodes()));
}

proof fn lemma_zero_bit(block: Seq<u8>, n: int)
    requires
        0 <= n,
        block == Seq::new(512, |j: int| 0u8),
    ensures
        !bit_of(u64_at(block, 8 * (n % 4096 / 64)), n % 64),
{
    lemma_zero_u64(block, 8 * (n % 4096 / 64));
    let k = (n % 64) as u64;
    assert((0u64 >> k) & 1u64 == 0u64) by (bit_vector)
        requires
            k < 64,
    ;
}

} // verus!
