//! What lies on the disk: the super block, the inodes with their index blocks, the directory
//! entries.

use vstd::prelude::*;

use super::block_cache::BlockCacheManager;
use super::block_dev::{BlockDevice, BLOCK_SZ};
use super::codec::DiskLayout;
use vstd::slice::slice_subrange;
use vstd::string::StringSliceAdditionalSpecFns;
use vstd::utf8::valid_utf8;
use crate::bytes::{
    lemma_u32_bytes, read_u32, same_outside, splice, u32_at, u32_bytes, write_bytes, write_u32,
    zero_from,
};

verus! {

/// Marks a disk that holds this file system.
pub const EFS_MAGIC: u32 = 0x3b800001;

/// Data blocks that an inode names itself.
pub const INODE_DIRECT_COUNT: usize = 28;

/// The longest name of a file.
pub const NAME_LENGTH_LIMIT: usize = 27;

/// Block numbers in one index block.
pub const INODE_INDIRECT1_COUNT: usize = 128;

/// Data blocks reached through the second-level index block.
pub const INODE_INDIRECT2_COUNT: usize = 16384;

/// Data blocks reached directly or through the first-level index block.
pub const INDIRECT1_BOUND: usize = 156;

/// The most data blocks that a file can have.
pub const INDIRECT2_BOUND: usize = 16540;

/// The longest file, in bytes.
pub const MAX_FILE_SIZE: usize = 8468480;

/// What an inode stands for.
#[derive(PartialEq, Eq, Structural, Clone, Copy, Debug)]
pub enum DiskInodeType {
    File,
    Directory,
}

/// An inode as it lies on the disk, 128 bytes. It names the blocks of a file; it allocates and
/// frees none.
pub struct DiskInode {
    /// Length of the file, or of the entries of the directory, in bytes.
    pub size: u32,
    /// The first data blocks.
    pub direct: [u32; INODE_DIRECT_COUNT],
    /// The first-level index block.
    pub indirect1: u32,
    /// The second-level index block.
    pub indirect2: u32,
    /// How many directory entries name this inode.
    pub nlink: u8,
    pub type_: DiskInodeType,
}

/// The contents of an inode.
#[verifier::ext_equal]
pub struct InodeView {
    pub size: u32,
    pub direct: Seq<u32>,
    pub indirect1: u32,
    pub indirect2: u32,
    pub nlink: u8,
    pub directory: bool,
}

/// Data blocks of a file of `size` bytes.
pub open spec fn data_count(size: int) -> int {
    (size + 511) / 512
}

/// Data and index blocks of a file of `n` data blocks.
pub open spec fn block_count(n: int) -> int {
    if n <= 28 {
        n
    } else if n <= 156 {
        n + 1
    } else {
        n + 2 + (n - 156 + 127) / 128
    }
}

/// All blocks of a file of `size` bytes, index blocks among them.
pub open spec fn blocks_for(size: int) -> int {
    block_count(data_count(size))
}

impl InodeView {
    /// The first-level index block number `j` under the second-level index block.
    pub open spec fn index_block(self, disk: Map<int, Seq<u8>>, j: int) -> int {
        u32_at(disk[self.indirect2 as int], 4 * j) as int
    }

    /// The block that holds data block `i` of the file.
    pub open spec fn block_of(self, disk: Map<int, Seq<u8>>, i: int) -> int {
        if i < 28 {
            self.direct[i] as int
        } else if i < 156 {
            u32_at(disk[self.indirect1 as int], 4 * (i - 28)) as int
        } else {
            u32_at(disk[self.index_block(disk, (i - 156) / 128)], 4 * ((i - 156) % 128)) as int
        }
    }

    /// The index blocks that lead to data block `i` are on the disk.
    pub open spec fn path_on_disk(self, disk: Map<int, Seq<u8>>, i: int) -> bool {
        &&& 0 <= i < INDIRECT2_BOUND
        &&& 28 <= i < 156 ==> disk.dom().contains(self.indirect1 as int)
        &&& 156 <= i ==> {
            &&& disk.dom().contains(self.indirect2 as int)
            &&& disk.dom().contains(self.index_block(disk, (i - 156) / 128))
        }
    }

    /// Data block `i` can be reached: the index blocks and the block itself are on the disk.
    pub open spec fn reaches(self, disk: Map<int, Seq<u8>>, i: int) -> bool {
        &&& self.path_on_disk(disk, i)
        &&& disk.dom().contains(self.block_of(disk, i))
    }

    /// The blocks of a file in the order in which they are allocated: an index block comes right
    /// before the first data block that needs it.
    pub open spec fn nth_block(self, disk: Map<int, Seq<u8>>, p: int) -> int {
        if p < 28 {
            self.block_of(disk, p)
        } else if p == 28 {
            self.indirect1 as int
        } else if p < 157 {
            self.block_of(disk, p - 1)
        } else if p == 157 {
            self.indirect2 as int
        } else if (p - 158) % 129 == 0 {
            self.index_block(disk, (p - 158) / 129)
        } else {
            self.block_of(disk, 156 + (p - 158) / 129 * 128 + (p - 158) % 129 - 1)
        }
    }

    /// All blocks of the first `n` data blocks of a file, index blocks among them.
    pub open spec fn blocks(self, disk: Map<int, Seq<u8>>, n: int) -> Seq<int> {
        Seq::new(block_count(n) as nat, |p: int| self.nth_block(disk, p))
    }

    /// All blocks of the file.
    pub open spec fn all_blocks(self, disk: Map<int, Seq<u8>>) -> Seq<int> {
        self.blocks(disk, data_count(self.size as int))
    }

    /// The index of the file is in order: the file is not too long, its index blocks are on the disk,
    /// and no block serves twice.
    pub open spec fn indexed(self, disk: Map<int, Seq<u8>>) -> bool {
        &&& self.direct.len() == 28
        &&& data_count(self.size as int) <= INDIRECT2_BOUND
        &&& self.all_blocks(disk).no_duplicates()
        &&& index_on_disk(self.all_blocks(disk), disk)
    }

    /// The file is in order: it is not too long, its blocks are on the disk, and no block serves
    /// twice.
    pub open spec fn in_order(self, disk: Map<int, Seq<u8>>) -> bool {
        &&& self.direct.len() == 28
        &&& data_count(self.size as int) <= INDIRECT2_BOUND
        &&& self.all_blocks(disk).no_duplicates()
        &&& forall|p: int|
            0 <= p < self.all_blocks(disk).len() ==> disk.dom().contains(
                #[trigger] self.all_blocks(disk)[p],
            )
    }

    /// The bytes of the file.
    pub open spec fn content(self, disk: Map<int, Seq<u8>>) -> Seq<u8> {
        Seq::new(
            self.size as nat,
            |p: int| disk[self.block_of(disk, p / 512)][p % 512],
        )
    }

    /// The bytes of all data blocks of the file: its content, and the rest of the last block.
    pub open spec fn room(self, disk: Map<int, Seq<u8>>) -> Seq<u8> {
        Seq::new(
            (512 * data_count(self.size as int)) as nat,
            |p: int| disk[self.block_of(disk, p / 512)][p % 512],
        )
    }
}

/// Where data block `i` stands among the blocks of its file.
pub open spec fn data_position(i: int) -> int {
    if i < 28 {
        i
    } else if i < 156 {
        i + 1
    } else {
        159 + (i - 156) + (i - 156) / 128
    }
}

/// Where first-level index block `j` stands among the blocks of its file.
pub open spec fn index_position(j: int) -> int {
    158 + 129 * j
}

/// The data blocks and the index blocks of a file where `nth_block` puts them.
pub proof fn lemma_positions(v: InodeView, disk: Map<int, Seq<u8>>, n: int)
    requires
        0 <= n,
    ensures
        forall|i: int|
            0 <= i < n ==> {
                &&& 0 <= #[trigger] data_position(i) < block_count(n)
                &&& v.blocks(disk, n)[data_position(i)] == v.block_of(disk, i)
            },
        n > 28 ==> v.blocks(disk, n)[28] == v.indirect1 && block_count(n) > 28,
        n > 156 ==> v.blocks(disk, n)[157] == v.indirect2 && block_count(n) > 157,
        forall|j: int|
            0 <= j && 156 + 128 * j < n ==> {
                &&& 0 <= #[trigger] index_position(j) < block_count(n)
                &&& v.blocks(disk, n)[index_position(j)] == v.index_block(disk, j)
            },
{
    assert forall|i: int| 0 <= i < n implies {
        &&& 0 <= #[trigger] data_position(i) < block_count(n)
        &&& v.blocks(disk, n)[data_position(i)] == v.block_of(disk, i)
    } by {
        if i >= 156 {
            let p = data_position(i);
            let a = (i - 156) / 128;
            let r = (i - 156) % 128;
            assert(p - 158 == 129 * a + r + 1);
            assert((p - 158) / 129 == a);
            assert((p - 158) % 129 == r + 1);
        }
    }
    assert forall|j: int| 0 <= j && 156 + 128 * j < n implies {
        &&& 0 <= #[trigger] index_position(j) < block_count(n)
        &&& v.blocks(disk, n)[index_position(j)] == v.index_block(disk, j)
    } by {
        assert((129 * j) % 129 == 0);
    }
}

/// Where the index of a file is in order, the way to each of its data blocks is on the disk.
pub proof fn lemma_indexed_path(v: InodeView, disk: Map<int, Seq<u8>>, i: int)
    requires
        v.indexed(disk),
        0 <= i < data_count(v.size as int),
    ensures
        v.path_on_disk(disk, i),
{
    let n = data_count(v.size as int);
    lemma_positions(v, disk, n);
    let b = v.all_blocks(disk);
    if 28 <= i {
        assert(disk.dom().contains(b[28]));
    }
    if 156 <= i {
        assert(disk.dom().contains(b[157]));
        let j = (i - 156) / 128;
        assert(0 <= index_position(j) < block_count(n));
        assert((129 * j) % 129 == 0);
        assert(disk.dom().contains(b[index_position(j)]));
    }
}

/// A file in order can be reached in all its blocks.
pub proof fn lemma_in_order_reaches(v: InodeView, disk: Map<int, Seq<u8>>, i: int)
    requires
        v.in_order(disk),
        0 <= i < data_count(v.size as int),
    ensures
        v.reaches(disk, i),
{
    let n = data_count(v.size as int);
    lemma_positions(v, disk, n);
    let b = v.all_blocks(disk);
    assert(disk.dom().contains(b[data_position(i)]));
    if 28 <= i {
        assert(disk.dom().contains(b[28]));
    }
    if 156 <= i {
        assert(disk.dom().contains(b[157]));
        let j = (i - 156) / 128;
        assert(disk.dom().contains(b[index_position(j)]));
    }
}

impl View for DiskInode {
    type V = InodeView;

    open spec fn view(&self) -> InodeView {
        InodeView {
            size: self.size,
            direct: self.direct@,
            indirect1: self.indirect1,
            indirect2: self.indirect2,
            nlink: self.nlink,
            directory: self.type_ is Directory,
        }
    }
}

/// The inode that 128 bytes stand for.
pub open spec fn inode_in(bytes: Seq<u8>) -> InodeView {
    InodeView {
        size: u32_at(bytes, 0),
        direct: Seq::new(28, |i: int| u32_at(bytes, 4 + 4 * i)),
        indirect1: u32_at(bytes, 116),
        indirect2: u32_at(bytes, 120),
        nlink: bytes[124],
        directory: bytes[125] == 1,
    }
}

/// An inode takes 128 bytes, so four fit a block.
impl DiskLayout for DiskInode {
    open spec fn layout_size() -> nat {
        128
    }

    open spec fn stored_in(&self, bytes: Seq<u8>) -> bool {
        bytes.len() == 128 && self@ == inode_in(bytes)
    }

    fn size_in_bytes() -> (n: usize) {
        128
    }

    fn load(block: &[u8; BLOCK_SZ], offset: usize) -> (r: Self) {
        let ghost bytes = block@.subrange(offset as int, offset + 128);
        let mut direct: [u32; INODE_DIRECT_COUNT] = [0u32; INODE_DIRECT_COUNT];
        let mut i: usize = 0;
        assert forall|k: int| 0 <= k <= 124 implies #[trigger] u32_at(bytes, k) == u32_at(
            block@,
            offset + k,
        ) by {
            assert(bytes.subrange(k, k + 4) == block@.subrange(offset + k, offset + k + 4));
        }
        while i < INODE_DIRECT_COUNT
            invariant
                i <= 28,
                offset + 128 <= 512,
                forall|k: int|
                    0 <= k <= 124 ==> #[trigger] u32_at(bytes, k) == u32_at(block@, offset + k),
                forall|j: int| 0 <= j < i ==> #[trigger] direct@[j] == u32_at(bytes, 4 + 4 * j),
            decreases 28 - i,
        {
            assert(u32_at(bytes, 4 + 4 * i) == u32_at(block@, offset + (4 + 4 * i)));
            direct[i] = read_u32(block, offset + 4 + 4 * i);
            i += 1;
        }
        assert(u32_at(bytes, 0) == u32_at(block@, offset + 0));
        assert(u32_at(bytes, 116) == u32_at(block@, offset + 116));
        assert(u32_at(bytes, 120) == u32_at(block@, offset + 120));
        let type_: DiskInodeType = if block[offset + 125] == 1 {
            DiskInodeType::Directory
        } else {
            DiskInodeType::File
        };
        let r: DiskInode = DiskInode {
            size: read_u32(block, offset),
            direct,
            indirect1: read_u32(block, offset + 116),
            indirect2: read_u32(block, offset + 120),
            nlink: block[offset + 124],
            type_,
        };
        assert(r@ =~= inode_in(bytes));
        r
    }

    fn store(&self, block: &mut [u8; BLOCK_SZ], offset: usize) {
        let ghost before = block@;
        proof {
            lemma_u32_bytes();
        }
        write_u32(block, offset, self.size);
        let mut i: usize = 0;
        while i < INODE_DIRECT_COUNT
            invariant
                i <= 28,
                offset + 128 <= 512,
                same_outside(before, block@, offset as int, offset + 128),
                u32_at(block@, offset as int) == self.size,
                forall|j: int|
                    0 <= j < i ==> #[trigger] self.direct@[j] == u32_at(block@, offset + 4 + 4 * j),
            decreases 28 - i,
        {
            let ghost mid = block@;
            write_u32(block, offset + 4 + 4 * i, self.direct[i]);
            proof {
                lemma_u32_bytes();
                assert(mid.subrange(offset as int, offset + 4) == block@.subrange(
                    offset as int,
                    offset + 4,
                ));
                assert forall|j: int| 0 <= j < i + 1 implies #[trigger] self.direct@[j] == u32_at(
                    block@,
                    offset + 4 + 4 * j,
                ) by {
                    if j < i {
                        assert(mid.subrange(offset + 4 + 4 * j, offset + 4 + 4 * j + 4)
                            == block@.subrange(offset + 4 + 4 * j, offset + 4 + 4 * j + 4));
                    }
                }
            }
            i += 1;
        }
        let ghost mid = block@;
        write_u32(block, offset + 116, self.indirect1);
        let ghost mid1 = block@;
        write_u32(block, offset + 120, self.indirect2);
        let ghost mid2 = block@;
        block[offset + 124] = self.nlink;
        block[offset + 125] = match self.type_ {
            DiskInodeType::File => 0u8,
            DiskInodeType::Directory => 1u8,
        };
        block[offset + 126] = 0;
        block[offset + 127] = 0;
        let ghost bytes = block@.subrange(offset as int, offset + 128);
        proof {
            lemma_u32_bytes();
            assert(mid.subrange(offset as int, offset + 4) == bytes.subrange(0, 4));
            assert forall|j: int| 0 <= j < 28 implies #[trigger] self.direct@[j] == u32_at(
                bytes,
                4 + 4 * j,
            ) by {
                assert(mid.subrange(offset + 4 + 4 * j, offset + 4 + 4 * j + 4) == bytes.subrange(
                    4 + 4 * j,
                    4 + 4 * j + 4,
                ));
            }
            assert(mid1.subrange(offset + 116, offset + 120) == bytes.subrange(116, 120));
            assert(mid2.subrange(offset + 120, offset + 124) == bytes.subrange(120, 124));
            assert(self@ =~= inode_in(bytes));
        }
    }
}

/// Reads entry `i` of an index block.
fn index_entry<D: BlockDevice>(
    cache: &mut BlockCacheManager<D>,
    block_id: u32,
    i: usize,
) -> (r: u32)
    requires
        old(cache).wf(),
        old(cache).idle(),
        old(cache)@.dom().contains(block_id as int),
        i < 128,
    ensures
        final(cache).wf(),
        final(cache).idle(),
        final(cache)@ == old(cache)@,
        r == u32_at(old(cache)@[block_id as int], 4 * i as int),
{
    let entries: [u32; 128] = cache.load(block_id as usize, 0);
    let ghost bytes = cache@[block_id as int];
    assert(bytes.subrange(0, 512).len() == 512);
    assert(bytes.len() == 512) by {
        cache.lemma_whole_blocks();
    }
    assert(bytes.subrange(0, 512) == bytes);
    entries[i]
}

/// Sets entry `i` of an index block.
fn set_index_entry<D: BlockDevice>(
    cache: &mut BlockCacheManager<D>,
    block_id: u32,
    i: usize,
    value: u32,
)
    requires
        old(cache).wf(),
        old(cache).idle(),
        old(cache)@.dom().contains(block_id as int),
        i < 128,
    ensures
        final(cache).wf(),
        final(cache).idle(),
        final(cache)@ == old(cache)@.insert(block_id as int, final(cache)@[block_id as int]),
        forall|j: int|
            0 <= j < 128 ==> #[trigger] u32_at(final(cache)@[block_id as int], 4 * j) == (if j
                == i {
                value
            } else {
                u32_at(old(cache)@[block_id as int], 4 * j)
            }),
{
    let ghost before = cache@[block_id as int];
    proof {
        cache.lemma_whole_blocks();
    }
    let mut entries: [u32; 128] = cache.load(block_id as usize, 0);
    assert(before.subrange(0, 512) == before);
    let ghost was = entries@;
    assert forall|j: int| 0 <= j < 128 implies was[j] == #[trigger] u32_at(before, 4 * j) by {}
    entries[i] = value;
    cache.store(block_id as usize, 0, &entries);
    proof {
        cache.lemma_whole_blocks();
    }
    let ghost after = cache@[block_id as int];
    assert(after.subrange(0, 512) == after);
    assert forall|j: int| 0 <= j < 128 implies #[trigger] u32_at(after, 4 * j) == (if j == i {
        value
    } else {
        u32_at(before, 4 * j)
    }) by {
        assert(entries@[j] == u32_at(after, 4 * j));
    }
}

impl DiskInode {
    /// Makes this the inode of an empty file or directory with one name.
    pub fn initialize(&mut self, type_: DiskInodeType)
        ensures
            final(self)@ == (InodeView {
                size: 0,
                direct: Seq::new(28, |i: int| 0u32),
                indirect1: 0,
                indirect2: 0,
                nlink: 1,
                directory: type_ is Directory,
            }),
            final(self).type_ == type_,
    {
        self.size = 0;
        self.direct = [0u32; INODE_DIRECT_COUNT];
        self.indirect1 = 0;
        self.indirect2 = 0;
        self.nlink = 1;
        self.type_ = type_;
        assert(self.direct@ =~= Seq::new(28, |i: int| 0u32));
    }

    /// The inode of a directory.
    pub fn is_dir(&self) -> (r: bool)
        ensures
            r == self@.directory,
    {
        self.type_ == DiskInodeType::Directory
    }

    /// The inode of a file.
    pub fn is_file(&self) -> (r: bool)
        ensures
            r == !self@.directory,
    {
        self.type_ == DiskInodeType::File
    }

    /// How many data blocks the file has.
    pub fn data_blocks(&self) -> (r: u32)
        requires
            self.size + 512 <= u32::MAX,
        ensures
            r == data_count(self.size as int),
    {
        Self::_data_blocks(self.size)
    }

    fn _data_blocks(size: u32) -> (r: u32)
        requires
            size + 512 <= u32::MAX,
        ensures
            r == data_count(size as int),
    {
        (size + BLOCK_SZ as u32 - 1) / BLOCK_SZ as u32
    }

    /// How many blocks a file of `size` bytes has, index blocks among them.
    pub fn total_blocks(size: u32) -> (r: u32)
        requires
            size + 512 <= u32::MAX,
        ensures
            r == block_count(data_count(size as int)),
    {
        let data_blocks: usize = Self::_data_blocks(size) as usize;
        let mut total: usize = data_blocks;
        if data_blocks > INODE_DIRECT_COUNT {
            total += 1;
        }
        if data_blocks > INDIRECT1_BOUND {
            total += 1;
            total += ((data_blocks - INDIRECT1_BOUND) + INODE_INDIRECT1_COUNT - 1)
                / INODE_INDIRECT1_COUNT;
        }
        total as u32
    }

    /// How many blocks have to be allocated for the file to grow to `new_size` bytes.
    pub fn blocks_num_needed(&self, new_size: u32) -> (r: u32)
        requires
            self.size <= new_size,
            new_size + 512 <= u32::MAX,
        ensures
            r == block_count(data_count(new_size as int)) - block_count(
                data_count(self.size as int),
            ),
    {
        proof {
            lemma_block_count_monotone(data_count(self.size as int), data_count(new_size as int));
        }
        Self::total_blocks(new_size) - Self::total_blocks(self.size)
    }

    /// The block that holds data block `inner_id` of the file.
    pub fn get_block_id<D: BlockDevice>(
        &self,
        inner_id: u32,
        cache: &mut BlockCacheManager<D>,
    ) -> (r: u32)
        requires
            old(cache).wf(),
            old(cache).idle(),
            self@.path_on_disk(old(cache)@, inner_id as int),
        ensures
            final(cache).wf(),
            final(cache).idle(),
            final(cache)@ == old(cache)@,
            r == self@.block_of(old(cache)@, inner_id as int),
    {
        let inner_id: usize = inner_id as usize;
        if inner_id < INODE_DIRECT_COUNT {
            self.direct[inner_id]
        } else if inner_id < INDIRECT1_BOUND {
            index_entry(cache, self.indirect1, inner_id - INODE_DIRECT_COUNT)
        } else {
            let last: usize = inner_id - INDIRECT1_BOUND;
            let indirect1: u32 = index_entry(cache, self.indirect2, last / INODE_INDIRECT1_COUNT);
            index_entry(cache, indirect1, last % INODE_INDIRECT1_COUNT)
        }
    }

    /// Lets the file grow to `new_size` bytes: the index names `new_blocks` as its further blocks,
    /// in the order in which they are needed. A smaller `new_size` only changes the length.
    pub fn increase_size<D: BlockDevice>(
        &mut self,
        new_size: u32,
        new_blocks: Vec<u32>,
        cache: &mut BlockCacheManager<D>,
    )
        requires
            old(cache).wf(),
            old(cache).idle(),
            old(self)@.indexed(old(cache)@),
            new_size + 512 <= u32::MAX,
            can_grow(old(self)@, old(cache)@, new_size, new_blocks@),
        ensures
            final(cache).wf(),
            final(cache).idle(),
            grown(
                old(self)@,
                old(cache)@,
                new_size,
                new_blocks@,
                final(self)@,
                final(cache)@,
            ),
            final(self).type_ == old(self).type_,
    {
        let ghost v0 = self@;
        let ghost disk0 = cache@;
        let ghost n0 = data_count(self.size as int);
        let ghost n1 = data_count(new_size as int);
        let ghost target = growth(v0, disk0, new_size, new_blocks@);
        let mut current: u32 = self.data_blocks();
        self.size = new_size;
        let total: u32 = self.data_blocks();
        let mut used: usize = 0;
        proof {
            lemma_block_count_monotone(n0, if n0 <= n1 { n1 } else { n0 });
            assert(v0.all_blocks(disk0) == v0.blocks(disk0, n0));
            assert(filled(self@, cache@, target, n0)) by {
                lemma_same_blocks(v0, disk0, self@, cache@, n0);
                assert forall|p: int| 0 <= p < block_count(n0) implies #[trigger] self@.nth_block(
                    cache@,
                    p,
                ) == target[p] by {
                    assert(v0.blocks(disk0, n0)[p] == v0.nth_block(disk0, p));
                    assert(self@.blocks(disk0, n0)[p] == self@.nth_block(disk0, p));
                }
            }
        }
        while current < total && current < INODE_DIRECT_COUNT as u32
            invariant
                growing(v0, disk0, new_size, new_blocks@, target, self@, cache@, current as int,
                    block_count(current as int), used as int),
                self.type_ == old(self).type_,
                total == data_count(new_size as int),
                current <= 28 || current == data_count(v0.size as int),
                cache.wf(),
                cache.idle(),
            decreases total - current,
        {
            let ghost was = self@;
            proof {
                lemma_next_block(v0, disk0, new_size, new_blocks@, current as int, used as int);
            }
            let value: u32 = new_blocks[used];
            self.direct[current as usize] = value;
            proof {
                assert(self@ =~= (InodeView { direct: was.direct.update(current as int, value), ..was }));
                lemma_direct_step(was, self@, cache@, target, current as int, value);
            }
            current += 1;
            used += 1;
        }
        if total <= INODE_DIRECT_COUNT as u32 {
            proof {
                lemma_grown(v0, disk0, new_size, new_blocks@, target, self@, cache@, current as int,
                    block_count(current as int), used as int);
            }
            return ;
        }
        proof {
            lemma_index_positions(v0, disk0, new_size, new_blocks@);
        }
        if current == INODE_DIRECT_COUNT as u32 {
            let ghost was = self@;
            self.indirect1 = new_blocks[used];
            used += 1;
            assert forall|p: int| 0 <= p < block_count(current as int) implies #[trigger] self@.nth_block(
                cache@, p) == target[p] by {
                assert(was.nth_block(cache@, p) == target[p]);
            }
        }
        assert(self@.indirect1 == target[28]) by {
            if current > 28 {
                lemma_block_count_monotone(29, current as int);
                assert(self@.nth_block(cache@, 28) == target[28]);
            }
        }
        while current < total && current < INDIRECT1_BOUND as u32
            invariant
                growing(v0, disk0, new_size, new_blocks@, target, self@, cache@, current as int,
                    named(current as int, 29), used as int),
                self.type_ == old(self).type_,
                total == data_count(new_size as int),
                28 <= current,
                28 < total,
                current <= 156 || current == data_count(v0.size as int),
                self@.indirect1 == target[28],
                target.len() > 28,
                cache.wf(),
                cache.idle(),
            decreases total - current,
        {
            let ghost disk = cache@;
            proof {
                lemma_next_block(v0, disk0, new_size, new_blocks@, current as int, used as int);
                assert(disk0.dom().contains(target[28]));
            }
            let value: u32 = new_blocks[used];
            set_index_entry(
                cache,
                self.indirect1,
                (current - INODE_DIRECT_COUNT as u32) as usize,
                value,
            );
            proof {
                assert(is_index_of(target, target[28]));
                assert(cache@.dom() =~= disk.dom());
                lemma_indirect1_step(self@, disk, cache@, target, current as int, value);
            }
            current += 1;
            used += 1;
        }
        if total <= INDIRECT1_BOUND as u32 {
            proof {
                lemma_grown(v0, disk0, new_size, new_blocks@, target, self@, cache@, current as int,
                    named(current as int, 29), used as int);
            }
            return ;
        }
        if current == INDIRECT1_BOUND as u32 {
            let ghost was = self@;
            self.indirect2 = new_blocks[used];
            used += 1;
            assert forall|p: int| 0 <= p < block_count(current as int) implies #[trigger] self@.nth_block(
                cache@, p) == target[p] by {
                assert(was.nth_block(cache@, p) == target[p]);
            }
        }
        assert(self@.indirect2 == target[157]) by {
            if current > 156 {
                lemma_block_count_monotone(157, current as int);
                assert(self@.nth_block(cache@, 157) == target[157]);
            }
        }
        while current < total
            invariant
                growing(v0, disk0, new_size, new_blocks@, target, self@, cache@, current as int,
                    named(current as int, 158), used as int),
                self.type_ == old(self).type_,
                total == data_count(new_size as int),
                total <= INDIRECT2_BOUND,
                156 <= current,
                156 < total,
                self@.indirect1 == target[28],
                self@.indirect2 == target[157],
                target.len() > 157,
                target.no_duplicates(),
                cache.wf(),
                cache.idle(),
            decreases total - current,
        {
            let l2_current: usize = (current - INDIRECT1_BOUND as u32) as usize;
            let l2_idx: usize = l2_current / INODE_INDIRECT1_COUNT;
            let l1_idx: usize = l2_current % INODE_INDIRECT1_COUNT;
            let ghost a = l2_idx as int;
            proof {
                lemma_next_block(v0, disk0, new_size, new_blocks@, current as int, used as int);
                assert(disk0.dom().contains(target[157]));
                assert(disk0.dom().contains(target[index_position(a)]));
                assert(is_index_of(target, target[157]));
                assert(is_index_of(target, target[index_position(a)]));
            }
            if l1_idx == 0 {
                let ghost disk = cache@;
                let value: u32 = new_blocks[used];
                set_index_entry(cache, self.indirect2, l2_idx, value);
                proof {
                    assert(cache@.dom() =~= disk.dom());
                    lemma_indirect2_step(self@, disk, cache@, target, current as int, value);
                }
                used += 1;
            } else {
                assert(self@.nth_block(cache@, index_position(a)) == target[index_position(a)]);
            }
            let ghost disk = cache@;
            assert(self@.index_block(disk, a) == target[index_position(a)]);
            let indirect1: u32 = index_entry(cache, self.indirect2, l2_idx);
            let value: u32 = new_blocks[used];
            set_index_entry(cache, indirect1, l1_idx, value);
            proof {
                assert(cache@.dom() =~= disk.dom());
                lemma_indirect2_data_step(self@, disk, cache@, target, current as int, value);
            }
            current += 1;
            used += 1;
        }
        proof {
            lemma_grown(v0, disk0, new_size, new_blocks@, target, self@, cache@, current as int,
                named(current as int, 158), used as int);
        }
    }

    /// Empties the inode and returns all blocks that the file had, index blocks among them, in the
    /// order in which they were allocated.
    pub fn clear_size<D: BlockDevice>(&mut self, cache: &mut BlockCacheManager<D>) -> (r: Vec<u32>)
        requires
            old(cache).wf(),
            old(cache).idle(),
            data_count(old(self).size as int) <= INDIRECT2_BOUND,
            forall|i: int|
                0 <= i < data_count(old(self).size as int) ==> #[trigger] old(self)@.path_on_disk(
                    old(cache)@,
                    i,
                ),
        ensures
            final(cache).wf(),
            final(cache).idle(),
            final(cache)@ == old(cache)@,
            r@.map_values(|b: u32| b as int) == old(self)@.all_blocks(old(cache)@),
            final(self)@ == cleared(old(self)@),
            final(self).type_ == old(self).type_,
    {
        let ghost v0 = self@;
        let ghost disk = cache@;
        let n: usize = self.data_blocks() as usize;
        let ghost all = v0.all_blocks(disk);
        let mut v: Vec<u32> = Vec::new();
        self.size = 0;
        let mut current: usize = 0;
        while current < n && current < INODE_DIRECT_COUNT
            invariant
                current <= 28,
                current <= n,
                v@.len() == current,
                names(v@, v0, disk),
                v0.direct.len() == 28,
                self@ == (InodeView {
                    size: 0,
                    direct: Seq::new(
                        28,
                        |i: int|
                            if i < current {
                                0u32
                            } else {
                                v0.direct[i]
                            },
                    ),
                    ..v0
                }),
                self.type_ == old(self).type_,
            decreases n - current,
        {
            assert(self@.direct[current as int] == v0.direct[current as int]);
            v.push(self.direct[current]);
            self.direct[current] = 0;
            current += 1;
            assert(self@.direct =~= Seq::new(
                28,
                |i: int|
                    if i < current {
                        0u32
                    } else {
                        v0.direct[i]
                    },
            ));
        }
        if n <= INODE_DIRECT_COUNT {
            assert(self@ =~= cleared(v0));
            assert(v@.map_values(|b: u32| b as int) =~= all);
            return v;
        }
        v.push(self.indirect1);
        let index1: u32 = self.indirect1;
        assert(v0.path_on_disk(disk, 28));
        while current < n && current < INDIRECT1_BOUND
            invariant
                28 <= current <= 156,
                current <= n,
                v@.len() == current + 1,
                names(v@, v0, disk),
                cache.wf(),
                cache.idle(),
                cache@ == disk,
                index1 == v0.indirect1,
                disk.dom().contains(index1 as int),
            decreases n - current,
        {
            let b: u32 = index_entry(cache, index1, current - INODE_DIRECT_COUNT);
            v.push(b);
            current += 1;
        }
        self.indirect1 = 0;
        if n <= INDIRECT1_BOUND {
            assert(self@ =~= cleared(v0));
            assert(v@.map_values(|b: u32| b as int) =~= all);
            return v;
        }
        v.push(self.indirect2);
        let index2: u32 = self.indirect2;
        assert(v0.path_on_disk(disk, 156));
        while current < n
            invariant
                156 <= current <= n <= 16540,
                v@.len() == named(current as int, 158),
                names(v@, v0, disk),
                cache.wf(),
                cache.idle(),
                cache@ == disk,
                index2 == v0.indirect2,
                disk.dom().contains(index2 as int),
                forall|i: int| 0 <= i < n ==> #[trigger] v0.path_on_disk(disk, i),
            decreases n - current,
        {
            let last: usize = current - INDIRECT1_BOUND;
            let l2_idx: usize = last / INODE_INDIRECT1_COUNT;
            let l1_idx: usize = last % INODE_INDIRECT1_COUNT;
            let ghost a = l2_idx as int;
            let b: u32 = index_entry(cache, index2, l2_idx);
            assert(v0.path_on_disk(disk, current as int));
            if l1_idx == 0 {
                assert(v@.len() == index_position(a));
                assert((129 * a) % 129 == 0);
                v.push(b);
            }
            let ghost p = v@.len() as int;
            assert(p == data_position(current as int));
            assert(p - 158 == 129 * a + l1_idx + 1);
            assert((p - 158) / 129 == a);
            assert((p - 158) % 129 == l1_idx + 1);
            let d: u32 = index_entry(cache, b, l1_idx);
            v.push(d);
            current += 1;
        }
        self.indirect2 = 0;
        assert(self@ =~= cleared(v0));
        assert(v@.map_values(|b: u32| b as int) =~= all);
        v
    }

    /// Reads from byte `offset` of the file on into `buf`, as far as the file and the buffer go.
    /// Returns how many bytes were read.
    pub fn read_at<D: BlockDevice>(
        &self,
        offset: usize,
        buf: &mut [u8],
        cache: &mut BlockCacheManager<D>,
    ) -> (r: usize)
        requires
            old(cache).wf(),
            old(cache).idle(),
            offset + old(buf)@.len() <= usize::MAX,
            forall|i: int|
                offset as int / 512 <= i < data_count(
                    read_end(offset as int, old(buf)@.len() as int, self.size as int),
                ) ==> #[trigger] self@.reaches(old(cache)@, i),
        ensures
            final(cache).wf(),
            final(cache).idle(),
            final(cache)@ == old(cache)@,
            r == read_len(offset as int, old(buf)@.len() as int, self.size as int),
            read_into(old(buf)@, final(buf)@, self@.content(old(cache)@), offset as int, r as int),
    {
        let ghost disk = cache@;
        let ghost before = buf@;
        let ghost content = self@.content(disk);
        let mut start: usize = offset;
        let end: usize = if offset + buf.len() <= self.size as usize {
            offset + buf.len()
        } else {
            self.size as usize
        };
        if start >= end {
            return 0;
        }
        let mut read_size: usize = 0;
        while start < end
            invariant
                offset <= start <= end,
                end == read_end(offset as int, before.len() as int, self.size as int),
                read_size == start - offset,
                end - offset <= before.len(),
                buf@.len() == before.len(),
                end <= self.size,
                start == offset || start == end || start % 512 == 0,
                disk == cache@,
                content == self@.content(disk),
                cache.wf(),
                cache.idle(),
                forall|i: int| 0 <= i < read_size ==> #[trigger] buf@[i] == content[offset + i],
                forall|i: int| read_size <= i < buf@.len() ==> #[trigger] buf@[i] == before[i],
                forall|i: int|
                    offset as int / 512 <= i < data_count(end as int)
                        ==> #[trigger] self@.reaches(disk, i),
            decreases end - start,
        {
            let start_block: usize = start / BLOCK_SZ;
            assert(self@.reaches(disk, start_block as int));
            let end_current_block: usize = (start / BLOCK_SZ + 1) * BLOCK_SZ;
            let end_in_block: usize = if end <= end_current_block {
                end
            } else {
                end_current_block
            };
            let block_read_size: usize = end_in_block - start;
            let block_id: u32 = self.get_block_id(start_block as u32, cache);
            let data: [u8; BLOCK_SZ] = cache.load(block_id as usize, 0);
            proof {
                cache.lemma_whole_blocks();
            }
            let ghost bytes = disk[block_id as int];
            assert(bytes.subrange(0, 512) == bytes);
            let mut k: usize = 0;
            while k < block_read_size
                invariant
                    k <= block_read_size,
                    block_read_size <= 512 - start % 512,
                    block_read_size == end_in_block - start,
                    start + block_read_size <= end <= self.size,
                    read_size == start - offset,
                    read_size + block_read_size <= before.len(),
                    buf@.len() == before.len(),
                    start_block == start / 512,
                    data@ == disk[self@.block_of(disk, start_block as int)],
                    content == self@.content(disk),
                    offset <= start,
                    forall|i: int|
                        0 <= i < read_size + k ==> #[trigger] buf@[i] == content[offset + i],
                    forall|i: int|
                        read_size + k <= i < buf@.len() ==> #[trigger] buf@[i] == before[i],
                decreases block_read_size - k,
            {
                assert((start + k) as int / 512 == start_block);
                assert((start + k) as int % 512 == start % 512 + k);
                assert(content[start + k] == data@[start % 512 + k]);
                buf[read_size + k] = data[start % BLOCK_SZ + k];
                k += 1;
            }
            read_size += block_read_size;
            start = end_in_block;
        }
        read_size
    }

    /// Writes `buf` over the file from byte `offset` on, as far as the file goes: the file does not
    /// grow. Returns how many bytes were written.
    pub fn write_at<D: BlockDevice>(
        &mut self,
        offset: usize,
        buf: &[u8],
        cache: &mut BlockCacheManager<D>,
    ) -> (r: usize)
        requires
            old(cache).wf(),
            old(cache).idle(),
            offset + buf@.len() <= usize::MAX,
            offset <= old(self).size,
            old(self)@.in_order(old(cache)@),
            offset == read_end(offset as int, buf@.len() as int, old(self).size as int) ==> old(
                self,
            )@.reaches(old(cache)@, offset as int / 512),
        ensures
            final(cache).wf(),
            final(cache).idle(),
            *final(self) == *old(self),
            r == read_end(offset as int, buf@.len() as int, old(self).size as int) - offset,
            written(old(self)@, old(cache)@, final(cache)@),
            final(self)@.content(final(cache)@) == splice(
                old(self)@.content(old(cache)@),
                offset as int,
                buf@,
            ),
            final(self)@.room(final(cache)@) == splice(
                old(self)@.room(old(cache)@),
                offset as int,
                buf@.take(r as int),
            ),
    {
        let ghost disk0 = cache@;
        let ghost v = self@;
        let ghost n = data_count(v.size as int);
        let ghost room0 = v.room(disk0);
        let mut start: usize = offset;
        let end: usize = if offset + buf.len() <= self.size as usize {
            offset + buf.len()
        } else {
            self.size as usize
        };
        let mut write_size: usize = 0;
        assert(v.room(disk0) =~= splice(room0, offset as int, buf@.take(0)));
        loop
            invariant_except_break
                offset <= start <= end,
                start < end || start == offset,
                end == read_end(offset as int, buf@.len() as int, v.size as int),
                write_size == start - offset,
                end - offset <= buf@.len() <= usize::MAX,
                end <= v.size,
                v == self@,
                *self == *old(self),
                n == data_count(v.size as int),
                v.in_order(disk0),
                v.in_order(cache@),
                written(v, disk0, cache@),
                start == end ==> v.reaches(cache@, start as int / 512),
                room0 == v.room(disk0),
                v.room(cache@) == splice(room0, offset as int, buf@.take(write_size as int)),
                cache.wf(),
                cache.idle(),
            ensures
                v == self@,
                *self == *old(self),
                end == read_end(offset as int, buf@.len() as int, v.size as int),
                write_size == end - offset,
                written(v, disk0, cache@),
                v.room(cache@) == splice(room0, offset as int, buf@.take(write_size as int)),
                cache.wf(),
                cache.idle(),
            decreases end - start,
        {
            let ghost disk = cache@;
            let start_block: usize = start / BLOCK_SZ;
            proof {
                if start < end {
                    lemma_in_order_reaches(v, disk, start_block as int);
                }
            }
            let end_current_block: usize = (start / BLOCK_SZ + 1) * BLOCK_SZ;
            let end_in_block: usize = if end <= end_current_block {
                end
            } else {
                end_current_block
            };
            let block_write_size: usize = end_in_block - start;
            let block_id: u32 = self.get_block_id(start_block as u32, cache);
            let mut data: [u8; BLOCK_SZ] = cache.load(block_id as usize, 0);
            proof {
                cache.lemma_whole_blocks();
            }
            let ghost bytes = disk[block_id as int];
            assert(bytes.subrange(0, 512) == bytes);
            let mut k: usize = 0;
            while k < block_write_size
                invariant
                    k <= block_write_size,
                    block_write_size <= 512 - start % 512,
                    write_size + block_write_size <= buf@.len() <= usize::MAX,
                    data@ == splice(
                        bytes,
                        start as int % 512,
                        buf@.subrange(write_size as int, write_size + k),
                    ),
                decreases block_write_size - k,
            {
                data[start % BLOCK_SZ + k] = buf[write_size + k];
                k += 1;
                assert(data@ =~= splice(
                    bytes,
                    start as int % 512,
                    buf@.subrange(write_size as int, write_size + k),
                ));
            }
            cache.store(block_id as usize, 0, &data);
            proof {
                cache.lemma_whole_blocks();
                assert(cache@[block_id as int].subrange(0, 512) == cache@[block_id as int]);
                assert(cache@ =~= disk.insert(block_id as int, data@));
                if start < end {
                    lemma_write_block(
                        v,
                        disk,
                        start as int,
                        buf@.subrange(write_size as int, write_size + block_write_size),
                        data@,
                    );
                    lemma_splice_on(
                        room0,
                        offset as int,
                        buf@.take(write_size as int),
                        buf@.subrange(write_size as int, write_size + block_write_size),
                    );
                    assert(buf@.take(write_size as int) + buf@.subrange(
                        write_size as int,
                        write_size + block_write_size,
                    ) =~= buf@.take(write_size + block_write_size));
                } else {
                    assert(data@ =~= bytes);
                    assert(cache@ =~= disk);
                }
                lemma_written_on(v, disk0, disk, cache@);
            }
            write_size += block_write_size;
            if end_in_block == end {
                break ;
            }
            start = end_in_block;
        }
        assert(v.content(cache@) =~= splice(v.content(disk0), offset as int, buf@)) by {
            lemma_content_of_room(v, disk0);
            lemma_content_of_room(v, cache@);
        }
        write_size
    }
}

/// The blocks of the file are where they were, and on the disk only data blocks of the file have
/// changed.
pub open spec fn written(v: InodeView, disk: Map<int, Seq<u8>>, disk2: Map<int, Seq<u8>>) -> bool {
    &&& disk2.dom() == disk.dom()
    &&& v.all_blocks(disk2) == v.all_blocks(disk)
    &&& forall|b: int|
        disk.dom().contains(b) && !is_data_of(v.all_blocks(disk), b) ==> #[trigger] disk2[b]
            == disk[b]
}

/// `b` is a data block among these blocks of a file.
pub open spec fn is_data_of(blocks: Seq<int>, b: int) -> bool {
    exists|p: int| 0 <= p < blocks.len() && !is_index_position(p) && #[trigger] blocks[p] == b
}

proof fn lemma_written_on(
    v: InodeView,
    disk0: Map<int, Seq<u8>>,
    disk: Map<int, Seq<u8>>,
    disk2: Map<int, Seq<u8>>,
)
    requires
        written(v, disk0, disk),
        written(v, disk, disk2),
    ensures
        written(v, disk0, disk2),
{
}

proof fn lemma_splice_on(bytes: Seq<u8>, off: int, a: Seq<u8>, b: Seq<u8>)
    requires
        0 <= off,
        off + a.len() + b.len() <= bytes.len(),
    ensures
        splice(splice(bytes, off, a), off + a.len(), b) == splice(bytes, off, a + b),
{
    assert(splice(splice(bytes, off, a), off + a.len(), b) =~= splice(bytes, off, a + b));
}

/// If the index blocks of a file are as before, so is where its blocks are.
pub proof fn lemma_same_index(
    v: InodeView,
    disk: Map<int, Seq<u8>>,
    disk2: Map<int, Seq<u8>>,
    n: int,
)
    requires
        0 <= n,
        forall|p: int|
            0 <= p < block_count(n) && is_index_position(p) ==> disk2[#[trigger] v.blocks(
                disk,
                n,
            )[p]] == disk[v.blocks(disk, n)[p]],
    ensures
        v.blocks(disk2, n) == v.blocks(disk, n),
        forall|i: int| 0 <= i < n ==> #[trigger] v.block_of(disk2, i) == v.block_of(disk, i),
{
    lemma_positions(v, disk, n);
    let b = v.blocks(disk, n);
    if n > 28 {
        assert(disk2[b[28]] == disk[b[28]]);
    }
    if n > 156 {
        assert(disk2[b[157]] == disk[b[157]]);
    }
    assert forall|j: int| 0 <= j && 156 + 128 * j < n implies #[trigger] v.index_block(disk2, j)
        == v.index_block(disk, j) && disk2[v.index_block(disk, j)] == disk[v.index_block(
        disk,
        j,
    )] by {
        assert(b[index_position(j)] == v.index_block(disk, j));
        assert((129 * j) % 129 == 0);
        assert(disk2[b[index_position(j)]] == disk[b[index_position(j)]]);
    }
    assert forall|i: int| 0 <= i < n implies #[trigger] v.block_of(disk2, i) == v.block_of(
        disk,
        i,
    ) by {
        if i >= 156 {
            let j = (i - 156) / 128;
            assert(v.index_block(disk2, j) == v.index_block(disk, j));
        }
    }
    assert forall|p: int| 0 <= p < block_count(n) implies v.nth_block(disk2, p)
        == #[trigger] v.nth_block(disk, p) by {
        if p >= 158 {
            let j = (p - 158) / 129;
            assert(156 + 128 * j < n);
            assert(v.index_block(disk2, j) == v.index_block(disk, j));
            if (p - 158) % 129 != 0 {
                let i = 156 + j * 128 + (p - 158) % 129 - 1;
                assert(i < n);
            }
        }
    }
    assert(v.blocks(disk2, n) =~= v.blocks(disk, n));
}

/// The content of a file is the beginning of its data blocks.
pub proof fn lemma_content_of_room(v: InodeView, disk: Map<int, Seq<u8>>)
    ensures
        v.content(disk) == v.room(disk).take(v.size as int),
{
    assert(v.content(disk) =~= v.room(disk).take(v.size as int));
}

/// A write inside one data block of a file.
proof fn lemma_write_block(
    v: InodeView,
    disk: Map<int, Seq<u8>>,
    start: int,
    src: Seq<u8>,
    data: Seq<u8>,
)
    requires
        v.in_order(disk),
        0 <= start,
        start + src.len() <= v.size,
        src.len() <= 512 - start % 512,
        start < v.size,
        disk[v.block_of(disk, start / 512)].len() == 512,
        data == splice(disk[v.block_of(disk, start / 512)], start % 512, src),
    ensures
        ({
            let disk2 = disk.insert(v.block_of(disk, start / 512), data);
            &&& v.in_order(disk2)
            &&& written(v, disk, disk2)
            &&& v.room(disk2) == splice(v.room(disk), start, src)
        }),
{
    let n = data_count(v.size as int);
    let i0 = start / 512;
    let b0 = v.block_of(disk, i0);
    let disk2 = disk.insert(b0, data);
    let all = v.all_blocks(disk);
    lemma_positions(v, disk, n);
    lemma_in_order_reaches(v, disk, i0);
    let p0 = data_position(i0);
    assert(all[p0] == b0);
    assert(!is_index_position(p0)) by {
        lemma_data_position(i0);
    }
    assert forall|p: int| 0 <= p < block_count(n) && is_index_position(p) implies disk2[#[trigger] v.blocks(
        disk,
        n,
    )[p]] == disk[v.blocks(disk, n)[p]] by {
        assert(all[p] != all[p0]);
    }
    lemma_same_index(v, disk, disk2, n);
    assert(disk2.dom() =~= disk.dom());
    assert(v.in_order(disk2));
    assert(is_data_of(all, b0));
    let c = v.room(disk);
    let c2 = v.room(disk2);
    assert forall|q: int| 0 <= q < 512 * n implies #[trigger] c2[q] == splice(c, start, src)[q] by {
        let i = q / 512;
        assert(v.block_of(disk2, i) == v.block_of(disk, i));
        if i != i0 {
            lemma_data_position(i);
            lemma_data_position(i0);
            assert(all[data_position(i)] == v.block_of(disk, i));
            assert(data_position(i) != data_position(i0)) by {
                lemma_data_position_injective(i, i0);
            }
            assert(all[data_position(i)] != all[p0]);
            assert(!(start <= q < start + src.len())) by {
                if start <= q < start + src.len() {
                    assert(q / 512 == start / 512);
                }
            }
        } else {
            assert(q == i0 * 512 + q % 512);
            assert(start == i0 * 512 + start % 512);
        }
    }
    assert(c2 =~= splice(c, start, src));
}

pub proof fn lemma_data_position(i: int)
    requires
        0 <= i,
    ensures
        !is_index_position(data_position(i)),
{
    if i >= 156 {
        let a = (i - 156) / 128;
        let r = (i - 156) % 128;
        let p = data_position(i);
        assert(p - 158 == 129 * a + r + 1);
        assert((p - 158) % 129 == r + 1);
    }
}

pub proof fn lemma_data_position_injective(i: int, j: int)
    requires
        0 <= i,
        0 <= j,
        i != j,
    ensures
        data_position(i) != data_position(j),
{
}

/// Where a read of `len` bytes from `offset` on stops in a file of `size` bytes.
pub open spec fn read_end(offset: int, len: int, size: int) -> int {
    if offset + len <= size {
        offset + len
    } else {
        size
    }
}

/// How many bytes a read of `len` bytes from `offset` on gives in a file of `size` bytes.
pub open spec fn read_len(offset: int, len: int, size: int) -> int {
    if offset >= read_end(offset, len, size) {
        0
    } else {
        read_end(offset, len, size) - offset
    }
}

/// `after` is the buffer `before` with `n` bytes of `content` from `offset` on read into it.
pub open spec fn read_into(
    before: Seq<u8>,
    after: Seq<u8>,
    content: Seq<u8>,
    offset: int,
    n: int,
) -> bool {
    &&& after.len() == before.len()
    &&& forall|i: int| 0 <= i < n ==> #[trigger] after[i] == content[offset + i]
    &&& forall|i: int| n <= i < after.len() ==> #[trigger] after[i] == before[i]
}

/// The inode without its blocks: what named one of them is zero.
pub open spec fn cleared(v: InodeView) -> InodeView {
    let n = data_count(v.size as int);
    InodeView {
        size: 0,
        direct: Seq::new(
            28,
            |i: int|
                if i < n {
                    0u32
                } else {
                    v.direct[i]
                },
        ),
        indirect1: if n > 28 {
            0
        } else {
            v.indirect1
        },
        indirect2: if n > 156 {
            0
        } else {
            v.indirect2
        },
        ..v
    }
}

/// `list` is a beginning of the blocks of the file.
spec fn names(list: Seq<u32>, v: InodeView, disk: Map<int, Seq<u8>>) -> bool {
    forall|p: int| 0 <= p < list.len() ==> #[trigger] list[p] == v.nth_block(disk, p)
}

/// How many blocks of a file are named when its first `n` data blocks are in place and at least
/// `least` blocks are named.
spec fn named(n: int, least: int) -> int {
    if block_count(n) < least {
        least
    } else {
        block_count(n)
    }
}

/// The next data block of a growing file comes from the new blocks, after the index blocks that it
/// needs.
proof fn lemma_next_block(
    v: InodeView,
    disk: Map<int, Seq<u8>>,
    new_size: u32,
    new_blocks: Seq<u32>,
    current: int,
    used: int,
)
    requires
        can_grow(v, disk, new_size, new_blocks),
        data_count(v.size as int) <= current < data_count(new_size as int),
    ensures
        ({
            let target = growth(v, disk, new_size, new_blocks);
            let had = block_count(data_count(v.size as int));
            let p = data_position(current);
            &&& target.len() == block_count(data_count(new_size as int))
            &&& p < target.len()
            &&& 0 <= p - had < new_blocks.len()
            &&& target[p] == new_blocks[p - had]
            &&& current >= 156 ==> {
                let q = index_position((current - 156) / 128);
                &&& 0 <= q < target.len()
                &&& (current - 156) % 128 == 0 ==> q == p - 1 && 0 <= q - had && target[q]
                    == new_blocks[q - had]
                &&& (current - 156) % 128 != 0 ==> q < block_count(current)
                &&& is_index_position(q)
            }
        }),
{
    let n0 = data_count(v.size as int);
    let n1 = data_count(new_size as int);
    lemma_block_count_monotone(n0, n1);
    lemma_positions(v, disk, n1);
    assert(v.all_blocks(disk).len() == block_count(n0));
    assert(0 <= data_position(current) < block_count(n1));
    if current >= 156 {
        let j = (current - 156) / 128;
        assert(0 <= index_position(j) < block_count(n1));
    }
}

/// The first index blocks of a growing file have their place among its blocks.
proof fn lemma_index_positions(
    v: InodeView,
    disk: Map<int, Seq<u8>>,
    new_size: u32,
    new_blocks: Seq<u32>,
)
    requires
        can_grow(v, disk, new_size, new_blocks),
    ensures
        ({
            let target = growth(v, disk, new_size, new_blocks);
            let n0 = data_count(v.size as int);
            let n1 = data_count(new_size as int);
            let had = block_count(n0);
            &&& n1 > 28 ==> target.len() > 28
            &&& n1 > 156 ==> target.len() > 157
            &&& n0 <= 28 < n1 ==> 0 <= 28 - had < new_blocks.len() && target[28] == new_blocks[28
                - had]
            &&& n0 <= 156 < n1 ==> 0 <= 157 - had < new_blocks.len() && target[157]
                == new_blocks[157 - had]
        }),
{
    let n0 = data_count(v.size as int);
    let n1 = data_count(new_size as int);
    assert(v.all_blocks(disk).len() == block_count(n0));
    lemma_block_count_monotone(n0, if n0 <= n1 { n1 } else { n0 });
    lemma_block_count_monotone(n1, if n0 <= n1 { n1 } else { n0 });
}

proof fn lemma_indirect1_step(
    v: InodeView,
    disk: Map<int, Seq<u8>>,
    disk2: Map<int, Seq<u8>>,
    target: Seq<int>,
    current: int,
    value: u32,
)
    requires
        28 <= current < 156,
        filled(v, disk, target, current),
        v.indirect1 == target[28],
        target[data_position(current)] == value,
        forall|j: int|
            0 <= j < 128 ==> #[trigger] u32_at(disk2[v.indirect1 as int], 4 * j) == (if j == current
                - 28 {
                value
            } else {
                u32_at(disk[v.indirect1 as int], 4 * j)
            }),
    ensures
        filled(v, disk2, target, current + 1),
{
    assert forall|p: int| 0 <= p < block_count(current + 1) implies #[trigger] v.nth_block(disk2, p)
        == target[p] by {
        if p != 28 && p != current + 1 {
            assert(v.nth_block(disk, p) == target[p]);
        }
    }
}

/// The index blocks of a file are different blocks.
proof fn lemma_distinct(target: Seq<int>, p: int, q: int)
    requires
        target.no_duplicates(),
        0 <= p < target.len(),
        0 <= q < target.len(),
        p != q,
    ensures
        target[p] != target[q],
{
}

proof fn lemma_indirect2_step(
    v: InodeView,
    disk: Map<int, Seq<u8>>,
    disk2: Map<int, Seq<u8>>,
    target: Seq<int>,
    current: int,
    value: u32,
)
    requires
        156 <= current,
        (current - 156) % 128 == 0,
        filled(v, disk, target, current),
        target.no_duplicates(),
        block_count(current) <= target.len(),
        157 < target.len(),
        v.indirect1 == target[28],
        v.indirect2 == target[157],
        target[index_position((current - 156) / 128)] == value,
        (current - 156) / 128 < 128,
        disk2 == disk.insert(v.indirect2 as int, disk2[v.indirect2 as int]),
        forall|j: int|
            0 <= j < 128 ==> #[trigger] u32_at(disk2[v.indirect2 as int], 4 * j) == (if j == (
            current - 156) / 128 {
                value
            } else {
                u32_at(disk[v.indirect2 as int], 4 * j)
            }),
    ensures
        filled(v, disk2, target, current),
        v.index_block(disk2, (current - 156) / 128) == value,
{
    let a = (current - 156) / 128;
    lemma_distinct(target, 28, 157);
    assert forall|j: int| 0 <= j < a implies #[trigger] v.index_block(disk2, j) == v.index_block(
        disk,
        j,
    ) && v.index_block(disk, j) == target[index_position(j)] && index_position(j) < block_count(
        current,
    ) by {
        assert(index_position(j) < block_count(current));
        assert(v.nth_block(disk, index_position(j)) == target[index_position(j)]) by {
            assert((129 * j) % 129 == 0);
        }
    }
    assert forall|p: int| 0 <= p < block_count(current) implies #[trigger] v.nth_block(disk2, p)
        == target[p] by {
        assert(v.nth_block(disk, p) == target[p]);
        if p >= 158 {
            let j = (p - 158) / 129;
            assert(j < a);
            assert(v.index_block(disk2, j) == v.index_block(disk, j));
            lemma_distinct(target, index_position(j), 157);
            if (p - 158) % 129 != 0 {
                let i = 156 + j * 128 + (p - 158) % 129 - 1;
                assert((i - 156) / 128 == j);
            }
        }
    }
}

proof fn lemma_indirect2_data_step(
    v: InodeView,
    disk: Map<int, Seq<u8>>,
    disk2: Map<int, Seq<u8>>,
    target: Seq<int>,
    current: int,
    value: u32,
)
    requires
        156 <= current,
        filled(v, disk, target, current),
        target.no_duplicates(),
        block_count(current + 1) <= target.len(),
        v.indirect1 == target[28],
        v.indirect2 == target[157],
        target[data_position(current)] == value,
        ({
            let a = (current - 156) / 128;
            let b = v.index_block(disk, a);
            &&& b == target[index_position(a)]
            &&& disk2 == disk.insert(b, disk2[b])
            &&& forall|j: int|
                0 <= j < 128 ==> #[trigger] u32_at(disk2[b], 4 * j) == (if j == (current - 156)
                    % 128 {
                    value
                } else {
                    u32_at(disk[b], 4 * j)
                })
        }),
    ensures
        filled(v, disk2, target, current + 1),
{
    let a = (current - 156) / 128;
    let r = (current - 156) % 128;
    let b = v.index_block(disk, a);
    assert(index_position(a) < block_count(current + 1));
    lemma_distinct(target, 28, index_position(a));
    lemma_distinct(target, 157, index_position(a));
    assert forall|j: int| 0 <= j <= a implies #[trigger] v.index_block(disk2, j) == target[index_position(
        j,
    )] && v.index_block(disk, j) == target[index_position(j)] by {
        if j < a {
            assert(index_position(j) < block_count(current));
            assert(v.nth_block(disk, index_position(j)) == target[index_position(j)]) by {
                assert((129 * j) % 129 == 0);
            }
        }
    }
    assert forall|p: int| 0 <= p < block_count(current + 1) implies #[trigger] v.nth_block(disk2, p)
        == target[p] by {
        if p < block_count(current) {
            assert(v.nth_block(disk, p) == target[p]);
        }
        if p >= 158 {
            let j = (p - 158) / 129;
            assert(j <= a);
            assert(v.index_block(disk2, j) == target[index_position(j)]);
            if (p - 158) % 129 != 0 {
                let i = 156 + j * 128 + (p - 158) % 129 - 1;
                assert((i - 156) / 128 == j);
                assert((i - 156) % 128 == (p - 158) % 129 - 1);
                if j < a {
                    lemma_distinct(target, index_position(j), index_position(a));
                    assert(p < block_count(current));
                } else {
                    assert(i <= current);
                    if i < current {
                        assert(p < block_count(current));
                    } else {
                        assert(p == data_position(current));
                    }
                }
            }
        }
    }
}

/// The blocks of a file that grows to `new_size` bytes and takes `new_blocks` for it.
pub open spec fn growth(
    v: InodeView,
    disk: Map<int, Seq<u8>>,
    new_size: u32,
    new_blocks: Seq<u32>,
) -> Seq<int> {
    let had = block_count(data_count(v.size as int));
    let has = block_count(data_count(new_size as int));
    if has <= had {
        v.all_blocks(disk)
    } else {
        v.all_blocks(disk) + Seq::new((has - had) as nat, |i: int| new_blocks[i] as int)
    }
}

/// The file can grow to `new_size` bytes with `new_blocks`: they are enough, those that become index
/// blocks are on the disk, and none of them serves twice.
pub open spec fn can_grow(
    v: InodeView,
    disk: Map<int, Seq<u8>>,
    new_size: u32,
    new_blocks: Seq<u32>,
) -> bool {
    let had = block_count(data_count(v.size as int));
    let has = block_count(data_count(new_size as int));
    &&& data_count(new_size as int) <= INDIRECT2_BOUND
    &&& has <= had || has - had <= new_blocks.len()
    &&& growth(v, disk, new_size, new_blocks).no_duplicates()
    &&& index_on_disk(growth(v, disk, new_size, new_blocks), disk)
}

/// All of these blocks are on the disk.
pub open spec fn on_disk(blocks: Seq<int>, disk: Map<int, Seq<u8>>) -> bool {
    forall|p: int| 0 <= p < blocks.len() ==> disk.dom().contains(#[trigger] blocks[p])
}

/// The index blocks among the blocks of a file are on the disk.
pub open spec fn index_on_disk(blocks: Seq<int>, disk: Map<int, Seq<u8>>) -> bool {
    forall|p: int|
        0 <= p < blocks.len() && is_index_position(p) ==> disk.dom().contains(#[trigger] blocks[p])
}

/// Position `p` among the blocks of a file is that of an index block.
pub open spec fn is_index_position(p: int) -> bool {
    p == 28 || p == 157 || p >= 158 && (p - 158) % 129 == 0
}

/// `b` is an index block among these blocks of a file.
pub open spec fn is_index_of(blocks: Seq<int>, b: int) -> bool {
    exists|p: int| 0 <= p < blocks.len() && is_index_position(p) && #[trigger] blocks[p] == b
}

/// `v2` is `v` grown to `new_size` bytes: its blocks are the old ones and then the new ones, what
/// it does not use is as before, and on the disk only index blocks of the file have changed. The file
/// is in order if all these blocks are on the disk.
pub open spec fn grown(
    v: InodeView,
    disk: Map<int, Seq<u8>>,
    new_size: u32,
    new_blocks: Seq<u32>,
    v2: InodeView,
    disk2: Map<int, Seq<u8>>,
) -> bool {
    let n0 = data_count(v.size as int);
    let n = data_count(new_size as int);
    let target = growth(v, disk, new_size, new_blocks);
    &&& v2.size == new_size
    &&& v2.nlink == v.nlink
    &&& v2.directory == v.directory
    &&& v2.indexed(disk2)
    &&& on_disk(target, disk) ==> v2.in_order(disk2)
    &&& v2.all_blocks(disk2) == target.take(block_count(n))
    &&& forall|i: int| 0 <= i < 28 && !(n0 <= i < n) ==> #[trigger] v2.direct[i] == v.direct[i]
    &&& !(n0 <= 28 < n) ==> v2.indirect1 == v.indirect1
    &&& !(n0 <= 156 < n) ==> v2.indirect2 == v.indirect2
    &&& disk2.dom() == disk.dom()
    &&& forall|b: int|
        disk.dom().contains(b) && !is_index_of(target, b) ==> #[trigger] disk2[b] == disk[b]
}

/// A file that grows by blocks of zeros keeps the bytes of its data blocks, and zeros follow.
pub proof fn lemma_grown_room(
    v: InodeView,
    disk: Map<int, Seq<u8>>,
    new_size: u32,
    new_blocks: Seq<u32>,
    v2: InodeView,
    disk2: Map<int, Seq<u8>>,
)
    requires
        v.in_order(disk),
        v.size <= new_size,
        can_grow(v, disk, new_size, new_blocks),
        on_disk(growth(v, disk, new_size, new_blocks), disk),
        grown(v, disk, new_size, new_blocks, v2, disk2),
        forall|j: int|
            0 <= j < new_blocks.len() ==> {
                let block = disk[#[trigger] new_blocks[j] as int];
                block.len() == 512 && zero_from(block, 0)
            },
    ensures
        v2.room(disk2).len() >= v.room(disk).len(),
        forall|k: int|
            0 <= k < v.room(disk).len() ==> #[trigger] v2.room(disk2)[k] == v.room(disk)[k],
        zero_from(v2.room(disk2), v.room(disk).len() as int),
{
    let n0 = data_count(v.size as int);
    let n = data_count(new_size as int);
    let target = growth(v, disk, new_size, new_blocks);
    lemma_positions(v, disk, n0);
    lemma_positions(v2, disk2, n);
    lemma_block_count_monotone(n0, n);
    assert forall|i: int| 0 <= i < n implies {
        &&& #[trigger] v2.block_of(disk2, i) == target[data_position(i)]
        &&& disk2[target[data_position(i)]] == disk[target[data_position(i)]]
        &&& 0 <= data_position(i) < target.len()
    } by {
        let p = data_position(i);
        assert(v2.all_blocks(disk2)[p] == v2.block_of(disk2, i));
        lemma_data_position(i);
        if is_index_of(target, target[p]) {
            let q = choose|q: int|
                0 <= q < target.len() && is_index_position(q) && #[trigger] target[q] == target[p];
            assert(q == p);
        }
        assert(disk.dom().contains(target[p]));
    }
    assert forall|k: int| 0 <= k < v.room(disk).len() implies #[trigger] v2.room(disk2)[k] == v.room(
        disk,
    )[k] by {
        let i = k / 512;
        assert(v2.block_of(disk2, i) == target[data_position(i)]);
        assert(v.all_blocks(disk)[data_position(i)] == v.block_of(disk, i));
    }
    assert forall|k: int| v.room(disk).len() <= k < v2.room(disk2).len() implies #[trigger] v2.room(
        disk2,
    )[k] == 0 by {
        let i = k / 512;
        let p = data_position(i);
        assert(n0 <= i < n);
        assert(v2.block_of(disk2, i) == target[p]);
        assert(p >= block_count(n0));
        let j = p - block_count(n0);
        assert(target[p] == new_blocks[j]);
        assert(v2.room(disk2)[k] == disk[new_blocks[j] as int][k % 512]);
    }
}

/// The first `n` data blocks of the file and their index blocks are those of `target`.
spec fn filled(v: InodeView, disk: Map<int, Seq<u8>>, target: Seq<int>, n: int) -> bool {
    forall|p: int| 0 <= p < block_count(n) ==> #[trigger] v.nth_block(disk, p) == target[p]
}

/// A file on its way to `new_size` bytes: `current` data blocks are in place, and `position` blocks
/// of the file are named, `used` of them new.
spec fn growing(
    v0: InodeView,
    disk0: Map<int, Seq<u8>>,
    new_size: u32,
    new_blocks: Seq<u32>,
    target: Seq<int>,
    v: InodeView,
    disk: Map<int, Seq<u8>>,
    current: int,
    position: int,
    used: int,
) -> bool {
    let n0 = data_count(v0.size as int);
    let n1 = data_count(new_size as int);
    &&& target == growth(v0, disk0, new_size, new_blocks)
    &&& v0.indexed(disk0)
    &&& can_grow(v0, disk0, new_size, new_blocks)
    &&& v.size == new_size
    &&& v.nlink == v0.nlink
    &&& v.directory == v0.directory
    &&& v.direct.len() == 28
    &&& used == position - block_count(n0)
    &&& n0 <= current
    &&& current <= n1 || current == n0
    &&& filled(v, disk, target, current)
    &&& forall|i: int|
        0 <= i < 28 && !(n0 <= i < current) ==> #[trigger] v.direct[i] == v0.direct[i]
    &&& !(n0 <= 28 < position) ==> v.indirect1 == v0.indirect1
    &&& !(n0 <= 156 && 157 < position) ==> v.indirect2 == v0.indirect2
    &&& disk.dom() == disk0.dom()
    &&& forall|b: int|
        disk0.dom().contains(b) && !is_index_of(target, b) ==> #[trigger] disk[b] == disk0[b]
}

/// Two inodes that name the same blocks have the same blocks.
proof fn lemma_same_blocks(
    v: InodeView,
    disk: Map<int, Seq<u8>>,
    v2: InodeView,
    disk2: Map<int, Seq<u8>>,
    n: int,
)
    requires
        0 <= n,
        v.direct == v2.direct,
        v.indirect1 == v2.indirect1,
        v.indirect2 == v2.indirect2,
        disk == disk2,
    ensures
        v.blocks(disk, n) == v2.blocks(disk2, n),
{
    assert(v.blocks(disk, n) =~= v2.blocks(disk2, n));
}

proof fn lemma_direct_step(
    v: InodeView,
    v2: InodeView,
    disk: Map<int, Seq<u8>>,
    target: Seq<int>,
    current: int,
    value: u32,
)
    requires
        0 <= current < 28,
        v.direct.len() == 28,
        v2 == (InodeView { direct: v.direct.update(current, value), ..v }),
        filled(v, disk, target, current),
        current < target.len(),
        target[current] == value,
    ensures
        filled(v2, disk, target, current + 1),
{
    assert forall|p: int| 0 <= p < block_count(current + 1) implies #[trigger] v2.nth_block(disk, p)
        == target[p] by {
        if p < current {
            assert(v.nth_block(disk, p) == target[p]);
        }
    }
}

proof fn lemma_grown(
    v0: InodeView,
    disk0: Map<int, Seq<u8>>,
    new_size: u32,
    new_blocks: Seq<u32>,
    target: Seq<int>,
    v: InodeView,
    disk: Map<int, Seq<u8>>,
    current: int,
    position: int,
    used: int,
)
    requires
        growing(v0, disk0, new_size, new_blocks, target, v, disk, current, position, used),
        current >= data_count(new_size as int),
        position == block_count(current),
    ensures
        grown(v0, disk0, new_size, new_blocks, v, disk),
{
    let n0 = data_count(v0.size as int);
    let n = data_count(new_size as int);
    lemma_block_count_monotone(n, current);
    assert(target.len() >= block_count(n)) by {
        lemma_block_count_monotone(n, if n <= n0 { n0 } else { n });
    }
    assert(v.all_blocks(disk) =~= target.take(block_count(n)));
    assert forall|p: int|
        0 <= p < v.all_blocks(disk).len() && (is_index_position(p) || on_disk(
            target,
            disk0,
        )) implies disk.dom().contains(#[trigger] v.all_blocks(disk)[p]) by {
        assert(v.all_blocks(disk)[p] == target[p]);
        assert(disk0.dom().contains(target[p]));
    }
    assert(v.all_blocks(disk).no_duplicates());
}

/// A longer file has at least as many blocks.
pub proof fn lemma_block_count_monotone(m: int, n: int)
    requires
        0 <= m <= n,
    ensures
        0 <= block_count(m) <= block_count(n),
        m < n ==> block_count(m) < block_count(n),
{
}

/// The first block of the disk: how the disk is divided.
pub struct SuperBlock {
    /// The mark that tells this file system from others.
    pub magic: u32,
    /// Blocks of the whole file system.
    pub total_blocks: u32,
    /// Blocks of the inode bitmap.
    pub inode_bitmap_blocks: u32,
    /// Blocks of the inodes.
    pub inode_area_blocks: u32,
    /// Blocks of the data bitmap.
    pub data_bitmap_blocks: u32,
    /// Blocks of the data.
    pub data_area_blocks: u32,
}

impl SuperBlock {
    /// A super block of zeros, which marks nothing.
    pub fn zeroed() -> (r: Self)
        ensures
            r.magic == 0,
            r.total_blocks == 0,
            r.inode_bitmap_blocks == 0,
            r.inode_area_blocks == 0,
            r.data_bitmap_blocks == 0,
            r.data_area_blocks == 0,
    {
        SuperBlock {
            magic: 0,
            total_blocks: 0,
            inode_bitmap_blocks: 0,
            inode_area_blocks: 0,
            data_bitmap_blocks: 0,
            data_area_blocks: 0,
        }
    }

    /// Fills in the division of the disk and the mark.
    pub fn initialize(
        &mut self,
        total_blocks: u32,
        inode_bitmap_blocks: u32,
        inode_area_blocks: u32,
        data_bitmap_blocks: u32,
        data_area_blocks: u32,
    )
        ensures
            final(self).magic == EFS_MAGIC,
            final(self).total_blocks == total_blocks,
            final(self).inode_bitmap_blocks == inode_bitmap_blocks,
            final(self).inode_area_blocks == inode_area_blocks,
            final(self).data_bitmap_blocks == data_bitmap_blocks,
            final(self).data_area_blocks == data_area_blocks,
    {
        *self = SuperBlock {
            magic: EFS_MAGIC,
            total_blocks,
            inode_bitmap_blocks,
            inode_area_blocks,
            data_bitmap_blocks,
            data_area_blocks,
        };
    }

    /// The block carries the mark of this file system.
    pub fn is_valid(&self) -> (r: bool)
        ensures
            r == (self.magic == EFS_MAGIC),
    {
        self.magic == EFS_MAGIC
    }
}

/// A super block takes 24 bytes.
impl DiskLayout for SuperBlock {
    open spec fn layout_size() -> nat {
        24
    }

    open spec fn stored_in(&self, bytes: Seq<u8>) -> bool {
        &&& bytes.len() == 24
        &&& self.magic == u32_at(bytes, 0)
        &&& self.total_blocks == u32_at(bytes, 4)
        &&& self.inode_bitmap_blocks == u32_at(bytes, 8)
        &&& self.inode_area_blocks == u32_at(bytes, 12)
        &&& self.data_bitmap_blocks == u32_at(bytes, 16)
        &&& self.data_area_blocks == u32_at(bytes, 20)
    }

    fn size_in_bytes() -> (n: usize) {
        24
    }

    fn load(block: &[u8; BLOCK_SZ], offset: usize) -> (r: Self) {
        let ghost bytes = block@.subrange(offset as int, offset + 24);
        assert forall|k: int| 0 <= k <= 20 implies #[trigger] u32_at(bytes, k) == u32_at(
            block@,
            offset + k,
        ) by {
            assert(bytes.subrange(k, k + 4) == block@.subrange(offset + k, offset + k + 4));
        }
        SuperBlock {
            magic: read_u32(block, offset),
            total_blocks: read_u32(block, offset + 4),
            inode_bitmap_blocks: read_u32(block, offset + 8),
            inode_area_blocks: read_u32(block, offset + 12),
            data_bitmap_blocks: read_u32(block, offset + 16),
            data_area_blocks: read_u32(block, offset + 20),
        }
    }

    fn store(&self, block: &mut [u8; BLOCK_SZ], offset: usize) {
        proof {
            lemma_u32_bytes();
        }
        write_u32(block, offset, self.magic);
        let ghost b0 = block@;
        write_u32(block, offset + 4, self.total_blocks);
        let ghost b1 = block@;
        write_u32(block, offset + 8, self.inode_bitmap_blocks);
        let ghost b2 = block@;
        write_u32(block, offset + 12, self.inode_area_blocks);
        let ghost b3 = block@;
        write_u32(block, offset + 16, self.data_bitmap_blocks);
        let ghost b4 = block@;
        write_u32(block, offset + 20, self.data_area_blocks);
        let ghost bytes = block@.subrange(offset as int, offset + 24);
        assert(bytes.subrange(0, 4) == b0.subrange(offset as int, offset + 4));
        assert(bytes.subrange(4, 8) == b1.subrange(offset + 4, offset + 8));
        assert(bytes.subrange(8, 12) == b2.subrange(offset + 8, offset + 12));
        assert(bytes.subrange(12, 16) == b3.subrange(offset + 12, offset + 16));
        assert(bytes.subrange(16, 20) == b4.subrange(offset + 16, offset + 20));
        assert(bytes.subrange(20, 24) == block@.subrange(offset + 20, offset + 24));
    }
}

/// Bytes of a directory entry.
pub const DIRENT_SZ: usize = 32;

/// A directory entry: a name, filled up with zeros, and the number of an inode.
pub struct DirEntry {
    name: [u8; 28],
    inode_id: u32,
}

/// Where the first zero stands, or the length if there is none.
pub open spec fn first_zero(s: Seq<u8>) -> int
    decreases s.len(),
{
    if s.len() == 0 || s[0] == 0 {
        0
    } else {
        1 + first_zero(s.drop_first())
    }
}

/// What `first_zero` finds: a zero with none before it.
pub proof fn lemma_first_zero(s: Seq<u8>, k: int)
    requires
        0 <= k <= s.len(),
        forall|i: int| 0 <= i < k ==> #[trigger] s[i] != 0,
        k == s.len() || s[k] == 0,
    ensures
        first_zero(s) == k,
    decreases k,
{
    if k > 0 {
        assert(s[0] != 0);
        let t = s.drop_first();
        assert forall|i: int| 0 <= i < k - 1 implies #[trigger] t[i] != 0 by {
            assert(t[i] == s[i + 1]);
        }
        lemma_first_zero(t, k - 1);
    }
}

/// The name in the name field of an entry: what comes before the first zero.
pub open spec fn stored_name(field: Seq<u8>) -> Seq<u8> {
    field.take(first_zero(field))
}

/// A name as it stands in an entry: filled up with zeros.
pub open spec fn padded(name: Seq<u8>) -> Seq<u8> {
    Seq::new(
        28,
        |i: int|
            if i < name.len() {
                name[i]
            } else {
                0u8
            },
    )
}

/// Bytes that can name a file: not too many, and no zero among them.
pub open spec fn good_name(name: Seq<u8>) -> bool {
    name.len() <= NAME_LENGTH_LIMIT && forall|i: int| 0 <= i < name.len() ==> #[trigger] name[i] != 0
}

/// What is stored of a good name is the name.
pub proof fn lemma_stored_name(name: Seq<u8>)
    requires
        good_name(name),
    ensures
        stored_name(padded(name)) == name,
        first_zero(padded(name)) == name.len(),
{
    let p = padded(name);
    assert forall|i: int| 0 <= i < name.len() implies #[trigger] p[i] != 0 by {
        assert(p[i] == name[i]);
    }
    lemma_first_zero(p, name.len() as int);
    assert(stored_name(p) =~= name);
}

/// Reads bytes as text. Calls `core::str::from_utf8`, whose documentation says that it succeeds
/// exactly on valid UTF-8 and then gives a string slice of those very bytes.
#[verifier::external_body]
pub(crate) fn text_of(bytes: &[u8]) -> (r: Option<&str>)
    ensures
        r is Some <==> valid_utf8(bytes@),
        r matches Some(s) ==> s.spec_bytes() == bytes@,
{
    core::str::from_utf8(bytes).ok()
}

impl DirEntry {
    /// The name field, zeros and all.
    pub closed spec fn name_field(&self) -> Seq<u8> {
        self.name@
    }

    /// The inode that the entry names.
    pub closed spec fn id(&self) -> u32 {
        self.inode_id
    }

    /// The bytes of the entry on the disk.
    pub open spec fn bytes(&self) -> Seq<u8> {
        self.name_field() + u32_bytes(self.id())
    }

    /// An entry without a name.
    pub fn empty() -> (r: Self)
        ensures
            r.name_field() == Seq::new(28, |i: int| 0u8),
            r.id() == 0,
    {
        let r: DirEntry = DirEntry { name: [0u8; 28], inode_id: 0 };
        assert(r.name@ =~= Seq::new(28, |i: int| 0u8));
        r
    }

    /// An entry that gives `name` to an inode.
    pub fn new(name: &str, inode_id: u32) -> (r: Self)
        requires
            name.spec_bytes().len() <= NAME_LENGTH_LIMIT,
        ensures
            r.name_field() == padded(name.spec_bytes()),
            r.id() == inode_id,
    {
        let src: &[u8] = name.as_bytes();
        let mut bytes: [u8; 28] = [0u8; 28];
        write_bytes(&mut bytes, 0, src);
        assert(bytes@ =~= padded(name.spec_bytes()));
        DirEntry { name: bytes, inode_id }
    }

    /// The entry as it is written to the disk.
    pub fn as_bytes(&self) -> (r: [u8; DIRENT_SZ])
        ensures
            r@ == self.bytes(),
    {
        proof {
            lemma_u32_bytes();
        }
        let mut r: [u8; DIRENT_SZ] = [0u8; DIRENT_SZ];
        write_bytes(&mut r, 0, self.name.as_slice());
        write_u32(&mut r, 28, self.inode_id);
        assert(r@ =~= self.bytes());
        r
    }

    /// The entry that was read from the disk.
    pub fn from_bytes(bytes: &[u8; DIRENT_SZ]) -> (r: Self)
        ensures
            r.bytes() == bytes@,
    {
        let mut name: [u8; 28] = [0u8; 28];
        write_bytes(&mut name, 0, slice_subrange(bytes.as_slice(), 0, 28));
        let r: DirEntry = DirEntry { name, inode_id: read_u32(bytes.as_slice(), 28) };
        proof {
            lemma_u32_bytes();
            assert(r.name@ =~= bytes@.subrange(0, 28));
            assert(r.bytes() =~= bytes@.subrange(0, 28) + bytes@.subrange(28, 32));
            assert(r.bytes() =~= bytes@);
        }
        r
    }

    /// The name, which ends before the first zero of the name field.
    pub fn name(&self) -> (r: &str)
        requires
            first_zero(self.name_field()) < 28,
            valid_utf8(stored_name(self.name_field())),
        ensures
            r.spec_bytes() == stored_name(self.name_field()),
    {
        let mut len: usize = 0;
        while len < 28 && self.name[len] != 0
            invariant
                len <= 28,
                forall|i: int| 0 <= i < len ==> #[trigger] self.name@[i] != 0,
            decreases 28 - len,
        {
            len += 1;
        }
        proof {
            lemma_first_zero(self.name@, len as int);
        }
        text_of(slice_subrange(self.name.as_slice(), 0, len)).unwrap()
    }

    /// The number of the inode that the entry names.
    pub fn inode_id(&self) -> (r: u32)
        ensures
            r == self.id(),
    {
        self.inode_id
    }
}

} // verus!
