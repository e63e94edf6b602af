//! How much room there is on a file system.

use vstd::prelude::*;

use super::bitmap::bit_at;
use super::block_dev::BlockDevice;
use super::efs::EasyFileSystem;
use super::fs_state::Division;

verus! {

/// The free ones of the first `n` data blocks.
spec fn free_data_upto(d: Division, disk: Map<int, Seq<u8>>, n: int) -> Set<int> {
    Set::new(
        |b: int|
            d.data_start() <= b < d.data_start() + n && !d.taken(disk, b - d.data_start()),
    )
}

/// The free ones of the first `n` inodes.
spec fn free_inodes_upto(d: Division, disk: Map<int, Seq<u8>>, n: int) -> Set<int> {
    Set::new(|i: int| 0 <= i < n && !bit_at(disk, 1, i))
}

/// One block more.
proof fn lemma_one_block_more(d: Division, disk: Map<int, Seq<u8>>, n: int)
    requires
        0 <= n,
        free_data_upto(d, disk, n).finite(),
    ensures
        free_data_upto(d, disk, n + 1).finite(),
        free_data_upto(d, disk, n + 1).len() == free_data_upto(d, disk, n).len() + (if d.taken(
            disk,
            n,
        ) {
            0nat
        } else {
            1
        }),
{
    let before = free_data_upto(d, disk, n);
    let after = free_data_upto(d, disk, n + 1);
    if d.taken(disk, n) {
        assert(after =~= before);
    } else {
        assert(after =~= before.insert(d.data_start() + n));
    }
}

impl<D: BlockDevice> EasyFileSystem<D> {
    /// How many data blocks are free.
    pub fn free_block_count(&mut self) -> (r: u32)
        requires
            old(self).wf(),
        ensures
            final(self).wf(),
            final(self).same_shape(old(self)),
            final(self).disk() == old(self).disk(),
            r == old(self).free_blocks(),
    {
        let ghost d = self.division();
        let ghost disk = self.disk();
        let mut n: u32 = 0;
        let mut count: u32 = 0;
        assert(free_data_upto(d, disk, 0) =~= Set::empty());
        while n < self.data_area_blocks
            invariant
                self.wf(),
                self.same_shape(old(self)),
                d == self.division(),
                disk == self.disk(),
                disk == old(self).disk(),
                n <= self.data_area_blocks,
                count <= n,
                free_data_upto(d, disk, n as int).finite(),
                count == free_data_upto(d, disk, n as int).len(),
            decreases self.data_area_blocks - n,
        {
            proof {
                lemma_one_block_more(d, disk, n as int);
            }
            if !self.data_bitmap.is_taken(&mut self.cache, n as usize) {
                count += 1;
            }
            n += 1;
        }
        assert(free_data_upto(d, disk, n as int) =~= d.free_data(disk));
        count
    }

    /// Whether an inode is free.
    pub fn has_free_inode(&mut self) -> (r: bool)
        requires
            old(self).wf(),
        ensures
            final(self).wf(),
            final(self).same_shape(old(self)),
            final(self).disk() == old(self).disk(),
            r == (old(self).free_inodes() > 0),
    {
        let ghost d = self.division();
        let ghost disk = self.disk();
        let total: usize = self.inode_bitmap.maximum();
        let mut n: usize = 0;
        assert(free_inodes_upto(d, disk, 0) =~= Set::empty());
        while n < total
            invariant
                self.wf(),
                self.same_shape(old(self)),
                d == self.division(),
                disk == self.disk(),
                disk == old(self).disk(),
                total == d.inodes(),
                n <= total,
                free_inodes_upto(d, disk, n as int) == Set::<int>::empty(),
            decreases total - n,
        {
            if !self.inode_bitmap.is_taken(&mut self.cache, n) {
                proof {
                    d.lemma_free_finite(disk);
                    assert(d.free_inodes(disk).contains(n as int));
                    if d.free_inodes(disk).len() == 0 {
                        assert(d.free_inodes(disk) =~= Set::empty());
                    }
                }
                return true;
            }
            n += 1;
            assert(free_inodes_upto(d, disk, n as int) =~= Set::empty());
        }
        assert(d.free_inodes(disk) =~= free_inodes_upto(d, disk, n as int));
        false
    }
}

} // verus!
