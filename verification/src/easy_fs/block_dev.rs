//! The block device that the file system runs on.

use vstd::prelude::*;

verus! {

/// Size of a block in bytes.
pub const BLOCK_SZ: usize = 512;

/// A device of fixed-size blocks. Whoever wants a file system on a disk implements this.
pub trait BlockDevice {
    /// The blocks of the device by number. A device that does not say otherwise has none.
    open spec fn contents(&self) -> Map<int, Seq<u8>> {
        Map::empty()
    }

    /// Reads one block into `buf`. A read leaves the device as it is, so no contract says how often a
    /// block is read.
    fn read_block(&self, block_id: usize, buf: &mut [u8; BLOCK_SZ])
        requires
            self.contents().dom().contains(block_id as int),
        ensures
            final(buf)@ == self.contents()[block_id as int],
    ;

    /// Writes `buf` to one block and leaves the others alone.
    fn write_block(&mut self, block_id: usize, buf: &[u8; BLOCK_SZ])
        requires
            old(self).contents().dom().contains(block_id as int),
        ensures
            final(self).contents() == old(self).contents().insert(block_id as int, buf@),
    ;
}

/// Every block holds exactly `BLOCK_SZ` bytes.
pub open spec fn whole_blocks(disk: Map<int, Seq<u8>>) -> bool {
    forall|b: int| #[trigger] disk.dom().contains(b) ==> disk[b].len() == BLOCK_SZ
}

} // verus!
