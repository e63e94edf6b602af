//! Values inside blocks: little-endian integers and the types that are stored in place.

use vstd::bytes::lemma_auto_spec_u64_to_from_le_bytes;
use vstd::prelude::*;

use super::block_dev::BLOCK_SZ;
use crate::bytes::{
    lemma_u32_bytes, read_u32, read_u64, same_outside, u32_at, u64_at, write_u32, write_u64,
};

verus! {

/// A type whose values lie in a block as a fixed number of bytes.
pub trait DiskLayout: Sized {
    /// The number of bytes of a value.
    spec fn layout_size() -> nat;

    /// `bytes` represents this value.
    spec fn stored_in(&self, bytes: Seq<u8>) -> bool;

    /// The number of bytes of a value.
    fn size_in_bytes() -> (n: usize)
        ensures
            n == Self::layout_size(),
    ;

    /// The value at byte `offset` of a block.
    fn load(block: &[u8; BLOCK_SZ], offset: usize) -> (r: Self)
        requires
            offset + Self::layout_size() <= BLOCK_SZ,
        ensures
            r.stored_in(block@.subrange(offset as int, offset + Self::layout_size())),
    ;

    /// Puts the value at byte `offset` of a block and leaves the bytes around it alone.
    fn store(&self, block: &mut [u8; BLOCK_SZ], offset: usize)
        requires
            offset + Self::layout_size() <= BLOCK_SZ,
        ensures
            self.stored_in(final(block)@.subrange(offset as int, offset + Self::layout_size())),
            same_outside(old(block)@, final(block)@, offset as int, offset + Self::layout_size()),
    ;
}

/// A block of plain bytes.
impl DiskLayout for [u8; BLOCK_SZ] {
    open spec fn layout_size() -> nat {
        512
    }

    open spec fn stored_in(&self, bytes: Seq<u8>) -> bool {
        self@ == bytes
    }

    fn size_in_bytes() -> (n: usize) {
        BLOCK_SZ
    }

    fn load(block: &[u8; BLOCK_SZ], offset: usize) -> (r: Self) {
        assert(block@.subrange(0, 512) == block@);
        *block
    }

    fn store(&self, block: &mut [u8; BLOCK_SZ], offset: usize) {
        *block = *self;
        assert(block@.subrange(0, 512) == block@);
    }
}

/// A block of block numbers: an index block of a file.
impl DiskLayout for [u32; 128] {
    open spec fn layout_size() -> nat {
        512
    }

    open spec fn stored_in(&self, bytes: Seq<u8>) -> bool {
        &&& bytes.len() == 512
        &&& forall|i: int| 0 <= i < 128 ==> #[trigger] self@[i] == u32_at(bytes, 4 * i)
    }

    fn size_in_bytes() -> (n: usize) {
        BLOCK_SZ
    }

    fn load(block: &[u8; BLOCK_SZ], offset: usize) -> (r: Self) {
        let mut r: [u32; 128] = [0u32; 128];
        let mut i: usize = 0;
        while i < 128
            invariant
                i <= 128,
                forall|j: int| 0 <= j < i ==> #[trigger] r@[j] == u32_at(block@, 4 * j),
            decreases 128 - i,
        {
            r[i] = read_u32(block, 4 * i);
            i += 1;
        }
        assert(block@.subrange(0, 512) == block@);
        r
    }

    fn store(&self, block: &mut [u8; BLOCK_SZ], offset: usize) {
        let mut i: usize = 0;
        while i < 128
            invariant
                i <= 128,
                forall|j: int| 0 <= j < i ==> #[trigger] self@[j] == u32_at(block@, 4 * j),
            decreases 128 - i,
        {
            let ghost before = block@;
            write_u32(block, 4 * i, self[i]);
            proof {
                lemma_u32_bytes();
                assert forall|j: int| 0 <= j < i + 1 implies #[trigger] self@[j] == u32_at(
                    block@,
                    4 * j,
                ) by {
                    if j < i {
                        assert(before.subrange(4 * j, 4 * j + 4) == block@.subrange(
                            4 * j,
                            4 * j + 4,
                        ));
                    }
                }
            }
            i += 1;
        }
        assert(block@.subrange(0, 512) == block@);
    }
}

/// A block of 64-bit words: one block of a bitmap.
impl DiskLayout for [u64; 64] {
    open spec fn layout_size() -> nat {
        512
    }

    open spec fn stored_in(&self, bytes: Seq<u8>) -> bool {
        &&& bytes.len() == 512
        &&& forall|i: int| 0 <= i < 64 ==> #[trigger] self@[i] == u64_at(bytes, 8 * i)
    }

    fn size_in_bytes() -> (n: usize) {
        BLOCK_SZ
    }

    fn load(block: &[u8; BLOCK_SZ], offset: usize) -> (r: Self) {
        let mut r: [u64; 64] = [0u64; 64];
        let mut i: usize = 0;
        while i < 64
            invariant
                i <= 64,
                forall|j: int| 0 <= j < i ==> #[trigger] r@[j] == u64_at(block@, 8 * j),
            decreases 64 - i,
        {
            r[i] = read_u64(block, 8 * i);
            i += 1;
        }
        assert(block@.subrange(0, 512) == block@);
        r
    }

    fn store(&self, block: &mut [u8; BLOCK_SZ], offset: usize) {
        let mut i: usize = 0;
        while i < 64
            invariant
                i <= 64,
                forall|j: int| 0 <= j < i ==> #[trigger] self@[j] == u64_at(block@, 8 * j),
            decreases 64 - i,
        {
            let ghost before = block@;
            write_u64(block, 8 * i, self[i]);
            proof {
                lemma_auto_spec_u64_to_from_le_bytes();
                assert forall|j: int| 0 <= j < i + 1 implies #[trigger] self@[j] == u64_at(
                    block@,
                    8 * j,
                ) by {
                    if j < i {
                        assert(before.subrange(8 * j, 8 * j + 8) == block@.subrange(
                            8 * j,
                            8 * j + 8,
                        ));
                    }
                }
            }
            i += 1;
        }
        assert(block@.subrange(0, 512) == block@);
    }
}

} // verus!
