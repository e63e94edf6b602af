//! What a process can learn about a file.

use vstd::bytes::spec_u64_to_le_bytes;
use vstd::bytes::lemma_auto_spec_u64_to_from_le_bytes;
use vstd::prelude::*;

use crate::bytes::{lemma_u32_bytes, u32_bytes, write_u32, write_u64};

verus! {

/// What kind of file it is.
#[derive(Copy, Clone, PartialEq, Eq, Structural, Debug)]
pub struct StatMode {
    pub bits: u32,
}

/// No kind of file.
pub const STAT_NULL: u32 = 0;

/// A directory.
pub const STAT_DIR: u32 = 0o040000;

/// A regular file.
pub const STAT_FILE: u32 = 0o100000;

/// Bytes of the record in the memory of a process.
pub const STAT_SIZE: usize = 80;

/// The record about a file.
#[derive(Debug)]
pub struct Stat {
    /// The device.
    pub dev: u64,
    /// The inode.
    pub ino: u64,
    /// The kind of file.
    pub mode: StatMode,
    /// The number of links.
    pub nlink: u32,
    /// Not used.
    pub pad: [u64; 7],
}

impl Stat {
    /// The bytes of the record in the memory of a process.
    pub open spec fn bytes(&self) -> Seq<u8> {
        spec_u64_to_le_bytes(self.dev) + spec_u64_to_le_bytes(self.ino) + u32_bytes(
            self.mode.bits,
        ) + u32_bytes(self.nlink) + pad_bytes(self.pad@, 7)
    }

    /// The bytes of the record in the memory of a process.
    pub fn as_bytes(&self) -> (r: [u8; STAT_SIZE])
        ensures
            r@ == self.bytes(),
    {
        let mut r: [u8; STAT_SIZE] = [0u8; STAT_SIZE];
        proof {
            lemma_u32_bytes();
            lemma_auto_spec_u64_to_from_le_bytes();
        }
        write_u64(&mut r, 0, self.dev);
        write_u64(&mut r, 8, self.ino);
        write_u32(&mut r, 16, self.mode.bits);
        write_u32(&mut r, 20, self.nlink);
        let ghost head = spec_u64_to_le_bytes(self.dev) + spec_u64_to_le_bytes(self.ino)
            + u32_bytes(self.mode.bits) + u32_bytes(self.nlink);
        assert(r@.take(24) =~= head);
        let mut i: usize = 0;
        assert(r@.subrange(24, 24) =~= pad_bytes(self.pad@, 0));
        while i < 7
            invariant
                i <= 7,
                r@.len() == 80,
                head.len() == 24,
                r@.take(24) == head,
                r@.subrange(24, 24 + 8 * i) == pad_bytes(self.pad@, i as int),
            decreases 7 - i,
        {
            let ghost before = r@;
            write_u64(&mut r, 24 + 8 * i, self.pad[i]);
            proof {
                lemma_auto_spec_u64_to_from_le_bytes();
                assert(r@.take(24) =~= before.take(24));
                assert(r@.subrange(24, 24 + 8 * i) =~= before.subrange(24, 24 + 8 * i));
                assert(r@.subrange(24, 24 + 8 * (i + 1)) =~= r@.subrange(24, 24 + 8 * i)
                    + spec_u64_to_le_bytes(self.pad@[i as int]));
            }
            i += 1;
        }
        assert(r@ =~= r@.take(24) + r@.subrange(24, 80));
        r
    }
}

/// The bytes of the first `n` numbers.
pub open spec fn pad_bytes(pad: Seq<u64>, n: int) -> Seq<u8>
    decreases n,
{
    if n <= 0 {
        Seq::empty()
    } else {
        pad_bytes(pad, n - 1) + spec_u64_to_le_bytes(pad[n - 1])
    }
}

} // verus!
