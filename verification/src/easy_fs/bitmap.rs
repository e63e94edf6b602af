//! Allocation bitmaps on the disk.

use vstd::arithmetic::div_mod::{lemma_fundamental_div_mod, lemma_fundamental_div_mod_converse};
use vstd::prelude::*;
use vstd::std_specs::bits::axiom_u64_trailing_ones;

use super::block_cache::BlockCacheManager;
use super::block_dev::BlockDevice;
use crate::bytes::u64_at;

verus! {

/// Bits in one block of a bitmap.
pub const BLOCK_BITS: usize = 4096;

/// A bitmap that lies in `blocks` blocks of the disk from `start_block_id` on. It is only a
/// handle: the bits are read and written through the block cache.
pub struct Bitmap {
    start_block_id: usize,
    blocks: usize,
}

/// Bit `i` of a word, counted from the lowest.
pub open spec fn bit_of(word: u64, i: int) -> bool {
    (word >> (i as u64)) & 1u64 == 1u64
}

/// Bit `n` of a bitmap whose first block is `start`.
pub open spec fn bit_at(disk: Map<int, Seq<u8>>, start: int, n: int) -> bool {
    bit_of(u64_at(disk[start + n / 4096], 8 * (n % 4096 / 64)), n % 64)
}

/// Splits a bit number into block, word in the block and bit in the word.
fn decomposition(bit: usize) -> (r: (usize, usize, usize))
    ensures
        r.0 == bit / 4096,
        r.1 == bit % 4096 / 64,
        r.2 == bit % 64,
        bit == r.0 * 4096 + r.1 * 64 + r.2,
        r.1 < 64,
        r.2 < 64,
{
    let block_pos: usize = bit / BLOCK_BITS;
    let rest: usize = bit % BLOCK_BITS;
    proof {
        let (q, w) = (bit as int / 4096, bit as int % 4096);
        lemma_fundamental_div_mod(bit as int, 4096);
        lemma_fundamental_div_mod(w, 64);
        lemma_fundamental_div_mod_converse(bit as int, 64, 64 * q + w / 64, w % 64);
    }
    (block_pos, rest / 64, rest % 64)
}

proof fn lemma_bit_set(word: u64, k: u64)
    requires
        k < 64,
    ensures
        bit_of(word | (1u64 << k), k as int),
        forall|i: int|
            0 <= i < 64 && i != k ==> bit_of(word | (1u64 << k), i) == #[trigger] bit_of(word, i),
{
    assert(((word | (1u64 << k)) >> k) & 1u64 == 1u64) by (bit_vector)
        requires
            k < 64,
    ;
    assert forall|i: int| 0 <= i < 64 && i != k implies bit_of(word | (1u64 << k), i)
        == #[trigger] bit_of(word, i) by {
        let j = i as u64;
        assert(((word | (1u64 << k)) >> j) & 1u64 == (word >> j) & 1u64) by (bit_vector)
            requires
                k < 64,
                j < 64,
                j != k,
        ;
    }
}

proof fn lemma_bit_clear(word: u64, k: u64)
    requires
        k < 64,
        bit_of(word, k as int),
    ensures
        word & (1u64 << k) > 0,
        word >= (1u64 << k),
        !bit_of((word - (1u64 << k)) as u64, k as int),
        forall|i: int|
            0 <= i < 64 && i != k ==> bit_of((word - (1u64 << k)) as u64, i) == #[trigger] bit_of(
                word,
                i,
            ),
{
    let one = 1u64 << k;
    assert(word & one > 0 && word >= one && (((word - one) as u64) >> k) & 1u64 == 0u64) by (bit_vector)
        requires
            k < 64,
            one == 1u64 << k,
            (word >> k) & 1u64 == 1u64,
    ;
    assert forall|i: int| 0 <= i < 64 && i != k implies bit_of((word - one) as u64, i)
        == #[trigger] bit_of(word, i) by {
        let j = i as u64;
        assert((((word - one) as u64) >> j) & 1u64 == (word >> j) & 1u64) by (bit_vector)
            requires
                k < 64,
                j < 64,
                j != k,
                one == 1u64 << k,
                (word >> k) & 1u64 == 1u64,
        ;
    }
}

proof fn lemma_full_word(i: u64)
    requires
        i < 64,
    ensures
        bit_of(u64::MAX, i as int),
{
    assert((0xffff_ffff_ffff_ffffu64 >> i) & 1u64 == 1u64) by (bit_vector)
        requires
            i < 64,
    ;
}

impl Bitmap {
    /// The first block of the bitmap.
    pub closed spec fn start(&self) -> int {
        self.start_block_id as int
    }

    /// How many blocks it takes.
    pub closed spec fn block_count(&self) -> int {
        self.blocks as int
    }

    /// Bit `n` is set: what it stands for is in use.
    pub open spec fn is_set(&self, disk: Map<int, Seq<u8>>, n: int) -> bool {
        bit_at(disk, self.start(), n)
    }

    /// How many bits there are.
    pub open spec fn capacity(&self) -> int {
        self.block_count() * 4096
    }

    /// The blocks of the bitmap are on the disk and its numbers fit the machine.
    pub open spec fn on_disk(&self, disk: Map<int, Seq<u8>>) -> bool {
        &&& self.start() + self.block_count() <= usize::MAX
        &&& self.capacity() <= usize::MAX
        &&& forall|b: int|
            self.start() <= b < self.start() + self.block_count()
                ==> #[trigger] disk.dom().contains(b)
    }

    /// A handle to the bitmap in `blocks` blocks from `start_block_id` on.
    pub fn new(start_block_id: usize, blocks: usize) -> (r: Self)
        ensures
            r.start() == start_block_id,
            r.block_count() == blocks,
    {
        Bitmap { start_block_id, blocks }
    }

    /// Finds the first bit that is not set, sets it and returns its number; `None` if all bits are
    /// set.
    pub fn allocate<D: BlockDevice>(&self, cache: &mut BlockCacheManager<D>) -> (r: Option<usize>)
        requires
            old(cache).wf(),
            old(cache).idle(),
            self.on_disk(old(cache)@),
        ensures
            final(cache).wf(),
            final(cache).idle(),
            match r {
                Some(n) => {
                    let b = self.start() + n as int / 4096;
                    &&& n < self.capacity()
                    &&& !self.is_set(old(cache)@, n as int)
                    &&& forall|m: int| 0 <= m < n ==> #[trigger] self.is_set(old(cache)@, m)
                    &&& final(cache)@ == old(cache)@.insert(b, final(cache)@[b])
                    &&& forall|m: int|
                        0 <= m ==> #[trigger] self.is_set(final(cache)@, m) == (m == n
                            || self.is_set(old(cache)@, m))
                },
                None => {
                    &&& final(cache)@ == old(cache)@
                    &&& forall|m: int|
                        0 <= m < self.capacity() ==> #[trigger] self.is_set(old(cache)@, m)
                },
            },
    {
        let ghost disk = cache@;
        let mut block_id: usize = 0;
        while block_id < self.blocks
            invariant
                block_id <= self.blocks,
                cache.wf(),
                cache.idle(),
                cache@ == disk,
                disk == old(cache)@,
                self.on_disk(disk),
                forall|m: int| 0 <= m < block_id * 4096 ==> #[trigger] self.is_set(disk, m),
            decreases self.blocks - block_id,
        {
            let ghost b = self.start() + block_id;
            assert(disk.dom().contains(b));
            let mut words: [u64; 64] = cache.load(block_id + self.start_block_id, 0);
            let ghost bytes = disk[b];
            assert(bytes.len() == 512);
            assert(bytes.subrange(0, 512) == bytes);
            let mut pos: usize = 0;
            while pos < 64 && words[pos] == u64::MAX
                invariant
                    pos <= 64,
                    bytes == disk[b],
                    b == self.start() + block_id,
                    forall|i: int| 0 <= i < 64 ==> #[trigger] words@[i] == u64_at(bytes, 8 * i),
                    forall|m: int|
                        block_id * 4096 <= m < block_id * 4096 + pos * 64 ==> #[trigger] self.is_set(
                            disk,
                            m,
                        ),
                decreases 64 - pos,
            {
                assert forall|m: int|
                    block_id * 4096 <= m < block_id * 4096 + (pos + 1) * 64 implies #[trigger] self.is_set(
                    disk,
                    m,
                ) by {
                    if m >= block_id * 4096 + pos * 64 {
                        assert(m / 4096 == block_id);
                        assert(m % 4096 / 64 == pos);
                        assert(words@[pos as int] == u64::MAX);
                        lemma_full_word((m % 64) as u64);
                    }
                }
                pos += 1;
            }
            if pos < 64 {
                let word: u64 = words[pos];
                let inner: u32 = word.trailing_ones();
                proof {
                    axiom_u64_trailing_ones(word);
                }
                let ghost k = inner as u64;
                assert(k < 64);
                let new_word: u64 = word | (1u64 << inner);
                assert(1u64 << inner == 1u64 << k);
                proof {
                    lemma_bit_set(word, k);
                }
                words[pos] = new_word;
                cache.store(block_id + self.start_block_id, 0, &words);
                let ghost bytes2 = cache@[b];
                assert(bytes2.subrange(0, 512) == bytes2);
                let n: usize = block_id * BLOCK_BITS + pos * 64 + inner as usize;
                assert(!self.is_set(disk, n as int)) by {
                    assert(n as int / 4096 == block_id);
                    assert(n as int % 4096 / 64 == pos);
                    assert(n as int % 64 == inner);
                }
                assert forall|m: int| 0 <= m < n implies #[trigger] self.is_set(disk, m) by {
                    if m >= block_id * 4096 + pos * 64 {
                        assert(m / 4096 == block_id);
                        assert(m % 4096 / 64 == pos);
                        let j = (m % 64) as u64;
                        assert(j < k);
                        assert((word >> j) & 1u64 == 1u64);
                    }
                }
                assert forall|m: int| 0 <= m implies #[trigger] self.is_set(cache@, m) == (m == n
                    || self.is_set(disk, m)) by {
                    if m / 4096 == block_id {
                        let w = m % 4096 / 64;
                        assert(words@[w] == u64_at(bytes2, 8 * w));
                        if w == pos {
                            assert(m == n <==> m % 64 == inner);
                        }
                    }
                }
                assert(n as int / 4096 == block_id);
                return Some(n);
            }
            assert forall|m: int| 0 <= m < (block_id + 1) * 4096 implies #[trigger] self.is_set(
                disk,
                m,
            ) by {}
            block_id += 1;
        }
        None
    }

    /// Clears a bit that is set.
    pub fn dealloc<D: BlockDevice>(&self, cache: &mut BlockCacheManager<D>, bit: usize)
        requires
            old(cache).wf(),
            old(cache).idle(),
            self.start() + bit as int / 4096 <= usize::MAX,
            old(cache)@.dom().contains(self.start() + bit as int / 4096),
            self.is_set(old(cache)@, bit as int),
        ensures
            final(cache).wf(),
            final(cache).idle(),
            ({
                let b = self.start() + bit as int / 4096;
                final(cache)@ == old(cache)@.insert(b, final(cache)@[b])
            }),
            forall|m: int|
                0 <= m ==> #[trigger] self.is_set(final(cache)@, m) == (m != bit && self.is_set(
                    old(cache)@,
                    m,
                )),
    {
        let ghost disk = cache@;
        let (block_pos, bits64_pos, inner_pos) = decomposition(bit);
        let ghost b = self.start() + block_pos;
        let mut words: [u64; 64] = cache.load(block_pos + self.start_block_id, 0);
        let ghost bytes = disk[b];
        assert(bytes.len() == 512);
        assert(bytes.subrange(0, 512) == bytes);
        let word: u64 = words[bits64_pos];
        let ghost k = inner_pos as u64;
        assert(1u64 << inner_pos == 1u64 << k);
        assert(word == u64_at(bytes, 8 * bits64_pos));
        proof {
            lemma_bit_clear(word, k);
        }
        words[bits64_pos] = word - (1u64 << inner_pos);
        cache.store(block_pos + self.start_block_id, 0, &words);
        let ghost bytes2 = cache@[b];
        assert(bytes2.subrange(0, 512) == bytes2);
        assert forall|m: int| 0 <= m implies #[trigger] self.is_set(cache@, m) == (m != bit
            && self.is_set(disk, m)) by {
            if m / 4096 == block_pos {
                let w = m % 4096 / 64;
                assert(words@[w] == u64_at(bytes2, 8 * w));
                if w == bits64_pos {
                    assert(m == bit <==> m % 64 == inner_pos);
                }
            }
        }
    }

    /// Whether a bit is set.
    pub fn is_taken<D: BlockDevice>(&self, cache: &mut BlockCacheManager<D>, bit: usize) -> (r: bool)
        requires
            old(cache).wf(),
            old(cache).idle(),
            self.on_disk(old(cache)@),
            bit < self.capacity(),
        ensures
            final(cache).wf(),
            final(cache).idle(),
            final(cache)@ == old(cache)@,
            r == self.is_set(old(cache)@, bit as int),
    {
        let (block_pos, bits64_pos, inner_pos) = decomposition(bit);
        let ghost b = self.start() + block_pos;
        assert(cache@.dom().contains(b));
        let ghost bytes = cache@[b];
        let words: [u64; 64] = cache.load(block_pos + self.start_block_id, 0);
        proof {
            assert(bytes.len() == 512);
            assert(bytes.subrange(0, 512) == bytes);
        }
        let word: u64 = words[bits64_pos];
        assert(word == u64_at(bytes, 8 * bits64_pos));
        (word >> (inner_pos as u64)) & 1u64 == 1u64
    }

    /// How many bits there are.
    pub fn maximum(&self) -> (r: usize)
        requires
            self.capacity() <= usize::MAX,
        ensures
            r == self.capacity(),
    {
        self.blocks * BLOCK_BITS
    }
}

} // verus!
