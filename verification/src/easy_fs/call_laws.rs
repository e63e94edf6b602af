//! What calls of the file system mean together, and how files lie on the disk.

use vstd::prelude::*;
use vstd::string::StringSliceAdditionalSpecFns;
use vstd::utf8::encode_utf8;

use super::bitmap::Bitmap;
use super::block_cache::{
    holds, is_victim, lemma_place, victim, BlockCacheManager, SlotView,
};
use super::block_dev::BlockDevice;
use super::codec::DiskLayout;
use super::dir::{
    entries, lemma_links_bounds, lemma_position, lemma_position_found, lookup, position, tree_ok,
};
use super::efs::EasyFileSystem;
use super::laws::{law_files_survive, law_new_name_is_found, law_removed_name_is_gone};
use super::layout::{
    blocks_for, data_count, first_zero, good_name, growth, lemma_block_count_monotone,
    lemma_first_zero, lemma_stored_name, padded, stored_name, DirEntry, DiskInode, SuperBlock,
};
use super::vfs::Inode;
use crate::bytes::{lemma_u32_bytes, u32_at, u32_bytes, u64_at};

verus! {

/// What a read gives: the bytes of the file from `offset` on, as many as fit the buffer and as the file
/// has; what is left of the buffer stays, and so does the file system.
pub proof fn law_read_at<D: BlockDevice>(
    inode: &Inode,
    fs0: EasyFileSystem<D>,
    fs1: EasyFileSystem<D>,
    offset: usize,
    buf0: Seq<u8>,
    buf1: Seq<u8>,
    r: usize,
)
    requires
        exists|buf: &mut [u8], fs: &mut EasyFileSystem<D>| #[trigger]
            call_ensures(Inode::read_at::<D>, (inode, offset, buf, fs), r) && *fs == fs0 && *final(fs)
                == fs1 && buf@ == buf0 && final(buf)@ == buf1,
    ensures
        fs1.files() == fs0.files(),
        fs1.slots() == fs0.slots(),
        ({
            let content = fs0.slots()[inode.number(fs0.division())].content;
            &&& r == (if offset >= content.len() {
                0
            } else if buf0.len() <= content.len() - offset {
                buf0.len() as int
            } else {
                content.len() - offset
            })
            &&& buf1.len() == buf0.len()
            &&& forall|k: int| 0 <= k < r ==> #[trigger] buf1[k] == content[offset + k]
            &&& forall|k: int| r <= k < buf0.len() ==> #[trigger] buf1[k] == buf0[k]
        }),
{
}

/// What a write leaves: the file has the bytes that were written from `offset` on. It is as long as
/// it was, or ends with them; between its old end and `offset` there are zeros, and its other bytes
/// stay. Other files stay as they are.
pub proof fn law_write_at<D: BlockDevice>(
    inode: &Inode,
    fs0: EasyFileSystem<D>,
    fs1: EasyFileSystem<D>,
    offset: usize,
    data: &[u8],
    r: usize,
)
    requires
        exists|fs: &mut EasyFileSystem<D>| #[trigger]
            call_ensures(Inode::write_at::<D>, (inode, offset, data, fs), r) && *fs == fs0 && *final(fs)
                == fs1,
        fs0.wf(),
        inode.valid(&fs0),
        !fs0.slots()[inode.number(fs0.division())].directory,
    ensures
        r == data@.len(),
        ({
            let id = inode.number(fs0.division());
            let c0 = fs0.slots()[id].content;
            let c1 = fs1.slots()[id].content;
            &&& c1.len() == (if offset + data@.len() <= c0.len() {
                c0.len() as int
            } else {
                offset + data@.len()
            })
            &&& forall|k: int|
                0 <= k < c1.len() ==> #[trigger] c1[k] == (if offset <= k < offset + data@.len() {
                    data@[k - offset]
                } else if k < c0.len() {
                    c0[k]
                } else {
                    0
                })
            &&& fs1.slots()[id].nlink == fs0.slots()[id].nlink
            &&& forall|j: int| j != id ==> #[trigger] fs1.slots()[j] == fs0.slots()[j]
            &&& forall|j: int| #[trigger] fs1.live(j) == fs0.live(j)
        }),
{
}

/// What is written to a file is what is read from it: after a write of some bytes, a read of as many
/// from the same place gives these bytes.
pub proof fn law_read_after_write<D: BlockDevice>(
    inode: &Inode,
    fs0: EasyFileSystem<D>,
    fs1: EasyFileSystem<D>,
    fs2: EasyFileSystem<D>,
    offset: usize,
    data: &[u8],
    r1: usize,
    buf0: Seq<u8>,
    buf1: Seq<u8>,
    r2: usize,
)
    requires
        exists|fs: &mut EasyFileSystem<D>| #[trigger]
            call_ensures(Inode::write_at::<D>, (inode, offset, data, fs), r1) && *fs == fs0 && *final(fs)
                == fs1,
        exists|buf: &mut [u8], fs: &mut EasyFileSystem<D>| #[trigger]
            call_ensures(Inode::read_at::<D>, (inode, offset, buf, fs), r2) && *fs == fs1 && *final(fs)
                == fs2 && buf@ == buf0 && final(buf)@ == buf1,
        fs0.wf(),
        inode.valid(&fs0),
        !fs0.slots()[inode.number(fs0.division())].directory,
        buf0.len() == data@.len(),
    ensures
        r1 == data@.len(),
        r2 == data@.len(),
        buf1 == data@,
{
    law_write_at(inode, fs0, fs1, offset, data, r1);
    law_read_at(inode, fs1, fs2, offset, buf0, buf1, r2);
    assert(buf1 =~= data@);
}

/// A file that was made is found by its name, and no other name leads elsewhere than before. A name
/// that is taken cannot be made again.
pub proof fn law_find_after_create<D: BlockDevice>(
    root: &Inode,
    fs0: EasyFileSystem<D>,
    fs1: EasyFileSystem<D>,
    fs2: EasyFileSystem<D>,
    name: &str,
    made: Option<Inode>,
    found: Option<Inode>,
)
    requires
        exists|fs: &mut EasyFileSystem<D>| #[trigger]
            call_ensures(Inode::create::<D>, (root, name, fs), made) && *fs == fs0 && *final(fs) == fs1,
        exists|fs: &mut EasyFileSystem<D>| #[trigger]
            call_ensures(Inode::find::<D>, (root, name, fs), found) && *fs == fs1 && *final(fs) == fs2,
        fs0.wf(),
        tree_ok(fs0.files()),
    ensures
        found is Some,
        made matches Some(inode) ==> {
            let id = inode.number(fs1.division());
            &&& found->0.number(fs1.division()) == id
            &&& !fs0.live(id)
            &&& fs1.live(id)
            &&& fs1.files()[id].content == Seq::<u8>::empty()
            &&& fs1.files()[id].nlink == 1
            &&& !fs1.files()[id].directory
            &&& forall|j: int| fs0.live(j) && j != 0 ==> #[trigger] fs1.files()[j] == fs0.files()[j]
        },
        made is None ==> fs1.files() == fs0.files(),
{
    let es = entries(fs0.files()[0].content);
    let bytes = name.spec_bytes();
    assert(fs0.files().dom().contains(0));
    if let Some(inode) = made {
        let id = inode.number(fs0.division());
        assert(fs0.live(0));
        assert(bytes + seq![1u8] != bytes) by {
            assert((bytes + seq![1u8]).len() != bytes.len());
        }
        law_new_name_is_found(es, bytes, id, bytes + seq![1u8]);
    }
}

/// A file is found under a second name that it got.
pub proof fn law_find_after_link<D: BlockDevice>(
    root: &Inode,
    fs0: EasyFileSystem<D>,
    fs1: EasyFileSystem<D>,
    fs2: EasyFileSystem<D>,
    old_name: &str,
    new_name: &str,
    r: Option<()>,
    found: Option<Inode>,
)
    requires
        exists|fs: &mut EasyFileSystem<D>| #[trigger]
            call_ensures(Inode::link::<D>, (root, old_name, new_name, fs), r) && *fs == fs0 && *final(fs)
                == fs1,
        exists|fs: &mut EasyFileSystem<D>| #[trigger]
            call_ensures(Inode::find::<D>, (root, new_name, fs), found) && *fs == fs1 && *final(fs)
                == fs2,
        fs0.wf(),
        tree_ok(fs0.files()),
        r is Some,
        lookup(entries(fs0.files()[0].content), old_name.spec_bytes()) matches Some(id)
            ==> fs0.files()[id].nlink < 255,
    ensures
        found is Some,
        lookup(entries(fs0.files()[0].content), old_name.spec_bytes()) == Some(
            found->0.number(fs1.division()),
        ),
        ({
            let id = found->0.number(fs1.division());
            &&& fs1.files()[id].content == fs0.files()[id].content
            &&& fs1.files()[id].nlink == fs0.files()[id].nlink + 1
        }),
{
    let es = entries(fs0.files()[0].content);
    let bytes = new_name.spec_bytes();
    let id = lookup(es, old_name.spec_bytes())->0;
    lemma_position_found(es, old_name.spec_bytes());
    assert(es[position(es, old_name.spec_bytes())].id != 0);
    assert(bytes + seq![1u8] != bytes) by {
        assert((bytes + seq![1u8]).len() != bytes.len());
    }
    law_new_name_is_found(es, bytes, id, bytes + seq![1u8]);
}

/// A name that was taken away is not found, and every other name leads where it led.
pub proof fn law_find_after_unlink<D: BlockDevice>(
    root: &Inode,
    fs0: EasyFileSystem<D>,
    fs1: EasyFileSystem<D>,
    fs2: EasyFileSystem<D>,
    name: &str,
    other: &str,
    r: Option<()>,
    found: Option<Inode>,
)
    requires
        exists|fs: &mut EasyFileSystem<D>| #[trigger]
            call_ensures(Inode::unlink::<D>, (root, name, fs), r) && *fs == fs0 && *final(fs) == fs1,
        exists|fs: &mut EasyFileSystem<D>| #[trigger]
            call_ensures(Inode::find::<D>, (root, other, fs), found) && *fs == fs1 && *final(fs) == fs2,
        fs0.wf(),
        tree_ok(fs0.files()),
    ensures
        r is Some <==> lookup(entries(fs0.files()[0].content), name.spec_bytes()) is Some,
        other.spec_bytes() == name.spec_bytes() ==> found is None,
        other.spec_bytes() != name.spec_bytes() ==> match lookup(
            entries(fs0.files()[0].content),
            other.spec_bytes(),
        ) {
            Some(id) => found is Some && found->0.number(fs1.division()) == id,
            None => found is None,
        },
{
    let files = fs0.files();
    let es = entries(files[0].content);
    let bytes = name.spec_bytes();
    lemma_position_found(es, bytes);
    if r is Some {
        let k = position(es, bytes);
        assert(es[k].id != 0 && files.dom().contains(es[k].id));
        assert(bytes + seq![1u8] != bytes) by {
            assert((bytes + seq![1u8]).len() != bytes.len());
        }
        law_removed_name_is_gone(files, bytes, bytes + seq![1u8]);
        if other.spec_bytes() != bytes {
            law_removed_name_is_gone(files, bytes, other.spec_bytes());
        }
        assert(files[es[k].id].nlink >= 1) by {
            lemma_links_bounds(es, es[k].id);
        }
    }
}

/// A number that is handed out by a bitmap was free and is the smallest such number; it is not
/// handed out again before it is given back, and when it is given back it is free. Other numbers stay
/// as they are.
pub proof fn law_bitmap_hands_out_free_numbers<D: BlockDevice>(
    bitmap: &Bitmap,
    c0: BlockCacheManager<D>,
    c1: BlockCacheManager<D>,
    c2: BlockCacheManager<D>,
    a: usize,
    b: Option<usize>,
)
    requires
        exists|c: &mut BlockCacheManager<D>| #[trigger]
            call_ensures(Bitmap::allocate::<D>, (bitmap, c), Some(a)) && *c == c0 && *final(c) == c1,
        exists|c: &mut BlockCacheManager<D>| #[trigger]
            call_ensures(Bitmap::allocate::<D>, (bitmap, c), b) && *c == c1 && *final(c) == c2,
    ensures
        !bitmap.is_set(c0@, a as int),
        bitmap.is_set(c1@, a as int),
        b matches Some(n) ==> n > a && !bitmap.is_set(c0@, n as int) && bitmap.is_set(
            c2@,
            n as int,
        ) && bitmap.is_set(c2@, a as int),
        forall|m: int| 0 <= m < a ==> #[trigger] bitmap.is_set(c0@, m),
{
    if let Some(n) = b {
        if n < a {
            assert(bitmap.is_set(c0@, n as int));
        }
    }
}

/// How a file lies on the disk. Its inode has 128 bytes, four to a block, behind the inode bitmap. The
/// first four bytes are its length; from byte 4 on there are the numbers of its first 28 blocks; then
/// that of a block with the numbers of the next 128, and that of a block with the numbers of blocks
/// with the numbers of the rest. Byte 124 has the number of links, and byte 125 is 1 for a directory. Byte
/// `p` of the file is byte `p % 512` of its block number `p / 512`.
#[verifier::rlimit(40)]
pub proof fn law_how_files_lie_on_the_disk<D: BlockDevice>(
    fs: &EasyFileSystem<D>,
    id: int,
    p: int,
)
    requires
        fs.wf(),
        fs.division().slot(id),
    ensures
        ({
            let disk = fs.disk();
            let f = fs.slots()[id];
            let block = disk[1 + u32_at(disk[0], 8) + id / 4];
            let at = id % 4 * 128;
            let n = p / 512;
            let m = (n - 156) / 128;
            let data = if n < 28 {
                u32_at(block, at + 4 + 4 * n)
            } else if n < 156 {
                u32_at(disk[u32_at(block, at + 116) as int], 4 * (n - 28))
            } else {
                u32_at(
                    disk[u32_at(disk[u32_at(block, at + 120) as int], 4 * m) as int],
                    4 * ((n - 156) % 128),
                )
            };
            &&& u32_at(disk[0], 0) == 0x3b80_0001
            &&& f.content.len() == u32_at(block, at)
            &&& f.nlink == block[at + 124]
            &&& f.directory == (block[at + 125] == 1)
            &&& 0 <= p < f.content.len() ==> f.content[p] == disk[data as int][p % 512]
            &&& fs.live(id) == ((u64_at(disk[1 + id / 4096], 8 * (id % 4096 / 64)) >> ((id
                % 64) as u64)) & 1u64 == 1u64)
        }),
{
    let disk = fs.disk();
    let d = fs.division();
    let block = disk[d.inode_start() + id / 4];
    let at = id % 4 * 128;
    let bytes = block.subrange(at, at + 128);
    assert(block.len() == 512) by {
        fs.cache.lemma_whole_blocks();
        assert(disk.dom().contains(d.inode_start() + id / 4));
    }
    assert forall|k: int| 0 <= k <= 124 implies #[trigger] u32_at(bytes, k) == u32_at(
        block,
        at + k,
    ) by {
        assert(bytes.subrange(k, k + 4) =~= block.subrange(at + k, at + k + 4));
    }
    assert(u32_at(bytes, 0) == u32_at(block, at + 0));
    assert(u32_at(bytes, 116) == u32_at(block, at + 116));
    assert(u32_at(bytes, 120) == u32_at(block, at + 120));
    let n = p / 512;
    if 0 <= n < 28 {
        assert(u32_at(bytes, 4 + 4 * n) == u32_at(block, at + (4 + 4 * n)));
    }
}

/// How a directory lies in its bytes: 32 for each entry. The first 28 have the name, filled up with
/// zeros; the last four have the number of the inode. A name stands for the number in the first
/// entry that has it.
#[verifier::rlimit(40)]
pub proof fn law_how_entries_lie_in_a_directory(content: Seq<u8>, name: Seq<u8>, k: int)
    requires
        0 <= k < content.len() / 32,
        name.len() < 28,
        forall|i: int| 0 <= i < name.len() ==> #[trigger] name[i] != 0,
    ensures
        (entries(content)[k].name == name) == (content.subrange(32 * k, 32 * k + name.len()) == name
            && content[32 * k + name.len()] == 0),
        entries(content)[k].id == u32_at(content, 32 * k + 28),
        entries(content)[k].name == name && (forall|j: int|
            0 <= j < k ==> (#[trigger] entries(content)[j]).name != name) ==> lookup(
            entries(content),
            name,
        ) == Some(u32_at(content, 32 * k + 28) as int),
{
    let es = entries(content);
    let raw = content.subrange(32 * k, 32 * k + 32);
    let field = raw.subrange(0, 28);
    assert(es[k].name == stored_name(field));
    assert(raw.subrange(28, 32) =~= content.subrange(32 * k + 28, 32 * k + 32));
    let n = name.len() as int;
    lemma_zero_found(field);
    if content.subrange(32 * k, 32 * k + n) == name && content[32 * k + n] == 0 {
        assert forall|i: int| 0 <= i < n implies #[trigger] field[i] != 0 by {
            assert(content.subrange(32 * k, 32 * k + n)[i] == name[i]);
        }
        lemma_first_zero(field, n);
        assert(stored_name(field) =~= content.subrange(32 * k, 32 * k + n));
    }
    if es[k].name == name {
        assert(first_zero(field) == n);
        assert(content.subrange(32 * k, 32 * k + n) =~= stored_name(field));
        assert(field[n] == 0);
    }
    if es[k].name == name && (forall|j: int| 0 <= j < k ==> (#[trigger] es[j]).name != name) {
        lemma_position(es, name, k);
    }
}

/// What `first_zero` finds.
proof fn lemma_zero_found(s: Seq<u8>)
    ensures
        0 <= first_zero(s) <= s.len(),
        first_zero(s) < s.len() ==> s[first_zero(s)] == 0,
        forall|i: int| 0 <= i < first_zero(s) ==> #[trigger] s[i] != 0,
    decreases s.len(),
{
    if s.len() > 0 && s[0] != 0 {
        let t = s.drop_first();
        lemma_zero_found(t);
        assert forall|i: int| 0 <= i < first_zero(s) implies #[trigger] s[i] != 0 by {
            if i > 0 {
                assert(t[i - 1] == s[i]);
            }
        }
    }
}

/// Where bit `n` of a bitmap is: 4096 bits to a block, 64 to a word, the lowest bit of a word first.
pub proof fn law_how_bits_lie_on_the_disk(bitmap: &Bitmap, disk: Map<int, Seq<u8>>, n: int)
    ensures
        bitmap.is_set(disk, n) == ((u64_at(
            disk[bitmap.start() + n / 4096],
            8 * (n % 4096 / 64),
        ) >> ((n % 64) as u64)) & 1u64 == 1u64),
{
}

/// How many blocks a file of some size has: one for each 512 bytes or part of them; one with numbers
/// from the 29th on; and from the 157th on one with numbers of such blocks, and one such block for
/// each 128 or part of them.
pub proof fn law_total_blocks(size: u32, r: u32)
    requires
        call_ensures(DiskInode::total_blocks, (size,), r),
        size + 512 <= u32::MAX,
    ensures
        ({
            let n = (size + 511) / 512;
            &&& n <= 28 ==> r == n
            &&& 28 < n <= 156 ==> r == n + 1
            &&& n > 156 ==> r == n + 2 + (n - 156 + 127) / 128
        }),
{
}

/// The blocks of a file as the machine finds them: the first 28 in the inode, the next 128 in the
/// block that the inode names, and the others in blocks that a block names that the inode names.
pub proof fn law_get_block_id<D: BlockDevice>(
    inode: &DiskInode,
    c0: BlockCacheManager<D>,
    c1: BlockCacheManager<D>,
    n: u32,
    r: u32,
)
    requires
        exists|c: &mut BlockCacheManager<D>| #[trigger]
            call_ensures(DiskInode::get_block_id::<D>, (inode, n, c), r) && *c == c0 && *final(c) == c1,
    ensures
        c1@ == c0@,
        n < 28 ==> r == inode.direct@[n as int],
        28 <= n < 156 ==> r == u32_at(c0@[inode.indirect1 as int], 4 * (n - 28)),
        n >= 156 ==> r == u32_at(
            c0@[u32_at(c0@[inode.indirect2 as int], 4 * ((n - 156) / 128)) as int],
            4 * ((n - 156) % 128),
        ),
{
}

/// A file that was empty, grew, and is cleared gives back the blocks that it got, in the order in which
/// it got them and each once; it is empty then, and its links and its kind stay.
pub proof fn law_clear_after_growth<D: BlockDevice>(
    i0: DiskInode,
    i1: DiskInode,
    i2: DiskInode,
    c0: BlockCacheManager<D>,
    c1: BlockCacheManager<D>,
    c2: BlockCacheManager<D>,
    new_size: u32,
    new_blocks: Vec<u32>,
    r: Vec<u32>,
)
    requires
        exists|i: &mut DiskInode, c: &mut BlockCacheManager<D>| #[trigger]
            call_ensures(DiskInode::increase_size::<D>, (i, new_size, new_blocks, c), ()) && *i == i0
                && *final(i) == i1 && *c == c0 && *final(c) == c1,
        exists|i: &mut DiskInode, c: &mut BlockCacheManager<D>| #[trigger]
            call_ensures(DiskInode::clear_size::<D>, (i, c), r) && *i == i1 && *final(i) == i2 && *c
                == c1 && *final(c) == c2,
        i0.size == 0,
        new_blocks@.len() == blocks_for(new_size as int),
    ensures
        r@ == new_blocks@,
        r@.no_duplicates(),
        i1.size == new_size,
        i2.size == 0,
        i2.nlink == i0.nlink,
        i2.type_ == i0.type_,
{
    let target = growth(i0@, c0@, new_size, new_blocks@);
    let all = i1@.all_blocks(c1@);
    lemma_block_count_monotone(0, data_count(new_size as int));
    assert(i0@.all_blocks(c0@) =~= Seq::empty());
    assert(target =~= new_blocks@.map_values(|b: u32| b as int));
    assert(all =~= target);
    assert(all.len() == r@.len());
    assert forall|p: int| 0 <= p < r@.len() implies r@[p] == #[trigger] new_blocks@[p] by {
        assert(all[p] == r@[p] as int);
        assert(all[p] == new_blocks@[p] as int);
    }
    assert(r@ =~= new_blocks@);
    assert forall|p: int, q: int| 0 <= p < q < r@.len() implies r@[p] != r@[q] by {
        assert(all[p] == r@[p] as int && all[q] == r@[q] as int);
    }
}

/// A full cache makes room for a block by letting go of the oldest one that nobody holds; at most 16
/// blocks are kept. A block that is kept is found again, and the device is not touched.
#[verifier::rlimit(40)]
pub proof fn law_get_block_cache<D: BlockDevice>(
    m0: BlockCacheManager<D>,
    m1: BlockCacheManager<D>,
    b: usize,
)
    requires
        exists|m: &mut BlockCacheManager<D>| #[trigger]
            call_ensures(BlockCacheManager::<D>::get_block_cache, (m, b), ()) && *m == m0 && *final(m)
                == m1,
        m0.wf(),
        (exists|i: int| 0 <= i < m0.slots().len() && (#[trigger] m0.slots()[i]).block_id == b)
            || m0.slots().len() < 16 || exists|i: int|
            0 <= i < m0.slots().len() && (#[trigger] m0.slots()[i]).holders == 0,
    ensures
        m1@ == m0@,
        forall|i: int|
            0 <= i < m0.slots().len() && (#[trigger] m0.slots()[i]).block_id == b ==> {
                &&& m1.device_itself() == m0.device_itself()
                &&& m1.slots() == m0.slots().update(
                    i,
                    (SlotView { holders: m0.slots()[i].holders + 1, ..m0.slots()[i] }),
                )
            },
        (forall|i: int| 0 <= i < m0.slots().len() ==> (#[trigger] m0.slots()[i]).block_id != b) ==> {
            let fresh = SlotView {
                block_id: b as int,
                holders: 1,
                modified: false,
                data: m0.device_itself().contents()[b as int],
            };
            &&& m0.slots().len() < 16 ==> m1.slots() == m0.slots().push(fresh)
                && m1.device_itself() == m0.device_itself()
            &&& forall|v: int|
                m0.slots().len() >= 16 && 0 <= v < m0.slots().len() && (
                #[trigger] m0.slots()[v]).holders == 0 && (forall|j: int|
                    0 <= j < v ==> (#[trigger] m0.slots()[j]).holders > 0) ==> {
                    &&& m1.slots() == m0.slots().remove(v).push(fresh)
                    &&& m1.device_itself().contents() == (if m0.slots()[v].modified {
                        m0.device_itself().contents().insert(
                            m0.slots()[v].block_id,
                            m0.slots()[v].data,
                        )
                    } else {
                        m0.device_itself().contents()
                    })
                }
        },
{
    let slots = m0.slots();
    assert forall|i: int| 0 <= i < slots.len() && (#[trigger] slots[i]).block_id == b implies {
        &&& m1.device_itself() == m0.device_itself()
        &&& m1.slots() == slots.update(
            i,
            (SlotView { holders: slots[i].holders + 1, ..slots[i] }),
        )
    } by {
        lemma_place(slots, i);
    }
    if forall|i: int| 0 <= i < slots.len() ==> (#[trigger] slots[i]).block_id != b {
        assert(!holds(slots, b as int));
        assert forall|v: int|
            0 <= v < slots.len() && (#[trigger] slots[v]).holders == 0 && (forall|j: int|
                0 <= j < v ==> (#[trigger] slots[j]).holders > 0) implies victim(slots) == v by {
            assert(is_victim(slots, v));
            let w = victim(slots);
            assert(is_victim(slots, w));
            if w < v {
                assert(slots[w].holders > 0);
            } else if v < w {
                assert(slots[v].holders > 0);
            }
        }
    }
}

/// A new file system uses all blocks that it is given: one says how the others are divided; then come
/// the inode bitmap, an inode for each of its bits, four to a block, the data bitmap, and the data, with
/// a bit for each block. It holds an empty root directory, number 0, and nothing else; all data blocks
/// are free.
pub proof fn law_create<D: BlockDevice>(
    device: D,
    total: u32,
    inode_bitmap: u32,
    fs: EasyFileSystem<D>,
)
    requires
        call_ensures(EasyFileSystem::<D>::create, (device, total, inode_bitmap), fs),
        inode_bitmap >= 1,
        1 + inode_bitmap * 1025 < total,
    ensures
        ({
            let d = fs.division();
            &&& d.inode_bitmap == inode_bitmap
            &&& d.inode_area == inode_bitmap * 1024
            &&& 1 + d.inode_bitmap + d.inode_area + d.data_bitmap + d.data_area == total
            &&& d.data_area <= 4096 * d.data_bitmap
            &&& 4096 * (d.data_bitmap - 1) < d.data_area + 1
            &&& fs.files().dom() == set![0int]
            &&& fs.files()[0].directory
            &&& fs.files()[0].content.len() == 0
            &&& fs.files()[0].nlink == 1
            &&& fs.free_blocks() == d.data_area
            &&& fs.free_inodes() == 4096 * inode_bitmap - 1
            &&& lookup(entries(fs.files()[0].content), seq![1u8]) is None
        }),
{
    assert(fs.files().dom() =~= set![0int]);
}

/// What was written back is there when the device is opened again: the same files with the same names
/// and contents.
pub proof fn law_open_again<D: BlockDevice>(fs: EasyFileSystem<D>, device: D, again: EasyFileSystem<D>)
    requires
        fs.wf(),
        fs.synced(),
        device.contents() == fs.cache.device_contents(),
        call_ensures(EasyFileSystem::<D>::open, (device,), again),
    ensures
        again.files() == fs.files(),
        again.slots() == fs.slots(),
        again.division() == fs.division(),
{
    law_files_survive(&fs);
}

/// Where inode `id` lies: four to a block.
pub proof fn law_get_disk_inode_pos<D: BlockDevice>(fs: EasyFileSystem<D>, id: u32, r: (u32, usize))
    requires
        call_ensures(EasyFileSystem::<D>::get_disk_inode_pos, (&fs, id), r),
        fs.wf(),
    ensures
        r.0 == 1 + u32_at(fs.disk()[0], 8) + id as int / 4,
        r.1 == id as int % 4 * 128,
{
}

/// The smallest free data block is handed out. It is not free then, and all others are as free as they
/// were; no file has changed.
pub proof fn law_alloc_data<D: BlockDevice>(fs0: EasyFileSystem<D>, fs1: EasyFileSystem<D>, r: u32)
    requires
        exists|fs: &mut EasyFileSystem<D>| #[trigger]
            call_ensures(EasyFileSystem::<D>::alloc_data, (fs,), r) && *fs == fs0 && *final(fs) == fs1,
    ensures
        fs0.free_set().contains(r as int),
        fs1.free_set() == fs0.free_set().remove(r as int),
        forall|b: int| #[trigger] fs0.free_set().contains(b) ==> b >= r,
        fs1.files() == fs0.files(),
{
    assert forall|b: int| #[trigger] fs0.free_set().contains(b) implies b >= r by {
        assert(fs0.division().is_data(b));
    }
}

/// The smallest free inode is handed out, and is in use then; all others are as they were.
pub proof fn law_alloc_inode<D: BlockDevice>(fs0: EasyFileSystem<D>, fs1: EasyFileSystem<D>, r: u32)
    requires
        exists|fs: &mut EasyFileSystem<D>| #[trigger]
            call_ensures(EasyFileSystem::<D>::alloc_inode, (fs,), r) && *fs == fs0 && *final(fs) == fs1,
    ensures
        !fs0.live(r as int),
        fs1.live(r as int),
        forall|i: int| 0 <= i < r ==> #[trigger] fs0.live(i),
        forall|i: int| i != r ==> #[trigger] fs1.live(i) == fs0.live(i),
{
}

/// What a directory entry gives back is what it was made of: the name and the number. On the disk it
/// has 32 bytes: the name, filled up with zeros to 28, and the number, lowest byte first.
#[verifier::rlimit(40)]
pub proof fn law_dir_entry(
    name: &str,
    id: u32,
    e: DirEntry,
    bytes: [u8; 32],
    back: DirEntry,
    n: &str,
    i: u32,
)
    requires
        call_ensures(DirEntry::new, (name, id), e),
        call_ensures(DirEntry::as_bytes, (&e,), bytes),
        call_ensures(DirEntry::from_bytes, (&bytes,), back),
        call_ensures(DirEntry::name, (&back,), n),
        call_ensures(DirEntry::inode_id, (&back,), i),
        good_name(name.spec_bytes()),
    ensures
        n.spec_bytes() == name.spec_bytes(),
        i == id,
        forall|k: int|
            0 <= k < 28 ==> #[trigger] bytes@[k] == (if k < name.spec_bytes().len() {
                name.spec_bytes()[k]
            } else {
                0
            }),
        bytes@[28] + 0x100 * bytes@[29] + 0x1_0000 * bytes@[30] + 0x100_0000 * bytes@[31] == id,
{
    lemma_stored_name(name.spec_bytes());
    lemma_u32_bytes();
    reveal(u32_bytes);
    assert(bytes@ == padded(name.spec_bytes()) + u32_bytes(id));
    assert(back.name_field() + u32_bytes(back.id()) == bytes@);
    assert(back.name_field() =~= bytes@.subrange(0, 28));
    assert(padded(name.spec_bytes()) =~= bytes@.subrange(0, 28));
    assert(u32_bytes(back.id()) =~= bytes@.subrange(28, 32));
    assert(u32_bytes(id) =~= bytes@.subrange(28, 32));
    let x = back.id();
    assert(u32_bytes(x)[0] + 0x100 * u32_bytes(x)[1] + 0x1_0000 * u32_bytes(x)[2] + 0x100_0000
        * u32_bytes(x)[3] == x);
    assert(u32_bytes(id)[0] + 0x100 * u32_bytes(id)[1] + 0x1_0000 * u32_bytes(id)[2] + 0x100_0000
        * u32_bytes(id)[3] == id);
}

/// How the first block lies on the disk: six numbers of four bytes each, the mark first.
pub proof fn law_how_the_super_block_lies(b: &SuperBlock, bytes: Seq<u8>)
    requires
        b.stored_in(bytes),
    ensures
        bytes.len() == 24,
        u32_at(bytes, 0) == b.magic,
        u32_at(bytes, 4) == b.total_blocks,
        u32_at(bytes, 8) == b.inode_bitmap_blocks,
        u32_at(bytes, 12) == b.inode_area_blocks,
        u32_at(bytes, 16) == b.data_bitmap_blocks,
        u32_at(bytes, 20) == b.data_area_blocks,
{
}

/// A block that was stored is the one that is loaded, and every other block is as before.
pub proof fn law_load_after_store<D: BlockDevice>(
    m0: BlockCacheManager<D>,
    m1: BlockCacheManager<D>,
    m2: BlockCacheManager<D>,
    b: usize,
    other: usize,
    value: [u8; 512],
    r: [u8; 512],
)
    requires
        exists|m: &mut BlockCacheManager<D>| #[trigger]
            call_ensures(BlockCacheManager::<D>::store::<[u8; 512]>, (m, b, 0usize, &value), ()) && *m
                == m0 && *final(m) == m1,
        exists|m: &mut BlockCacheManager<D>| #[trigger]
            call_ensures(BlockCacheManager::<D>::load::<[u8; 512]>, (m, other, 0usize), r) && *m == m1
                && *final(m) == m2,
        m0.wf(),
        m0@.dom().contains(other as int),
    ensures
        other == b ==> r@ == value@,
        other != b ==> r@ == m0@[other as int],
        m2@ == m1@,
{
    m0.lemma_whole_blocks();
    m1.lemma_whole_blocks();
    assert(m1@[other as int].len() == 512);
    assert(m1@[other as int].subrange(0, 512) =~= m1@[other as int]);
}

/// A file that is cleared is empty, and all of its blocks are free again; its links and its kind stay,
/// and so do all other files.
pub proof fn law_clear<D: BlockDevice>(inode: &Inode, fs0: EasyFileSystem<D>, fs1: EasyFileSystem<D>)
    requires
        exists|fs: &mut EasyFileSystem<D>| #[trigger]
            call_ensures(Inode::clear::<D>, (inode, fs), ()) && *fs == fs0 && *final(fs) == fs1,
        fs0.wf(),
        inode.valid(&fs0),
    ensures
        ({
            let id = inode.number(fs0.division());
            &&& fs1.slots()[id].content.len() == 0
            &&& fs1.slots()[id].nlink == fs0.slots()[id].nlink
            &&& fs1.slots()[id].directory == fs0.slots()[id].directory
            &&& forall|j: int| j != id ==> #[trigger] fs1.slots()[j] == fs0.slots()[j]
            &&& forall|b: int| #[trigger]
                fs1.free_set().contains(b) == (fs0.free_set().contains(b) || fs0.blocks_of(id).contains(b))
        }),
{
}

/// What can be learned of a file: its length, its kind, 1 for a directory and 2 for a file, and the number
/// of its links.
pub proof fn law_size_and_stat<D: BlockDevice>(
    inode: &Inode,
    fs0: EasyFileSystem<D>,
    fs1: EasyFileSystem<D>,
    fs2: EasyFileSystem<D>,
    size: u32,
    stat: (i32, u32),
)
    requires
        exists|fs: &mut EasyFileSystem<D>| #[trigger]
            call_ensures(Inode::size::<D>, (inode, fs), size) && *fs == fs0 && *final(fs) == fs1,
        exists|fs: &mut EasyFileSystem<D>| #[trigger]
            call_ensures(Inode::stat::<D>, (inode, fs), stat) && *fs == fs1 && *final(fs) == fs2,
    ensures
        ({
            let f = fs0.slots()[inode.number(fs0.division())];
            &&& size == f.content.len()
            &&& stat.0 == (if f.directory {
                1int
            } else {
                2
            })
            &&& stat.1 == f.nlink
            &&& fs2.files() == fs0.files()
        }),
{
}

/// The names of a directory are listed in the order in which they stand there.
pub proof fn law_ls<D: BlockDevice>(
    inode: &Inode,
    fs0: EasyFileSystem<D>,
    fs1: EasyFileSystem<D>,
    r: Vec<String>,
    k: int,
)
    requires
        exists|fs: &mut EasyFileSystem<D>| #[trigger]
            call_ensures(Inode::ls::<D>, (inode, fs), r) && *fs == fs0 && *final(fs) == fs1,
        0 <= k < r@.len(),
    ensures
        r@.len() == fs0.files()[0].content.len() / 32,
        encode_utf8(r@[k]@) == entries(fs0.files()[0].content)[k].name,
        fs1.files() == fs0.files(),
{
}

} // verus!
