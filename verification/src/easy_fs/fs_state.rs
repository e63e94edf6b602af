//! What a disk means as a file system: where its parts lie, which inodes and blocks are in use,
//! and what the files hold.

use vstd::prelude::*;
use vstd::set_lib::{lemma_int_range, lemma_len_subset, set_int_range};

use super::bitmap::bit_at;
use super::layout::{
    data_count, data_position, inode_in, is_index_position, lemma_content_of_room,
    lemma_positions, lemma_same_index, InodeView, EFS_MAGIC,
};
use crate::bytes::{same_outside, u32_at, zero_from};

verus! {

/// How a disk is divided: the super block, then the inode bitmap, the inodes, the data bitmap and
/// the data.
#[verifier::ext_equal]
pub struct Division {
    /// Blocks of the inode bitmap.
    pub inode_bitmap: int,
    /// Blocks of the inodes.
    pub inode_area: int,
    /// Blocks of the data bitmap.
    pub data_bitmap: int,
    /// Blocks of the data.
    pub data_area: int,
}

/// A file as its users see it.
#[verifier::ext_equal]
pub struct FileView {
    pub content: Seq<u8>,
    pub nlink: u8,
    pub directory: bool,
}

/// The division that a super block describes.
pub open spec fn division_in(block: Seq<u8>) -> Division {
    Division {
        inode_bitmap: u32_at(block, 8) as int,
        inode_area: u32_at(block, 12) as int,
        data_bitmap: u32_at(block, 16) as int,
        data_area: u32_at(block, 20) as int,
    }
}

impl Division {
    /// The first block of the inodes.
    pub open spec fn inode_start(self) -> int {
        1 + self.inode_bitmap
    }

    /// The first block of the data bitmap.
    pub open spec fn data_bitmap_start(self) -> int {
        1 + self.inode_bitmap + self.inode_area
    }

    /// The first block of the data.
    pub open spec fn data_start(self) -> int {
        1 + self.inode_bitmap + self.inode_area + self.data_bitmap
    }

    /// The first block after the data.
    pub open spec fn end(self) -> int {
        self.data_start() + self.data_area
    }

    /// How many inodes there are.
    pub open spec fn inodes(self) -> int {
        self.inode_bitmap * 4096
    }

    /// The parts fit each other, the machine and the disk, whose first block says how they lie.
    pub open spec fn fits(self, disk: Map<int, Seq<u8>>) -> bool {
        &&& u32_at(disk[0], 0) == EFS_MAGIC
        &&& division_in(disk[0]) == self
        &&& 1 <= self.inode_bitmap
        &&& self.inodes() <= 4 * self.inode_area
        &&& self.inodes() <= u32::MAX
        &&& 0 <= self.data_area <= self.data_bitmap * 4096
        &&& self.data_start() + self.data_bitmap * 4096 <= u32::MAX
        &&& forall|b: int| 0 <= b < self.end() ==> #[trigger] disk.dom().contains(b)
    }

    /// There is an inode `i`.
    pub open spec fn slot(self, i: int) -> bool {
        0 <= i < self.inodes()
    }

    /// Inode `i` is in use.
    pub open spec fn live(self, disk: Map<int, Seq<u8>>, i: int) -> bool {
        self.slot(i) && bit_at(disk, 1, i)
    }

    /// Data block number `n` of the data area is in use.
    pub open spec fn taken(self, disk: Map<int, Seq<u8>>, n: int) -> bool {
        bit_at(disk, self.data_bitmap_start(), n)
    }

    /// `b` is a block of the data area.
    pub open spec fn is_data(self, b: int) -> bool {
        self.data_start() <= b < self.end()
    }

    /// Inode `i`.
    pub open spec fn inode(self, disk: Map<int, Seq<u8>>, i: int) -> InodeView {
        inode_in(disk[self.inode_start() + i / 4].subrange(i % 4 * 128, i % 4 * 128 + 128))
    }

    /// All blocks of file `i`.
    pub open spec fn blocks(self, disk: Map<int, Seq<u8>>, i: int) -> Seq<int> {
        self.inode(disk, i).all_blocks(disk)
    }

    /// `b` is a block of file `i`.
    pub open spec fn owns(self, disk: Map<int, Seq<u8>>, i: int, b: int) -> bool {
        self.blocks(disk, i).contains(b)
    }

    /// The file with inode `i`.
    pub open spec fn file(self, disk: Map<int, Seq<u8>>, i: int) -> FileView {
        let v = self.inode(disk, i);
        FileView { content: v.content(disk), nlink: v.nlink, directory: v.directory }
    }

    /// All files by inode number.
    pub open spec fn files(self, disk: Map<int, Seq<u8>>) -> Map<int, FileView> {
        Map::new(|i: int| self.live(disk, i), |i: int| self.file(disk, i))
    }

    /// What all inodes hold, also those that are not in use. An inode that has gone out of use keeps
    /// what it holds until it is used again.
    pub open spec fn slots(self, disk: Map<int, Seq<u8>>) -> Map<int, FileView> {
        Map::new(|i: int| self.slot(i), |i: int| self.file(disk, i))
    }

    /// File `i` is in order, its blocks are data blocks in use, and what is left of its last block
    /// is zero if it is a regular file.
    pub open spec fn file_sound(self, disk: Map<int, Seq<u8>>, i: int) -> bool {
        &&& self.inode(disk, i).in_order(disk)
        &&& !self.inode(disk, i).directory ==> zero_from(
            self.inode(disk, i).room(disk),
            self.inode(disk, i).size as int,
        )
        &&& forall|b: int|
            #[trigger] self.owns(disk, i, b) ==> self.is_data(b) && self.taken(
                disk,
                b - self.data_start(),
            )
    }

    /// What every inode holds is sound, no two share a block, and free blocks are zero.
    pub open spec fn sound(self, disk: Map<int, Seq<u8>>) -> bool {
        &&& self.fits(disk)
        &&& forall|i: int| #[trigger] self.slot(i) ==> self.file_sound(disk, i)
        &&& forall|i: int, j: int, b: int|
            self.slot(i) && self.slot(j) && #[trigger] self.owns(disk, i, b)
                && #[trigger] self.owns(disk, j, b) ==> i == j
        &&& self.free_blocks_zero(disk)
    }

    /// Data blocks that are not in use hold zeros.
    pub open spec fn free_blocks_zero(self, disk: Map<int, Seq<u8>>) -> bool {
        forall|b: int|
            self.is_data(b) && !self.taken(disk, b - self.data_start()) ==> zero_from(
                #[trigger] disk[b],
                0,
            )
    }

    /// The data blocks that are not in use.
    pub open spec fn free_data(self, disk: Map<int, Seq<u8>>) -> Set<int> {
        Set::new(|b: int| self.is_data(b) && !self.taken(disk, b - self.data_start()))
    }

    /// The inodes that are not in use.
    pub open spec fn free_inodes(self, disk: Map<int, Seq<u8>>) -> Set<int> {
        Set::new(|i: int| 0 <= i < self.inodes() && !self.live(disk, i))
    }

    /// The free blocks can be counted.
    pub proof fn lemma_free_finite(self, disk: Map<int, Seq<u8>>)
        ensures
            self.free_data(disk).finite(),
            self.free_inodes(disk).finite(),
    {
        if self.data_start() <= self.end() {
            lemma_int_range(self.data_start(), self.end());
            lemma_len_subset(
                self.free_data(disk),
                set_int_range(self.data_start(), self.end()),
            );
        } else {
            assert(self.free_data(disk) =~= Set::empty());
        }
        if 0 <= self.inodes() {
            lemma_int_range(0, self.inodes());
            lemma_len_subset(self.free_inodes(disk), set_int_range(0, self.inodes()));
        } else {
            assert(self.free_inodes(disk) =~= Set::empty());
        }
    }

    /// A file whose inode and whose blocks are as before is as before.
    pub proof fn lemma_same_file(self, disk: Map<int, Seq<u8>>, disk2: Map<int, Seq<u8>>, i: int)
        requires
            disk2.dom() == disk.dom(),
            self.inode(disk2, i) == self.inode(disk, i),
            self.inode(disk, i).in_order(disk),
            forall|b: int| #[trigger] self.owns(disk, i, b) ==> disk2[b] == disk[b],
        ensures
            self.blocks(disk2, i) == self.blocks(disk, i),
            self.inode(disk2, i).in_order(disk2),
            self.file(disk2, i) == self.file(disk, i),
            self.inode(disk2, i).room(disk2) == self.inode(disk, i).room(disk),
    {
        let v = self.inode(disk, i);
        assert forall|b: int| #[trigger] v.all_blocks(disk).contains(b) implies disk2[b]
            == disk[b] by {
            assert(self.owns(disk, i, b));
        }
        self.lemma_same_view(disk, disk2, v);
    }

    /// What happens behind the inodes leaves the inodes alone.
    pub proof fn lemma_outside_inodes(self, disk: Map<int, Seq<u8>>, disk2: Map<int, Seq<u8>>)
        requires
            self.fits(disk),
            forall|b: int|
                0 <= b < self.data_bitmap_start() ==> #[trigger] disk2[b] == disk[b],
        ensures
            forall|i: int| #[trigger] self.live(disk2, i) == self.live(disk, i),
            forall|i: int|
                0 <= i < self.inodes() ==> #[trigger] self.inode(disk2, i) == self.inode(disk, i),
    {
    }

    /// When the disk changes in what one inode holds, the file system stays sound and what the others
    /// hold stays as it is. The one inode may come into use or go out of use.
    pub proof fn lemma_change_one(
        self,
        disk: Map<int, Seq<u8>>,
        disk2: Map<int, Seq<u8>>,
        i: int,
    )
        requires
            self.sound(disk),
            disk2.dom() == disk.dom(),
            disk2[0] == disk[0],
            forall|j: int| j != i ==> #[trigger] self.live(disk2, j) == self.live(disk, j),
            forall|j: int|
                j != i && #[trigger] self.slot(j) ==> self.inode(disk2, j) == self.inode(disk, j),
            // blocks of others are untouched and stay in use
            forall|j: int, b: int|
                j != i && self.slot(j) && #[trigger] self.owns(disk, j, b) ==> disk2[b] == disk[b]
                    && self.taken(disk2, b - self.data_start()),
            self.free_blocks_zero(disk2),
            // what the inode has now was its own or was free
            self.slot(i) ==> self.file_sound(disk2, i),
            forall|b: int|
                self.slot(i) && #[trigger] self.owns(disk2, i, b) ==> self.owns(disk, i, b)
                    || !self.taken(disk, b - self.data_start()),
        ensures
            self.sound(disk2),
            forall|j: int|
                j != i && #[trigger] self.slot(j) ==> self.file(disk2, j) == self.file(disk, j),
            forall|j: int|
                j != i && self.slot(j) ==> #[trigger] self.blocks(disk2, j) == self.blocks(
                    disk,
                    j,
                ),
            self.slot(i) ==> self.slots(disk2) == self.slots(disk).insert(i, self.file(disk2, i)),
            !self.slot(i) ==> self.slots(disk2) == self.slots(disk),
            self.live(disk2, i) ==> self.files(disk2) == self.files(disk).insert(
                i,
                self.file(disk2, i),
            ),
            !self.live(disk2, i) ==> self.files(disk2) == self.files(disk).remove(i),
    {
        assert forall|j: int| j != i && #[trigger] self.slot(j) implies {
            &&& self.blocks(disk2, j) == self.blocks(disk, j)
            &&& self.file_sound(disk2, j)
            &&& self.file(disk2, j) == self.file(disk, j)
        } by {
            assert(self.file_sound(disk, j));
            self.lemma_same_file(disk, disk2, j);
            assert forall|b: int| #[trigger] self.owns(disk2, j, b) implies self.is_data(b)
                && self.taken(disk2, b - self.data_start()) by {
                assert(self.owns(disk, j, b));
            }
        }
        assert forall|a: int, c: int, b: int|
            self.slot(a) && self.slot(c) && #[trigger] self.owns(disk2, a, b)
                && #[trigger] self.owns(disk2, c, b) implies a == c by {
            if a != c {
                if a != i {
                    assert(self.owns(disk, a, b));
                    assert(self.file_sound(disk, a));
                    assert(self.taken(disk, b - self.data_start()));
                }
                if c != i {
                    assert(self.owns(disk, c, b));
                    assert(self.file_sound(disk, c));
                    assert(self.taken(disk, b - self.data_start()));
                }
            }
        }
        if self.slot(i) {
            assert(self.slots(disk2) =~= self.slots(disk).insert(i, self.file(disk2, i)));
        } else {
            assert(self.slots(disk2) =~= self.slots(disk));
        }
        if self.live(disk2, i) {
            assert(self.files(disk2) =~= self.files(disk).insert(i, self.file(disk2, i)));
        } else {
            assert(self.files(disk2) =~= self.files(disk).remove(i));
        }
        assert(self.fits(disk2));
    }

    /// The disk has changed only in what belongs to file `i`, whose inode is to be `v2`; the inode
    /// on the disk is still the old one.
    pub open spec fn changing(
        self,
        disk: Map<int, Seq<u8>>,
        disk2: Map<int, Seq<u8>>,
        i: int,
        v2: InodeView,
    ) -> bool {
        &&& disk2.dom() == disk.dom()
        &&& forall|b: int| 0 <= b < self.data_bitmap_start() ==> #[trigger] disk2[b] == disk[b]
        &&& forall|b: int|
            self.is_data(b) && #[trigger] self.taken(disk, b - self.data_start()) ==> self.taken(
                disk2,
                b - self.data_start(),
            )
        &&& forall|b: int|
            self.is_data(b) && self.taken(disk, b - self.data_start()) && !self.owns(disk, i, b)
                ==> #[trigger] disk2[b] == disk[b]
        &&& self.free_blocks_zero(disk2)
        &&& v2.in_order(disk2)
        &&& !v2.directory ==> zero_from(v2.room(disk2), v2.size as int)
        &&& forall|b: int|
            #[trigger] v2.all_blocks(disk2).contains(b) ==> {
                &&& self.is_data(b)
                &&& self.taken(disk2, b - self.data_start())
                &&& self.owns(disk, i, b) || !self.taken(disk, b - self.data_start())
            }
    }

    /// A change of one file is complete when its inode is stored.
    pub proof fn lemma_stored(
        self,
        disk: Map<int, Seq<u8>>,
        disk2: Map<int, Seq<u8>>,
        disk3: Map<int, Seq<u8>>,
        i: int,
        v2: InodeView,
    )
        requires
            self.sound(disk),
            self.slot(i),
            self.changing(disk, disk2, i, v2),
            disk3 == disk2.insert(self.inode_start() + i / 4, disk3[self.inode_start() + i / 4]),
            disk2.dom().contains(self.inode_start() + i / 4),
            disk2[self.inode_start() + i / 4].len() == 512,
            same_outside(
                disk2[self.inode_start() + i / 4],
                disk3[self.inode_start() + i / 4],
                i % 4 * 128,
                i % 4 * 128 + 128,
            ),
            self.inode(disk3, i) == v2,
        ensures
            self.sound(disk3),
            ({
                let f = FileView {
                    content: v2.content(disk2),
                    nlink: v2.nlink,
                    directory: v2.directory,
                };
                &&& self.slots(disk3) == self.slots(disk).insert(i, f)
                &&& self.files(disk3) == (if self.live(disk, i) {
                    self.files(disk).insert(i, f)
                } else {
                    self.files(disk)
                })
            }),
            self.free_data(disk3) == self.free_data(disk2),
            self.free_inodes(disk3) == self.free_inodes(disk),
            self.blocks(disk3, i) == v2.all_blocks(disk2),
            forall|j: int|
                j != i && self.slot(j) ==> #[trigger] self.blocks(disk3, j) == self.blocks(
                    disk,
                    j,
                ),
            forall|j: int| #[trigger] self.live(disk3, j) == self.live(disk, j),
    {
        let b0 = self.inode_start() + i / 4;
        assert(disk3.dom() =~= disk.dom());
        assert forall|j: int| #[trigger] self.live(disk3, j) == self.live(disk, j) by {}
        assert forall|j: int| j != i && #[trigger] self.slot(j) implies self.inode(disk3, j)
            == self.inode(disk, j) by {
            if j / 4 == i / 4 {
                assert(disk3[b0].subrange(j % 4 * 128, j % 4 * 128 + 128) =~= disk[b0].subrange(
                    j % 4 * 128,
                    j % 4 * 128 + 128,
                ));
            }
        }
        self.lemma_same_view(disk2, disk3, v2);
        assert(self.free_data(disk3) =~= self.free_data(disk2));
        assert(self.free_inodes(disk3) =~= self.free_inodes(disk));
        assert forall|j: int, b: int|
            j != i && self.slot(j) && #[trigger] self.owns(disk, j, b) implies disk3[b]
            == disk[b] && self.taken(disk3, b - self.data_start()) by {
            assert(self.file_sound(disk, j));
            assert(self.taken(disk, b - self.data_start()));
            assert(!self.owns(disk, i, b));
        }
        assert forall|b: int| #[trigger] self.owns(disk3, i, b) implies self.is_data(b)
            && self.taken(disk3, b - self.data_start()) && (self.owns(disk, i, b) || !self.taken(
            disk,
            b - self.data_start(),
        )) by {
            assert(v2.all_blocks(disk2).contains(b));
        }
        self.lemma_change_one(disk, disk3, i);
        if !self.live(disk, i) {
            assert(self.files(disk).remove(i) =~= self.files(disk));
        }
    }

    /// An inode is read alike on two disks that agree on its blocks.
    pub proof fn lemma_same_view(
        self,
        disk: Map<int, Seq<u8>>,
        disk2: Map<int, Seq<u8>>,
        v: InodeView,
    )
        requires
            disk2.dom() == disk.dom(),
            v.in_order(disk),
            forall|b: int| #[trigger] v.all_blocks(disk).contains(b) ==> disk2[b] == disk[b],
        ensures
            v.all_blocks(disk2) == v.all_blocks(disk),
            v.in_order(disk2),
            v.content(disk2) == v.content(disk),
            v.room(disk2) == v.room(disk),
    {
        let n = data_count(v.size as int);
        let all = v.all_blocks(disk);
        assert forall|p: int|
            0 <= p < all.len() && is_index_position(p) implies disk2[#[trigger] v.blocks(
            disk,
            n,
        )[p]] == disk[v.blocks(disk, n)[p]] by {
            assert(all[p] == v.blocks(disk, n)[p]);
            assert(all.contains(all[p]));
        }
        lemma_same_index(v, disk, disk2, n);
        lemma_positions(v, disk, n);
        let c = v.room(disk);
        let c2 = v.room(disk2);
        assert forall|q: int| 0 <= q < 512 * n implies c2[q] == #[trigger] c[q] by {
            let k = q / 512;
            let p = data_position(k);
            assert(0 <= k < n);
            assert(all[p] == v.block_of(disk, k));
            assert(all.contains(all[p]));
            assert(v.block_of(disk2, k) == v.block_of(disk, k));
        }
        assert(c2 =~= c);
        lemma_content_of_room(v, disk);
        lemma_content_of_room(v, disk2);
    }

    /// A fresh inode, with its bit set and an empty file in it, adds an empty file.
    pub proof fn lemma_new_file(
        self,
        disk: Map<int, Seq<u8>>,
        disk1: Map<int, Seq<u8>>,
        disk2: Map<int, Seq<u8>>,
        id: int,
        v: InodeView,
    )
        requires
            self.sound(disk),
            0 <= id < self.inodes(),
            !self.live(disk, id),
            disk1.dom() == disk.dom(),
            forall|b: int| !(1 <= b < self.inode_start()) ==> #[trigger] disk1[b] == disk[b],
            forall|i: int| #[trigger] self.live(disk1, i) == (i == id || self.live(disk, i)),
            disk1[self.inode_start() + id / 4].len() == 512,
            disk2 == disk1.insert(
                self.inode_start() + id / 4,
                disk2[self.inode_start() + id / 4],
            ),
            disk1.dom().contains(self.inode_start() + id / 4),
            same_outside(
                disk1[self.inode_start() + id / 4],
                disk2[self.inode_start() + id / 4],
                id % 4 * 128,
                id % 4 * 128 + 128,
            ),
            self.inode(disk2, id) == v,
            v.size == 0,
            v.direct.len() == 28,
        ensures
            self.sound(disk2),
            forall|i: int| #[trigger] self.live(disk2, i) == (i == id || self.live(disk, i)),
            self.slots(disk2) == self.slots(disk).insert(
                id,
                (FileView { content: Seq::empty(), nlink: v.nlink, directory: v.directory }),
            ),
            self.files(disk2) == self.files(disk).insert(
                id,
                (FileView { content: Seq::empty(), nlink: v.nlink, directory: v.directory }),
            ),
            self.free_data(disk2) == self.free_data(disk),
            self.free_inodes(disk2) == self.free_inodes(disk).remove(id),
    {
        let b0 = self.inode_start() + id / 4;
        assert(disk2.dom() =~= disk.dom());
        assert forall|i: int| #[trigger] self.live(disk2, i) == (i == id || self.live(disk, i)) by {
            assert(self.live(disk2, i) == self.live(disk1, i));
        }
        assert forall|j: int| j != id && #[trigger] self.slot(j) implies self.inode(disk2, j)
            == self.inode(disk, j) by {
            if j / 4 == id / 4 {
                assert(disk2[b0].subrange(j % 4 * 128, j % 4 * 128 + 128) =~= disk[b0].subrange(
                    j % 4 * 128,
                    j % 4 * 128 + 128,
                ));
            }
        }
        assert(self.free_data(disk2) =~= self.free_data(disk));
        assert(self.free_inodes(disk2) =~= self.free_inodes(disk).remove(id));
        assert(v.all_blocks(disk2) =~= Seq::empty());
        assert(v.content(disk2) =~= Seq::empty());
        assert forall|b: int| self.is_data(b) implies #[trigger] disk2[b] == disk[b] by {}
        assert forall|j: int, b: int|
            j != id && self.slot(j) && #[trigger] self.owns(disk, j, b) implies disk2[b]
            == disk[b] && self.taken(disk2, b - self.data_start()) by {
            assert(self.file_sound(disk, j));
        }
        assert(self.file_sound(disk2, id));
        self.lemma_change_one(disk, disk2, id);
    }
}

} // verus!
