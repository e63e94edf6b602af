//! Whether a file can be made, linked or written.

use vstd::prelude::*;
use vstd::string::StringSliceAdditionalSpecFns;

use super::inode::{can_create, can_link, rooted, OSInode};
use crate::easy_fs::block_dev::BlockDevice;
use crate::easy_fs::efs::EasyFileSystem;
use crate::easy_fs::layout::{blocks_for, good_name, DiskInode, MAX_FILE_SIZE, NAME_LENGTH_LIMIT};
use crate::easy_fs::vfs::Inode;

verus! {

/// Whether a name can stand in a directory.
pub fn is_good_name(name: &str) -> (r: bool)
    ensures
        r == good_name(name.spec_bytes()),
{
    let bytes: &[u8] = name.as_bytes();
    if bytes.len() > NAME_LENGTH_LIMIT {
        return false;
    }
    let mut i: usize = 0;
    while i < bytes.len()
        invariant
            i <= bytes@.len(),
            bytes@ == name.spec_bytes(),
            forall|j: int| 0 <= j < i ==> #[trigger] bytes@[j] != 0,
        decreases bytes@.len() - i,
    {
        if bytes[i] == 0 {
            return false;
        }
        i += 1;
    }
    true
}

/// Whether the root directory has room for one entry more.
pub fn takes_entry<D: BlockDevice>(fs: &mut EasyFileSystem<D>) -> (r: bool)
    requires
        rooted(old(fs)),
    ensures
        rooted(final(fs)),
        final(fs).same_shape(old(fs)),
        final(fs).disk() == old(fs).disk(),
        r == old(fs).can_take_entry(),
{
    let root: Inode = fs.root_inode();
    let size: u32 = root.size(fs);
    if size + 32 > MAX_FILE_SIZE as u32 {
        return false;
    }
    let more: u32 = DiskInode::total_blocks(size + 32);
    let now: u32 = DiskInode::total_blocks(size);
    let free: u32 = fs.free_block_count();
    more as u64 <= now as u64 + free as u64
}

/// Whether a file of that name can be made.
pub fn is_creatable<D: BlockDevice>(name: &str, fs: &mut EasyFileSystem<D>) -> (r: bool)
    requires
        rooted(old(fs)),
    ensures
        rooted(final(fs)),
        final(fs).same_shape(old(fs)),
        final(fs).disk() == old(fs).disk(),
        r == can_create(old(fs), name.spec_bytes()),
{
    is_good_name(name) && takes_entry(fs) && fs.has_free_inode()
}

/// Whether there is nothing against giving the file `old_name` the name `new_name` too.
pub fn is_linkable<D: BlockDevice>(
    old_name: &str,
    new_name: &str,
    fs: &mut EasyFileSystem<D>,
) -> (r: bool)
    requires
        rooted(old(fs)),
    ensures
        rooted(final(fs)),
        final(fs).same_shape(old(fs)),
        final(fs).disk() == old(fs).disk(),
        r == can_link(old(fs), old_name.spec_bytes(), new_name.spec_bytes()),
{
    let root: Inode = fs.root_inode();
    match root.find(old_name, fs) {
        Some(inode) => {
            if root.find(new_name, fs).is_some() {
                return true;
            }
            let (_mode, nlink) = inode.stat(fs);
            is_good_name(new_name) && takes_entry(fs) && nlink < 255
        },
        None => true,
    }
}

/// Whether `len` bytes can be written at the place of an open file.
pub fn is_writable<D: BlockDevice>(file: &OSInode, len: u64, fs: &mut EasyFileSystem<D>) -> (r: bool)
    requires
        rooted(old(fs)),
        file.inode.valid(old(fs)),
    ensures
        rooted(final(fs)),
        final(fs).same_shape(old(fs)),
        final(fs).disk() == old(fs).disk(),
        r == file_takes(file, len as int, old(fs)),
{
    let (mode, _nlink) = file.inode.stat(fs);
    if mode == 1 {
        return false;
    }
    let limit: u64 = MAX_FILE_SIZE as u64;
    if file.offset as u64 > limit || len > limit - file.offset as u64 {
        return false;
    }
    let end: u32 = (file.offset as u64 + len) as u32;
    let size: u32 = file.inode.size(fs);
    let more: u32 = DiskInode::total_blocks(end);
    let now: u32 = DiskInode::total_blocks(size);
    let free: u32 = fs.free_block_count();
    more as u64 <= now as u64 + free as u64
}

/// `len` bytes can be written at the place of an open file: it is a regular file and stays small
/// enough, and there is room on the disk.
pub open spec fn file_takes<D: BlockDevice>(
    file: &OSInode,
    len: int,
    fs: &EasyFileSystem<D>,
) -> bool {
    let f = file.file(fs);
    &&& !f.directory
    &&& file.offset + len <= MAX_FILE_SIZE
    &&& blocks_for(file.offset + len) - blocks_for(f.content.len() as int) <= fs.free_blocks()
}

} // verus!
