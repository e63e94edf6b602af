//! What open files and names mean together.

use vstd::prelude::*;
use vstd::string::StringSliceAdditionalSpecFns;

use super::guard::{is_creatable, is_writable};
use super::inode::{
    created, file_named, lemma_named, linked, rooted, unlinked, OSInode, OpenFlags, OPEN_CREATE,
    OPEN_TRUNC,
};
use crate::easy_fs::block_dev::BlockDevice;
use crate::easy_fs::dir::{content_without, entries, lemma_position_found, position};
use crate::easy_fs::efs::EasyFileSystem;
use crate::easy_fs::laws::{law_new_name_is_found, law_removed_name_is_gone};
use crate::easy_fs::layout::blocks_for;

verus! {

/// A file that is open when it loses its last name can still be used. It is empty then.
pub proof fn law_open_file_outlives_its_names<D: BlockDevice>(
    fs: &EasyFileSystem<D>,
    fs2: &EasyFileSystem<D>,
    name: Seq<u8>,
    file: &OSInode,
)
    requires
        rooted(fs),
        fs2.same_shape(fs),
        file.inode.valid(fs),
        file_named(fs, name) == Some(file.inode.number(fs.division())),
        file.file(fs).nlink == 1,
        unlinked(fs, fs2, name),
    ensures
        file.inode.valid(fs2),
        file.file(fs2).content == Seq::<u8>::empty(),
        file.file(fs2).nlink == 0,
{
    lemma_named(fs.files(), name);
    lemma_position_found(entries(fs.files()[0].content), name);
}

/// Other open files hold what they held when a file loses a name.
pub proof fn law_other_open_files_keep_their_content<D: BlockDevice>(
    fs: &EasyFileSystem<D>,
    fs2: &EasyFileSystem<D>,
    name: Seq<u8>,
    file: &OSInode,
)
    requires
        rooted(fs),
        fs2.same_shape(fs),
        file.inode.valid(fs),
        file.inode.number(fs.division()) != 0,
        file_named(fs, name) is Some,
        file_named(fs, name) != Some(file.inode.number(fs.division())),
        unlinked(fs, fs2, name),
    ensures
        file.inode.valid(fs2),
        file.file(fs2) == file.file(fs),
{
    lemma_position_found(entries(fs.files()[0].content), name);
}

/// A file that was made is found under its name: it is empty, it is no directory, and it has one link.
/// Every other name stands for what it stood for, and every other file is as it was.
pub proof fn law_made_file_is_found<D: BlockDevice>(
    fs: &EasyFileSystem<D>,
    fs2: &EasyFileSystem<D>,
    name: Seq<u8>,
    id: int,
)
    requires
        rooted(fs),
        file_named(fs, name) is None,
        created(fs, fs2, name, id),
    ensures
        file_named(fs2, name) == Some(id),
        id != 0,
        !fs.files().dom().contains(id),
        fs2.files().dom() == fs.files().dom().insert(id),
        fs2.files()[id].content == Seq::<u8>::empty(),
        fs2.files()[id].nlink == 1,
        !fs2.files()[id].directory,
        forall|other: Seq<u8>|
            other != name ==> #[trigger] file_named(fs2, other) == file_named(fs, other),
        forall|j: int| #[trigger]
            fs.files().dom().contains(j) && j != 0 ==> fs2.files()[j] == fs.files()[j],
{
    let es = entries(fs.files()[0].content);
    assert(fs.files().dom().contains(0));
    assert(fs.live(0));
    assert(fs2.files().dom() =~= fs.files().dom().insert(id));
    assert(name + seq![1u8] != name) by {
        assert((name + seq![1u8]).len() != name.len());
    }
    law_new_name_is_found(es, name, id, name + seq![1u8]);
    assert forall|other: Seq<u8>| other != name implies #[trigger] file_named(fs2, other)
        == file_named(fs, other) by {
        law_new_name_is_found(es, name, id, other);
    }
}

/// A file that got another name is found under that name too. It holds what it held, and has one link
/// more. Every other name stands for what it stood for, and every other file is as it was.
pub proof fn law_linked_file_is_found<D: BlockDevice>(
    fs: &EasyFileSystem<D>,
    fs2: &EasyFileSystem<D>,
    name: Seq<u8>,
    id: int,
)
    requires
        rooted(fs),
        file_named(fs, name) is None,
        fs.files().dom().contains(id),
        id != 0,
        fs.files()[id].nlink < 255,
        linked(fs, fs2, name, id),
    ensures
        file_named(fs2, name) == Some(id),
        fs2.files().dom() == fs.files().dom(),
        fs2.files()[id].content == fs.files()[id].content,
        fs2.files()[id].nlink == fs.files()[id].nlink + 1,
        fs2.files()[id].directory == fs.files()[id].directory,
        forall|other: Seq<u8>|
            other != name ==> #[trigger] file_named(fs2, other) == file_named(fs, other),
        forall|j: int| #[trigger]
            fs.files().dom().contains(j) && j != 0 && j != id ==> fs2.files()[j] == fs.files()[j],
{
    let es = entries(fs.files()[0].content);
    assert(fs.files().dom().contains(0));
    assert(fs2.files().dom() =~= fs.files().dom());
    assert(name + seq![1u8] != name) by {
        assert((name + seq![1u8]).len() != name.len());
    }
    law_new_name_is_found(es, name, id, name + seq![1u8]);
    assert forall|other: Seq<u8>| other != name implies #[trigger] file_named(fs2, other)
        == file_named(fs, other) by {
        law_new_name_is_found(es, name, id, other);
    }
}

/// A name that was taken away stands for nothing. The file behind it has one link less and holds what
/// it held; with its last name it is gone. Every other name stands for what it stood for, and
/// every other file is as it was.
pub proof fn law_unlinked_name_is_gone<D: BlockDevice>(
    fs: &EasyFileSystem<D>,
    fs2: &EasyFileSystem<D>,
    name: Seq<u8>,
    id: int,
)
    requires
        rooted(fs),
        file_named(fs, name) == Some(id),
        unlinked(fs, fs2, name),
    ensures
        file_named(fs2, name) is None,
        fs.files()[id].nlink > 1 ==> {
            &&& fs2.files().dom() == fs.files().dom()
            &&& fs2.files()[id].nlink == fs.files()[id].nlink - 1
            &&& fs2.files()[id].content == fs.files()[id].content
        },
        fs.files()[id].nlink <= 1 ==> fs2.files().dom() == fs.files().dom().remove(id),
        forall|other: Seq<u8>|
            other != name ==> #[trigger] file_named(fs2, other) == file_named(fs, other),
        forall|j: int| #[trigger]
            fs.files().dom().contains(j) && j != 0 && j != id ==> fs2.files()[j] == fs.files()[j],
{
    let files = fs.files();
    let es = entries(files[0].content);
    lemma_position_found(es, name);
    lemma_named(files, name);
    assert(files.dom().contains(0));
    assert(fs2.files()[0].content == content_without(files[0].content, position(es, name)));
    if files[id].nlink > 1 {
        assert(fs2.files().dom() =~= files.dom());
    } else {
        assert(fs2.files().dom() =~= files.dom().remove(id));
    }
    assert(name + seq![1u8] != name) by {
        assert((name + seq![1u8]).len() != name.len());
    }
    law_removed_name_is_gone(files, name, name + seq![1u8]);
    assert forall|other: Seq<u8>| other != name implies #[trigger] file_named(fs2, other)
        == file_named(fs, other) by {
        law_removed_name_is_gone(files, name, other);
    }
}

/// How a file can be used that is opened with some flags: it can be read unless the lowest bit is set,
/// and it can be written if any bit is set.
pub proof fn law_flags_grant_access(flags: OpenFlags)
    ensures
        flags.access().0 == (flags.bits % 2 == 0),
        flags.access().1 == (flags.bits != 0),
        flags.has(OPEN_CREATE) == (flags.bits / 0x200 % 2 == 1),
        flags.has(OPEN_TRUNC) == (flags.bits / 0x400 % 2 == 1),
        flags.bits & !0x603u32 == 0 <==> flags.bits < 0x800 && flags.bits / 4 % 128 == 0,
{
    let bits = flags.bits;
    assert((bits & 1 == 1) == (bits % 2 == 1)) by (bit_vector);
    assert((bits & 0x200 == 0x200) == (bits / 0x200 % 2 == 1)) by (bit_vector);
    assert((bits & 0x400 == 0x400) == (bits / 0x400 % 2 == 1)) by (bit_vector);
    assert(bits & !0x603u32 == 0 <==> bits < 0x800 && bits / 4 % 128 == 0) by (bit_vector);
}

/// When another file can be made: its name has at most 27 bytes and no zero among them, an inode is
/// free, and the root directory can grow by the 32 bytes of an entry, for which there are blocks.
pub proof fn law_when_a_file_can_be_made<D: BlockDevice>(
    fs0: EasyFileSystem<D>,
    fs1: EasyFileSystem<D>,
    name: &str,
    r: bool,
)
    requires
        exists|fs: &mut EasyFileSystem<D>| #[trigger]
            call_ensures(is_creatable::<D>, (name, fs), r) && *fs == fs0 && *final(fs) == fs1,
    ensures
        ({
            let size = fs0.files()[0].content.len() as int;
            r == (name.spec_bytes().len() <= 27 && !name.spec_bytes().contains(0) && fs0.free_inodes() > 0
                && size + 32 <= 8468480 && blocks_for(size + 32) - blocks_for(size)
                <= fs0.free_blocks())
        }),
        fs1.files() == fs0.files(),
{
    let b = name.spec_bytes();
    if b.contains(0) {
        let i = b.index_of(0);
        assert(b[i] == 0);
    }
    if exists|i: int| 0 <= i < b.len() && b[i] == 0 {
        assert(b.contains(0));
    }
}

/// When so many bytes can be written to an open file: it is no directory, it does not get longer than the
/// longest file, and there are blocks for it.
pub proof fn law_when_a_file_can_be_written<D: BlockDevice>(
    fs0: EasyFileSystem<D>,
    fs1: EasyFileSystem<D>,
    file: &OSInode,
    len: u64,
    r: bool,
)
    requires
        exists|fs: &mut EasyFileSystem<D>| #[trigger]
            call_ensures(is_writable::<D>, (file, len, fs), r) && *fs == fs0 && *final(fs) == fs1,
    ensures
        ({
            let f = fs0.slots()[file.inode.number(fs0.division())];
            r == (!f.directory && file.offset + len <= 8468480 && blocks_for(file.offset + len)
                - blocks_for(f.content.len() as int) <= fs0.free_blocks())
        }),
        fs1.files() == fs0.files(),
{
}

} // verus!
