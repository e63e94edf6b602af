//! What the requests of processes about files mean. Each law speaks of a call that took the kernel from
//! `k0` to `k1`.

use vstd::bytes::{lemma_auto_spec_u64_to_from_le_bytes, spec_u64_to_le_bytes};
use vstd::prelude::*;
use vstd::utf8::{encode_utf8, valid_utf8};

use super::files::{
    can_read, chunk, file_of, open_file_of, read_key, shows, stat_bytes, sys_close, sys_fstat,
    sys_linkat, sys_open, sys_read, sys_unlinkat, sys_write, zeros, ReadStep, WriteStep,
};
use super::laws::number_at;
use super::process::{active, cur};
use crate::bytes::u32_bytes;
use crate::easy_fs::block_dev::BlockDevice;
use crate::fs::file::FileRef;
use crate::fs::inode::{file_named, lemma_named, read_part, OpenFlags};
use crate::fs::laws::{
    law_flags_grant_access, law_linked_file_is_found, law_made_file_is_found,
    law_unlinked_name_is_gone,
};
use crate::fs::stdio::StdinStep;
use crate::kernel::state::Kernel;
use crate::kernel::user::{
    buffer_cells, buffer_ok, framed, law_process_finds_what_was_put, name_at,
};
use crate::mm::address::va_of;
use crate::mm::user::{bytes_at, is_text, run_count, run_start, shorter, user_byte};
use crate::task::task::{free_fd, TaskStatus};

verus! {

/// The name at an address of the process that runs.
pub open spec fn name_of<D: BlockDevice>(k: &Kernel<D>, ptr: u64) -> Seq<u8> {
    name_at(&k.space(cur(k)), &k.shared.memory, ptr)
}

/// What descriptor `fd` is before and after a file was opened.
proof fn lemma_lowest(table: Seq<Option<FileRef>>)
    ensures
        0 <= free_fd(table) <= table.len(),
        forall|i: int| 0 <= i < free_fd(table) ==> (#[trigger] table[i]) is Some,
        free_fd(table) < table.len() ==> table[free_fd(table)] is None,
    decreases table.len(),
{
    if table.len() > 0 && table[0] is Some {
        let t = table.drop_first();
        lemma_lowest(t);
        assert forall|i: int| 0 <= i < free_fd(table) implies (#[trigger] table[i]) is Some by {
            if i > 0 {
                assert(t[i - 1] == table[i]);
            }
        }
    }
}

/// To open a file. A flag that there is not is refused with -1, and so is a file that is not there,
/// unless bit 9 says that it is to be made; nothing changes then. Otherwise the lowest descriptor that
/// was not in use stands for the file, from its beginning on. The file can be read unless bit 0 is
/// set, and written if any bit is. With bit 9 or bit 10 it is empty; otherwise it holds what it held.
/// All other files and descriptors are as before.
#[verifier::rlimit(40)]
pub proof fn law_open<D: BlockDevice>(k0: Kernel<D>, k1: Kernel<D>, path: u64, flags: u32, r: i64)
    requires
        exists|k: &mut Kernel<D>| #[trigger]
            call_ensures(sys_open::<D>, (path, flags, k), r) && *k == k0 && *final(k) == k1,
        active(&k0),
        k0.inner(cur(&k0)).fd_table@.len() < i64::MAX,
        k0.open_files@.len() < usize::MAX,
    ensures
        ({
            let name = name_of(&k0, path);
            let known = flags < 0x800 && flags / 4 % 128 == 0;
            let make = flags / 0x200 % 2 == 1;
            let empty = make || flags / 0x400 % 2 == 1;
            let table0 = k0.inner(cur(&k0)).fd_table@;
            let table1 = k1.inner(cur(&k0)).fd_table@;
            let h = k0.open_files@.len() as usize;
            let file = k1.open_files@[h as int];
            &&& !known || file_named(&k0.fs, name) is None && !make ==> {
                &&& r == -1
                &&& k1.tasks@ == k0.tasks@
                &&& k1.open_files == k0.open_files
                &&& k1.fs.files() == k0.fs.files()
            }
            &&& known && (file_named(&k0.fs, name) is Some || make) ==> {
                &&& 0 <= r <= table0.len()
                &&& forall|i: int| 0 <= i < r ==> (#[trigger] table0[i]) is Some
                &&& r < table0.len() ==> table0[r as int] is None
                &&& table1[r as int] == Some(FileRef::Inode(h))
                &&& forall|i: int|
                    0 <= i < table0.len() && i != r ==> #[trigger] table1[i] == table0[i]
                &&& k1.open_files@.len() == h + 1
                &&& forall|i: int| 0 <= i < h ==> #[trigger] k1.open_files@[i] == k0.open_files@[i]
                &&& file.offset == 0
                &&& file.readable == (flags % 2 == 0)
                &&& file.writable == (flags != 0)
                &&& file_named(&k1.fs, name) == Some(file.inode.number(k1.fs.division()))
                &&& file_named(&k0.fs, name) matches Some(id) ==> {
                    &&& file.inode.number(k1.fs.division()) == id
                    &&& k1.fs.files().dom() == k0.fs.files().dom()
                    &&& k1.fs.files()[id].content == (if empty {
                        Seq::<u8>::empty()
                    } else {
                        k0.fs.files()[id].content
                    })
                    &&& k1.fs.files()[id].nlink == k0.fs.files()[id].nlink
                    &&& forall|j: int| #[trigger]
                        k0.fs.files().dom().contains(j) && j != id ==> k1.fs.files()[j]
                            == k0.fs.files()[j]
                }
                &&& file_named(&k0.fs, name) is None ==> {
                    let id = file.inode.number(k1.fs.division());
                    &&& !k0.fs.files().dom().contains(id)
                    &&& k1.fs.files().dom() == k0.fs.files().dom().insert(id)
                    &&& k1.fs.files()[id].content == Seq::<u8>::empty()
                    &&& k1.fs.files()[id].nlink == 1
                    &&& !k1.fs.files()[id].directory
                    &&& forall|other: Seq<u8>|
                        other != name ==> #[trigger] file_named(&k1.fs, other) == file_named(
                            &k0.fs,
                            other,
                        )
                    &&& forall|j: int| #[trigger]
                        k0.fs.files().dom().contains(j) && j != 0 ==> k1.fs.files()[j]
                            == k0.fs.files()[j]
                }
            }
        }),
{
    let me = cur(&k0);
    assert(k0.has(me));
    let name = name_of(&k0, path);
    let table0 = k0.inner(me).fd_table@;
    let h = k0.open_files@.len() as int;
    let file = k1.open_files@[h];
    law_flags_grant_access(OpenFlags { bits: flags });
    lemma_lowest(table0);
    lemma_named(k0.fs.files(), name);
    match file_named(&k0.fs, name) {
        Some(id) => {
            assert(k0.fs.files().dom().contains(id) && id != 0);
            if flags & !0x603u32 == 0 && (flags / 0x200 % 2 == 1 || flags / 0x400 % 2 == 1) {
                assert(k1.fs.files().dom() =~= k0.fs.files().dom());
                assert(k1.fs.files()[0] == k0.fs.files()[0]);
            }
        },
        None => {
            if flags & !0x603u32 == 0 && flags / 0x200 % 2 == 1 {
                law_made_file_is_found(
                    &k0.fs,
                    &k1.fs,
                    name,
                    file.inode.number(k1.fs.division()),
                );
            }
        },
    }
}

/// To close a descriptor. One that is in use is not in use afterwards, and 0 is returned; for any other
/// number -1. All other descriptors stand for what they stood for.
pub proof fn law_close<D: BlockDevice>(k0: Kernel<D>, k1: Kernel<D>, fd: usize, r: i64)
    requires
        exists|k: &mut Kernel<D>| #[trigger]
            call_ensures(sys_close::<D>, (fd, k), r) && *k == k0 && *final(k) == k1,
        active(&k0),
    ensures
        ({
            let table0 = k0.inner(cur(&k0)).fd_table@;
            let table1 = k1.inner(cur(&k0)).fd_table@;
            let used = fd < table0.len() && table0[fd as int] is Some;
            &&& r == (if used {
                0int
            } else {
                -1
            })
            &&& table1.len() == table0.len()
            &&& used ==> table1[fd as int] is None
            &&& forall|i: int| 0 <= i < table0.len() && i != fd ==> #[trigger] table1[i] == table0[i]
            &&& k1.fs == k0.fs
            &&& k1.open_files == k0.open_files
        }),
{
    assert(k0.has(cur(&k0)));
}

/// To read from a file: as many bytes as were asked for, as far as the file goes, and the next read
/// goes on behind them. They are the bytes of the file from the place on at which the last read or
/// write ended. Nothing else in the memory of the process changes, and no file does. A descriptor that
/// is not in use or cannot be read gives -1.
#[verifier::rlimit(40)]
pub proof fn law_read<D: BlockDevice>(
    k0: Kernel<D>,
    k1: Kernel<D>,
    fd: usize,
    h: usize,
    buf: u64,
    len: u64,
    r: ReadStep,
)
    requires
        exists|k: &mut Kernel<D>| #[trigger]
            call_ensures(sys_read::<D>, (fd, buf, len, k), r) && *k == k0 && *final(k) == k1,
        active(&k0),
        can_read(&k0, fd) ==> buffer_ok(&k0.space(cur(&k0)), buf, len) && len <= i64::MAX,
        file_of(&k0, fd) matches Some(FileRef::Inode(i)) ==> open_file_of(&k0, i).readable
            ==> open_file_of(&k0, i).offset + len <= usize::MAX,
    ensures
        k1.fs.files() == k0.fs.files(),
        ({
            let table = k0.inner(cur(&k0)).fd_table@;
            let root = k0.space(cur(&k0)).root();
            let m0 = k0.shared.memory@;
            let m1 = k1.shared.memory@;
            &&& fd >= table.len() || table[fd as int] is None || table[fd as int] == Some(
                FileRef::Stdout,
            ) ==> r == ReadStep::Done((-1) as i64) && k1.tasks@ == k0.tasks@ && k1.shared
                == k0.shared
            &&& fd < table.len() && table[fd as int] == Some(FileRef::Stdin) ==> r
                == ReadStep::Keyboard && k1.tasks@ == k0.tasks@ && k1.shared == k0.shared
            &&& fd < table.len() && table[fd as int] == Some(FileRef::Inode(h)) ==> {
                    let f0 = k0.open_files@[h as int];
                    let f1 = k1.open_files@[h as int];
                    let content = k0.fs.slots()[f0.inode.number(k0.fs.division())].content;
                    let rest = if f0.offset < content.len() {
                        content.len() - f0.offset
                    } else {
                        0
                    };
                    let n = if len < rest {
                        len as int
                    } else {
                        rest
                    };
                    if f0.readable {
                        &&& r == ReadStep::Done(n as i64)
                        &&& f1.offset == f0.offset + n
                        &&& f1.inode == f0.inode
                        &&& f1.readable == f0.readable
                        &&& f1.writable == f0.writable
                        &&& forall|j: int|
                            0 <= j < n ==> user_byte(m1, root, #[trigger] ((buf + j) as u64))
                                == content[f0.offset + j]
                        &&& forall|va: u64|
                            framed(&k0.space(cur(&k0)), va) && (forall|j: int|
                                0 <= j < n ==> va_of(va) != va_of(#[trigger] ((buf + j) as u64)))
                                ==> #[trigger] user_byte(m1, root, va) == user_byte(m0, root, va)
                    } else {
                        r == ReadStep::Done((-1) as i64) && k1.shared == k0.shared
                            && k1.open_files == k0.open_files
                    }
            }
        }),
{
    let me = cur(&k0);
    assert(k0.has(me));
    if file_of(&k0, fd) == Some(FileRef::Inode(h)) {
        assert(k0.file_ok(k0.inner(me).fd_table@[fd as int]));
        let f0 = open_file_of(&k0, h);
        if f0.readable {
            let content = f0.file(&k0.fs).content;
            let part = read_part(content, f0.offset as int, len as int);
            law_process_finds_what_was_put(
                &k0.space(me),
                &k0.shared.memory,
                &k1.shared.memory,
                buf,
                len,
                part,
                part.len() as int,
            );
            assert forall|j: int| 0 <= j < part.len() implies user_byte(
                k1.shared.memory@,
                k0.space(me).root(),
                #[trigger] ((buf + j) as u64),
            ) == content[f0.offset + j] by {
                assert(part[j] == content[f0.offset + j]);
            }
        }
    }
}

/// To write to a file: all bytes are written, from the place on at which the last read or write ended,
/// and the next write goes on behind them. The file grows if it has to; between its old end and that
/// place there are zeros. Its other bytes stay, and so do all other files and the memory of the
/// process. A descriptor that is not in use or cannot be written gives -1.
#[verifier::rlimit(40)]
pub proof fn law_write<D: BlockDevice>(
    k0: Kernel<D>,
    k1: Kernel<D>,
    fd: usize,
    h: usize,
    buf: u64,
    len: u64,
    r: WriteStep,
)
    requires
        exists|k: &mut Kernel<D>| #[trigger]
            call_ensures(sys_write::<D>, (fd, buf, len, k), r) && *k == k0 && *final(k) == k1,
        active(&k0),
        len <= i64::MAX,
    ensures
        k1.tasks@ == k0.tasks@,
        k1.shared == k0.shared,
        ({
            let table = k0.inner(cur(&k0)).fd_table@;
            let root = k0.space(cur(&k0)).root();
            let m0 = k0.shared.memory@;
            &&& fd >= table.len() || table[fd as int] is None || table[fd as int] == Some(
                FileRef::Stdin,
            ) ==> r == WriteStep::Done((-1) as i64) && k1.fs == k0.fs
            &&& fd < table.len() && table[fd as int] == Some(FileRef::Stdout) ==> !(r is Done)
                && k1.fs == k0.fs
            &&& fd < table.len() && table[fd as int] == Some(FileRef::Inode(h)) ==> {
                    let f0 = k0.open_files@[h as int];
                    let f1 = k1.open_files@[h as int];
                    let id = f0.inode.number(k0.fs.division());
                    let c0 = k0.fs.slots()[id].content;
                    let c1 = k1.fs.slots()[id].content;
                    if f0.writable {
                        &&& r == WriteStep::Done(len as i64)
                        &&& f1.offset as int == (f0.offset + len) as usize
                        &&& f1.inode == f0.inode
                        &&& c1.len() == (if len == 0 || f0.offset + len <= c0.len() {
                            c0.len() as int
                        } else {
                            f0.offset + len
                        })
                        &&& forall|i: int|
                            0 <= i < c1.len() ==> #[trigger] c1[i] == (if f0.offset <= i < f0.offset
                                + len {
                                user_byte(m0, root, (buf + (i - f0.offset)) as u64)
                            } else if i < c0.len() {
                                c0[i]
                            } else {
                                0
                            })
                        &&& k1.fs.slots()[id].nlink == k0.fs.slots()[id].nlink
                        &&& forall|j: int|
                            j != id ==> #[trigger] k1.fs.slots()[j] == k0.fs.slots()[j]
                        &&& forall|j: int| #[trigger]
                            k0.fs.files().dom().contains(j) == k1.fs.files().dom().contains(j)
                    } else {
                        r == WriteStep::Done((-1) as i64) && k1.fs == k0.fs && k1.open_files
                            == k0.open_files
                    }
            }
        }),
{
    let me = cur(&k0);
    assert(k0.has(me));
    if file_of(&k0, fd) == Some(FileRef::Inode(h)) {
        assert(k0.file_ok(k0.inner(me).fd_table@[fd as int]));
        let f0 = open_file_of(&k0, h);
        if f0.writable {
            let id = f0.inode.number(k0.fs.division());
            assert(k0.open_files@[h as int].inode.valid(&k0.fs));
            let data = bytes_at(
                k0.shared.memory@,
                buffer_cells(&k0.space(me), &k0.shared.memory, buf, len),
            );
            let c1 = k1.fs.slots()[id].content;
            assert forall|i: int| 0 <= i < c1.len() && f0.offset <= i < f0.offset + len implies
                #[trigger] c1[i] == user_byte(
                k0.shared.memory@,
                k0.space(me).root(),
                (buf + (i - f0.offset)) as u64,
            ) by {
                assert(data[i - f0.offset] == user_byte(
                    k0.shared.memory@,
                    k0.space(me).root(),
                    (buf + (i - f0.offset)) as u64,
                ));
            }
            assert forall|j: int| #[trigger]
                k0.fs.files().dom().contains(j) == k1.fs.files().dom().contains(j) by {
                assert(k1.fs.live(j) == k0.fs.live(j));
            }
        }
    }
}

/// A key that was typed goes to the one byte that the process waits for. Without a key the process is
/// ready behind all others, and nothing else has changed.
pub proof fn law_key<D: BlockDevice>(k0: Kernel<D>, k1: Kernel<D>, buf: u64, c: u64, r: StdinStep)
    requires
        exists|k: &mut Kernel<D>| #[trigger]
            call_ensures(read_key::<D>, (buf, c, k), r) && *k == k0 && *final(k) == k1,
        active(&k0),
        buffer_ok(&k0.space(cur(&k0)), buf, 1),
    ensures
        ({
            let me = cur(&k0);
            let root = k0.space(me).root();
            &&& c == 0 ==> {
                &&& r == StdinStep::Wait
                &&& k1.inner(me).task_status == TaskStatus::Ready
                &&& k1.processor.running() is None
                &&& k1.manager.queue() == k0.manager.queue().push(me as usize)
                &&& k1.shared == k0.shared
            }
            &&& c != 0 ==> {
                &&& r == StdinStep::Done(1)
                &&& user_byte(k1.shared.memory@, root, buf) == c as int % 256
                &&& forall|va: u64|
                    framed(&k0.space(me), va) && va_of(va) != va_of(buf) ==> #[trigger] user_byte(
                        k1.shared.memory@,
                        root,
                        va,
                    ) == user_byte(k0.shared.memory@, root, va)
                &&& k1.processor == k0.processor
            }
        }),
{
    let me = cur(&k0);
    assert(k0.has(me));
    if c != 0 {
        let data = seq![c as u8];
        law_process_finds_what_was_put(
            &k0.space(me),
            &k0.shared.memory,
            &k1.shared.memory,
            buf,
            1,
            data,
            1,
        );
        assert(c as u8 == c as int % 256) by {
            assert(c as u8 == c % 256) by (bit_vector);
        }
        assert(user_byte(k1.shared.memory@, k0.space(me).root(), (buf + 0) as u64) == data[0]);
        assert forall|va: u64| framed(&k0.space(me), va) && va_of(va) != va_of(buf) implies
            #[trigger] user_byte(k1.shared.memory@, k0.space(me).root(), va) == user_byte(
            k0.shared.memory@,
            k0.space(me).root(),
            va,
        ) by {
            assert forall|k: int| 0 <= k < 1 implies va_of(va) != va_of(
                #[trigger] ((buf + k) as u64),
            ) by {}
        }
    }
}

/// The record about a file that is open: eighty bytes. The inode number is in bytes 8 to 15; bytes 16
/// to 19 say 0x4000 for a directory and 0x8000 for a file; byte 20 has the number of links; all others
/// are zero. Descriptors of the console and those that are not in use give -1.
#[verifier::rlimit(40)]
pub proof fn law_fstat<D: BlockDevice>(
    k0: Kernel<D>,
    k1: Kernel<D>,
    fd: usize,
    h: usize,
    st: u64,
    r: i64,
)
    requires
        exists|k: &mut Kernel<D>| #[trigger]
            call_ensures(sys_fstat::<D>, (fd, st, k), r) && *k == k0 && *final(k) == k1,
        active(&k0),
        file_of(&k0, fd) matches Some(FileRef::Inode(i)) ==> buffer_ok(
            &k0.space(cur(&k0)),
            st,
            80,
        ),
    ensures
        k1.fs.files() == k0.fs.files(),
        ({
            let table = k0.inner(cur(&k0)).fd_table@;
            let root = k0.space(cur(&k0)).root();
            let m1 = k1.shared.memory@;
            &&& fd >= table.len() || !(table[fd as int] matches Some(FileRef::Inode(_))) ==> r == -1
                && k1.shared == k0.shared
            &&& fd < table.len() && table[fd as int] == Some(FileRef::Inode(h)) ==> {
                    let id = k0.open_files@[h as int].inode.number(k0.fs.division());
                    let f = k0.fs.slots()[id];
                    &&& r == 0
                    &&& 0 <= id <= u64::MAX ==> number_at(&k1, cur(&k0), (st + 8) as u64) == id
                    &&& forall|j: int|
                        0 <= j < 80 && !(8 <= j < 16) ==> user_byte(
                            m1,
                            root,
                            #[trigger] ((st + j) as u64),
                        ) == (if j == 17 {
                            if f.directory {
                                0x40u8
                            } else {
                                0x80u8
                            }
                        } else if j == 20 {
                            f.nlink
                        } else {
                            0u8
                        })
            }
        }),
{
    let me = cur(&k0);
    assert(k0.has(me));
    if file_of(&k0, fd) == Some(FileRef::Inode(h)) {
        let file = open_file_of(&k0, h);
        let id = file.inode.number(k0.fs.division());
        let f = file.file(&k0.fs);
        let data = stat_bytes(f, id);
        let m1 = k1.shared.memory@;
        let root = k0.space(me).root();
        lemma_stat_layout(f.directory, f.nlink, id, data);
        assert(forall|j: int|
            0 <= j < 80 ==> user_byte(m1, root, #[trigger] ((st + j) as u64)) == data[j]) by {
            law_process_finds_what_was_put(
                &k0.space(me),
                &k0.shared.memory,
                &k1.shared.memory,
                st,
                80,
                data,
                80,
            );
        }
        let ino = Seq::new(8, |i: int| user_byte(m1, root, ((st + 8) as u64 + i) as u64));
        assert(ino == spec_u64_to_le_bytes(id as u64)) by {
            lemma_auto_spec_u64_to_from_le_bytes();
            assert forall|i: int| 0 <= i < 8 implies #[trigger] ino[i] == spec_u64_to_le_bytes(
                id as u64,
            )[i] by {
                assert(user_byte(m1, root, (st + (8 + i)) as u64) == data[8 + i]);
            }
            assert(ino =~= spec_u64_to_le_bytes(id as u64));
        }
        assert(number_at(&k1, me, (st + 8) as u64) == id as u64) by {
            lemma_auto_spec_u64_to_from_le_bytes();
            assert(k1.space(me) == k0.space(me));
        }
    }
}

/// The bytes of the record about a file.
#[verifier::rlimit(40)]
proof fn lemma_stat_layout(directory: bool, nlink: u8, id: int, data: Seq<u8>)
    requires
        data == zeros(8) + spec_u64_to_le_bytes(id as u64) + u32_bytes(
            if directory {
                0o040000
            } else {
                0o100000
            },
        ) + u32_bytes(nlink as u32) + zeros(56),
    ensures
        data.len() == 80,
        forall|j: int| 0 <= j < 8 ==> #[trigger] data[8 + j] == spec_u64_to_le_bytes(id as u64)[j],
        forall|j: int|
            0 <= j < 80 && !(8 <= j < 16) ==> #[trigger] data[j] == (if j == 17 {
                if directory {
                    0x40u8
                } else {
                    0x80u8
                }
            } else if j == 20 {
                nlink
            } else {
                0u8
            }),
{
    lemma_auto_spec_u64_to_from_le_bytes();
    reveal(u32_bytes);
}

/// To give a file a second name. It works if the names differ, there is a file of the old name, and none
/// of the new one; both names stand for the same file then, which holds what it held and has one link
/// more. Otherwise -1 is returned. Either way every other name stands for what it stood for.
#[verifier::rlimit(40)]
pub proof fn law_linkat<D: BlockDevice>(k0: Kernel<D>, k1: Kernel<D>, from: u64, to: u64, r: i64)
    requires
        exists|k: &mut Kernel<D>| #[trigger]
            call_ensures(sys_linkat::<D>, (from, to, k), r) && *k == k0 && *final(k) == k1,
        active(&k0),
        file_named(&k0.fs, name_of(&k0, from)) matches Some(id) ==> k0.fs.files()[id].nlink < 255,
    ensures
        ({
            let a = name_of(&k0, from);
            let b = name_of(&k0, to);
            let files0 = k0.fs.files();
            let files1 = k1.fs.files();
            &&& r == (if a != b && file_named(&k0.fs, a) is Some && file_named(&k0.fs, b) is None {
                0int
            } else {
                -1
            })
            &&& r == -1 ==> files1 == files0
            &&& r == 0 ==> {
                let id = file_named(&k0.fs, a)->0;
                &&& file_named(&k1.fs, a) == Some(id)
                &&& file_named(&k1.fs, b) == Some(id)
                &&& files1.dom() == files0.dom()
                &&& files1[id].content == files0[id].content
                &&& files1[id].nlink == files0[id].nlink + 1
                &&& forall|other: Seq<u8>|
                    other != b ==> #[trigger] file_named(&k1.fs, other) == file_named(
                        &k0.fs,
                        other,
                    )
                &&& forall|j: int| #[trigger]
                    files0.dom().contains(j) && j != 0 && j != id ==> files1[j] == files0[j]
            }
            &&& k1.tasks@ == k0.tasks@
        }),
{
    let a = name_of(&k0, from);
    let b = name_of(&k0, to);
    lemma_named(k0.fs.files(), a);
    if a != b && file_named(&k0.fs, a) is Some && file_named(&k0.fs, b) is None {
        law_linked_file_is_found(&k0.fs, &k1.fs, b, file_named(&k0.fs, a)->0);
    }
}

/// To take a name away. It works if there is such a name, which then stands for nothing; otherwise -1
/// is returned and nothing changes. A file that has other names holds what it held and has one link
/// less; with its last name it is gone. Every other name stands for what it stood for.
pub proof fn law_unlinkat<D: BlockDevice>(k0: Kernel<D>, k1: Kernel<D>, ptr: u64, r: i64)
    requires
        exists|k: &mut Kernel<D>| #[trigger]
            call_ensures(sys_unlinkat::<D>, (ptr, k), r) && *k == k0 && *final(k) == k1,
        active(&k0),
    ensures
        ({
            let name = name_of(&k0, ptr);
            let files0 = k0.fs.files();
            let files1 = k1.fs.files();
            &&& r == (if file_named(&k0.fs, name) is Some {
                0int
            } else {
                -1
            })
            &&& r == -1 ==> files1 == files0
            &&& r == 0 ==> {
                let id = file_named(&k0.fs, name)->0;
                &&& file_named(&k1.fs, name) is None
                &&& files0[id].nlink > 1 ==> {
                    &&& files1.dom() == files0.dom()
                    &&& files1[id].nlink == files0[id].nlink - 1
                    &&& files1[id].content == files0[id].content
                }
                &&& files0[id].nlink <= 1 ==> files1.dom() == files0.dom().remove(id)
                &&& forall|other: Seq<u8>|
                    other != name ==> #[trigger] file_named(&k1.fs, other) == file_named(
                        &k0.fs,
                        other,
                    )
                &&& forall|j: int| #[trigger]
                    files0.dom().contains(j) && j != 0 && j != id ==> files1[j] == files0[j]
            }
            &&& k1.tasks@ == k0.tasks@
        }),
{
    let name = name_of(&k0, ptr);
    if file_named(&k0.fs, name) is Some {
        law_unlinked_name_is_gone(&k0.fs, &k1.fs, name, file_named(&k0.fs, name)->0);
    }
}

/// The name at an address is the text there, up to the first zero, each byte a character.
pub proof fn law_names_end_at_the_first_zero<D: BlockDevice>(k: Kernel<D>, ptr: u64, n: int)
    requires
        is_text(k.shared.memory@, k.space(cur(&k)).root(), ptr, n),
    ensures
        name_of(&k, ptr) == encode_utf8(
            Seq::new(
                n as nat,
                |i: int|
                    user_byte(
                        k.shared.memory@,
                        k.space(cur(&k)).root(),
                        (ptr + i) as u64,
                    ) as char,
            ),
        ),
{
    let mem = k.shared.memory@;
    let root = k.space(cur(&k)).root();
    let m = choose|m: int| is_text(mem, root, ptr, m);
    assert(is_text(mem, root, ptr, m));
    if m < n {
        assert(user_byte(mem, root, (ptr + m) as u64) != 0);
    } else if n < m {
        assert(user_byte(mem, root, (ptr + n) as u64) != 0);
    }
}

/// The bytes of some texts, one behind the other.
pub open spec fn bytes_of_all(texts: Seq<String>) -> Seq<u8>
    decreases texts.len(),
{
    if texts.len() == 0 {
        Seq::empty()
    } else {
        bytes_of_all(texts.drop_last()) + encode_utf8(texts.last()@)
    }
}

/// What is written to the console appears on the screen, byte for byte, and all of it counts as written.
/// A buffer within one page appears exactly if it is text.
#[verifier::rlimit(40)]
pub proof fn law_print<D: BlockDevice>(
    k0: Kernel<D>,
    k1: Kernel<D>,
    fd: usize,
    buf: u64,
    len: u64,
    r: WriteStep,
)
    requires
        exists|k: &mut Kernel<D>| #[trigger]
            call_ensures(sys_write::<D>, (fd, buf, len, k), r) && *k == k0 && *final(k) == k1,
        active(&k0),
        file_of(&k0, fd) == Some(FileRef::Stdout),
        len <= i64::MAX,
    ensures
        ({
            let bytes = Seq::new(
                len as nat,
                |i: int|
                    user_byte(
                        k0.shared.memory@,
                        k0.space(cur(&k0)).root(),
                        (buf + i) as u64,
                    ),
            );
            &&& r matches WriteStep::Screen(texts, n) ==> n == len && bytes_of_all(texts@) == bytes
            &&& buf as int % 4096 + len <= 4096 && valid_utf8(bytes) ==> r is Screen
            &&& 0 < len && buf as int % 4096 + len <= 4096 && !valid_utf8(bytes) ==> r is NoText
            &&& k1.shared == k0.shared
            &&& k1.fs == k0.fs
        }),
{
    let bytes = Seq::new(
        len as nat,
        |i: int|
            user_byte(k0.shared.memory@, k0.space(cur(&k0)).root(), (buf + i) as u64),
    );
    let data = bytes_at(
        k0.shared.memory@,
        buffer_cells(&k0.space(cur(&k0)), &k0.shared.memory, buf, len),
    );
    assert(data =~= bytes);
    if let WriteStep::Screen(texts, n) = r {
        lemma_all_shown(texts@, bytes, buf, texts@.len() as int);
        assert(texts@.take(texts@.len() as int) =~= texts@);
    }
    if 0 < len && buf as int % 4096 + len <= 4096 {
        assert(run_count(buf, len) == 1);
        assert(chunk(bytes, buf, 0) =~= bytes);
    }
}

/// The first `i` texts show the bytes up to the end of page `i` of a buffer.
proof fn lemma_all_shown(texts: Seq<String>, bytes: Seq<u8>, buf: u64, i: int)
    requires
        shows(texts, bytes, buf),
        bytes.len() <= i64::MAX,
        0 <= i <= texts.len(),
    ensures
        bytes_of_all(texts.take(i)) == bytes.take(shorter(run_start(buf, i), bytes.len() as int)),
        i == texts.len() ==> bytes_of_all(texts.take(i)) == bytes,
    decreases i,
{
    let len = bytes.len() as int;
    if i == 0 {
        assert(bytes_of_all(texts.take(0)) =~= Seq::empty());
        assert(bytes.take(0) =~= Seq::empty());
        if texts.len() == 0 {
            assert(run_count(buf, bytes.len() as u64) == 0);
            assert(len == 0);
            assert(bytes =~= Seq::empty());
        }
    } else {
        lemma_all_shown(texts, bytes, buf, i - 1);
        let t = texts.take(i);
        assert(t.drop_last() =~= texts.take(i - 1));
        assert(encode_utf8(texts[i - 1]@) == chunk(bytes, buf, i - 1));
        let a = run_start(buf, i - 1);
        let b = shorter(run_start(buf, i), len);
        assert(0 <= a <= b <= len);
        assert(bytes.take(a) + bytes.subrange(a, b) =~= bytes.take(b));
        if i == texts.len() {
            assert(run_start(buf, i) >= len);
            assert(bytes.take(len) =~= bytes);
        }
    }
}

} // verus!
