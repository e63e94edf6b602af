//! What processes can ask about files.

use vstd::bytes::{lemma_auto_spec_u64_to_from_le_bytes, spec_u64_to_le_bytes};
use vstd::prelude::*;
use vstd::utf8::{encode_utf8, valid_utf8};

use super::process::{active, cur};
use super::wait::lemma_same;
use crate::bytes::{lemma_zero_u64, u32_bytes};
use crate::easy_fs::block_dev::BlockDevice;
use crate::easy_fs::dir::lemma_tree_content;
use crate::easy_fs::fs_state::FileView;
use crate::easy_fs::layout::blocks_for;
use crate::easy_fs::vfs::overwritten;
use crate::fs::file::FileRef;
use crate::fs::guard::file_takes;
use crate::fs::inode::{
    can_create, can_link, created, emptied, file_named, link_file, linked, open_file, read_part,
    rooted, unlink_file, unlinked, OSInode, OpenFlags, OPEN_CREATE, OPEN_TRUNC,
};
use crate::fs::stat::{pad_bytes, Stat, STAT_DIR, STAT_FILE, STAT_SIZE};
use crate::fs::stdio::{run_is_text, Stdin, StdinStep, Stdout};
use crate::kernel::sched::{same_things, with_status};
use crate::kernel::state::{lemma_kept, lemma_only_same, same_but, Kernel};
use crate::kernel::user::{
    buffer_cells, buffer_ok, lemma_buffer_written, name_at, text_ok, user_buffer, user_text,
};
use crate::mm::frame_allocator::same_frames;
use crate::mm::user::{
    bytes_at, cells_of, lemma_cells_index, page_by_page, put_bytes, run_count, run_start, shorter,
    UserBuffer, UserSegment,
};
use crate::task::shared::Shared;
use crate::task::task::{free_fd, TaskControlBlock, TaskControlBlockInner, TaskStatus};

verus! {

/// What descriptor `fd` of the process that runs stands for.
pub open spec fn file_of<D: BlockDevice>(k: &Kernel<D>, fd: usize) -> Option<FileRef> {
    let table = k.inner(cur(k)).fd_table@;
    if fd < table.len() {
        table[fd as int]
    } else {
        None
    }
}

/// What is in the bytes of a buffer of the process that runs.
pub open spec fn bytes_of<D: BlockDevice>(k: &Kernel<D>, buf: u64, len: u64) -> Seq<u8> {
    bytes_at(k.shared.memory@, cells_in(k, buf, len))
}

/// Where the bytes of a buffer of the process that runs lie.
pub open spec fn cells_in<D: BlockDevice>(k: &Kernel<D>, buf: u64, len: u64) -> Seq<(int, int)> {
    buffer_cells(&k.space(cur(k)), &k.shared.memory, buf, len)
}

/// Processes, memory, the queue and the processor are as before.
pub open spec fn same_processes<D: BlockDevice>(k0: &Kernel<D>, k1: &Kernel<D>) -> bool {
    &&& k1.tasks@ == k0.tasks@
    &&& k1.shared == k0.shared
    &&& k1.manager == k0.manager
    &&& k1.processor == k0.processor
}

/// Only the descriptors of the process that runs have changed, and not memory, the queue and the
/// processor.
pub open spec fn same_but_fds<D: BlockDevice>(
    k0: &Kernel<D>,
    k1: &Kernel<D>,
    table: Seq<Option<FileRef>>,
) -> bool {
    let p = cur(k0);
    &&& k1.tasks@ == k0.tasks@.update(p, Some(k1.task(p)))
    &&& k1.inner(p).fd_table@ == table
    &&& k1.task(p) == (TaskControlBlock {
        inner: TaskControlBlockInner { fd_table: k1.inner(p).fd_table, ..k0.inner(p) },
        ..k0.task(p)
    })
    &&& k1.shared == k0.shared
    &&& k1.manager == k0.manager
    &&& k1.processor == k0.processor
}

/// The kernel is in order when files or descriptors have changed.
proof fn lemma_files_changed<D: BlockDevice>(
    k0: &Kernel<D>,
    k1: &Kernel<D>,
    table: Seq<Option<FileRef>>,
)
    requires
        active(k0),
        same_but_fds(k0, k1, table),
        rooted(&k1.fs),
        k1.handles_ok(),
        k1.open_files@.len() >= k0.open_files@.len(),
        forall|fd: int| 0 <= fd < table.len() ==> k1.file_ok(#[trigger] table[fd]),
    ensures
        k1.wf(),
{
    let p = cur(k0);
    assert(k0.has(p));
    lemma_only_same(&k0.space(p), &k0.shared.memory);
    lemma_kept(k0, k1, p);
}

/// The kernel is in order when the file system has changed.
pub proof fn lemma_fs_changed<D: BlockDevice>(k0: &Kernel<D>, k1: &Kernel<D>)
    requires
        active(k0),
        same_processes(k0, k1),
        rooted(&k1.fs),
        k1.handles_ok(),
        k1.open_files@.len() >= k0.open_files@.len(),
    ensures
        k1.wf(),
{
    let p = cur(k0);
    let table = k0.inner(p).fd_table@;
    assert(k0.has(p));
    assert(k1.tasks@ =~= k0.tasks@.update(p, Some(k1.task(p))));
    assert forall|fd: int| 0 <= fd < table.len() implies k1.file_ok(#[trigger] table[fd]) by {
        assert(k0.file_ok(k0.inner(p).fd_table@[fd]));
    }
    lemma_files_changed(k0, k1, table);
}

/// Closes a descriptor. Returns -1 if it is not in use.
pub fn sys_close<D: BlockDevice>(fd: usize, kernel: &mut Kernel<D>) -> (r: i64)
    requires
        active(old(kernel)),
    ensures
        final(kernel).wf(),
        final(kernel).fs == old(kernel).fs,
        final(kernel).open_files == old(kernel).open_files,
        if file_of(old(kernel), fd) is Some {
            &&& r == 0
            &&& same_but_fds(
                old(kernel),
                final(kernel),
                old(kernel).inner(cur(old(kernel))).fd_table@.update(fd as int, None),
            )
        } else {
            r == -1 && same_processes(old(kernel), final(kernel))
        },
{
    let ghost k0 = *kernel;
    let pid: usize = kernel.current_task().unwrap();
    let ghost p = pid as int;
    assert(k0.has(p));
    let mut task: TaskControlBlock = kernel.take_task(pid);
    let ghost table = task.inner.fd_table@;
    if fd >= task.inner.fd_table.len() || task.inner.fd_table[fd].is_none() {
        kernel.put_task(pid, task);
        proof {
            assert(kernel.tasks@ =~= k0.tasks@);
            lemma_same(&k0, kernel);
        }
        return -1;
    }
    task.inner.fd_table[fd] = None;
    kernel.put_task(pid, task);
    proof {
        let table2 = table.update(fd as int, None);
        assert(kernel.tasks@ =~= k0.tasks@.update(p, Some(kernel.task(p))));
        assert forall|i: int| 0 <= i < table2.len() implies kernel.file_ok(#[trigger] table2[i]) by {
            assert(k0.file_ok(k0.inner(p).fd_table@[i]));
        }
        lemma_files_changed(&k0, kernel, table2);
    }
    0
}

/// Gives the file whose name is at `old_name` the name at `new_name` too. Returns -1 if both names
/// are the same, if there is no file of the old name, or if the new name is taken.
pub fn sys_linkat<D: BlockDevice>(old_name: u64, new_name: u64, kernel: &mut Kernel<D>) -> (r: i64)
    requires
        active(old(kernel)),
        text_ok(&old(kernel).space(cur(old(kernel))), &old(kernel).shared.memory, old_name),
        text_ok(&old(kernel).space(cur(old(kernel))), &old(kernel).shared.memory, new_name),
        can_link(
            &old(kernel).fs,
            name_at(&old(kernel).space(cur(old(kernel))), &old(kernel).shared.memory, old_name),
            name_at(&old(kernel).space(cur(old(kernel))), &old(kernel).shared.memory, new_name),
        ),
    ensures
        final(kernel).wf(),
        same_processes(old(kernel), final(kernel)),
        final(kernel).open_files == old(kernel).open_files,
        final(kernel).fs.same_shape(&old(kernel).fs),
        ({
            let k0 = *old(kernel);
            let a = name_at(&k0.space(cur(&k0)), &k0.shared.memory, old_name);
            let b = name_at(&k0.space(cur(&k0)), &k0.shared.memory, new_name);
            if a != b && file_named(&k0.fs, a) is Some && file_named(&k0.fs, b) is None {
                r == 0 && linked(&k0.fs, &final(kernel).fs, b, file_named(&k0.fs, a)->0)
            } else {
                r == -1 && final(kernel).fs.disk() == k0.fs.disk()
            }
        }),
{
    let ghost k0 = *kernel;
    let pid: usize = kernel.current_task().unwrap();
    let ghost p = pid as int;
    assert(k0.has(p));
    let task: TaskControlBlock = kernel.take_task(pid);
    let old_text: String = user_text(&task.inner.memory_set, old_name, &kernel.shared.memory);
    let new_text: String = user_text(&task.inner.memory_set, new_name, &kernel.shared.memory);
    kernel.put_task(pid, task);
    let linked_it: Option<()> = link_file(old_text.as_str(), new_text.as_str(), &mut kernel.fs);
    proof {
        assert(kernel.tasks@ =~= k0.tasks@);
        lemma_fs_changed(&k0, kernel);
    }
    if linked_it.is_none() {
        return -1;
    }
    0
}

/// Takes away the name at `name`. Returns -1 if there is no such name.
pub fn sys_unlinkat<D: BlockDevice>(name: u64, kernel: &mut Kernel<D>) -> (r: i64)
    requires
        active(old(kernel)),
        text_ok(&old(kernel).space(cur(old(kernel))), &old(kernel).shared.memory, name),
    ensures
        final(kernel).wf(),
        same_processes(old(kernel), final(kernel)),
        final(kernel).open_files == old(kernel).open_files,
        final(kernel).fs.same_shape(&old(kernel).fs),
        ({
            let k0 = *old(kernel);
            let a = name_at(&k0.space(cur(&k0)), &k0.shared.memory, name);
            if file_named(&k0.fs, a) is Some {
                r == 0 && unlinked(&k0.fs, &final(kernel).fs, a)
            } else {
                r == -1 && final(kernel).fs.disk() == k0.fs.disk()
            }
        }),
{
    let ghost k0 = *kernel;
    let pid: usize = kernel.current_task().unwrap();
    let ghost p = pid as int;
    assert(k0.has(p));
    let task: TaskControlBlock = kernel.take_task(pid);
    let text: String = user_text(&task.inner.memory_set, name, &kernel.shared.memory);
    kernel.put_task(pid, task);
    let gone: Option<()> = unlink_file(text.as_str(), &mut kernel.fs);
    proof {
        assert(kernel.tasks@ =~= k0.tasks@);
        lemma_fs_changed(&k0, kernel);
    }
    if gone.is_none() {
        return -1;
    }
    0
}

/// Opens the file whose name is at `path` and returns its descriptor, the lowest that is not in use.
/// Returns -1 if a flag is not known, or if there is no such file and it is not to be made.
pub fn sys_open<D: BlockDevice>(path: u64, flags: u32, kernel: &mut Kernel<D>) -> (r: i64)
    requires
        active(old(kernel)),
        text_ok(&old(kernel).space(cur(old(kernel))), &old(kernel).shared.memory, path),
        ({
            let name = name_at(
                &old(kernel).space(cur(old(kernel))),
                &old(kernel).shared.memory,
                path,
            );
            flags & !0x603u32 == 0 && OpenFlags { bits: flags }.has(OPEN_CREATE) && file_named(
                &old(kernel).fs,
                name,
            ) is None ==> can_create(&old(kernel).fs, name)
        }),
        old(kernel).inner(cur(old(kernel))).fd_table@.len() < i64::MAX,
        old(kernel).inner(cur(old(kernel))).fd_table@.len() < usize::MAX,
        old(kernel).open_files@.len() < usize::MAX,
    ensures
        final(kernel).wf(),
        final(kernel).fs.same_shape(&old(kernel).fs),
        opened(old(kernel), final(kernel), path, OpenFlags { bits: flags }, r as int),
{
    let ghost k0 = *kernel;
    let pid: usize = kernel.current_task().unwrap();
    let ghost p = pid as int;
    assert(k0.has(p));
    let mut task: TaskControlBlock = kernel.take_task(pid);
    let ghost table = task.inner.fd_table@;
    let name: String = user_text(&task.inner.memory_set, path, &kernel.shared.memory);
    let flags: OpenFlags = match OpenFlags::from_bits(flags) {
        Some(flags) => flags,
        None => {
            kernel.put_task(pid, task);
            proof {
                assert(kernel.tasks@ =~= k0.tasks@);
                lemma_same(&k0, kernel);
            }
            return -1;
        },
    };
    match open_file(name.as_str(), flags, &mut kernel.fs) {
        Some(file) => {
            let handle: usize = kernel.open_files.len();
            kernel.open_files.push(file);
            let fd: usize = task.inner.alloc_fd();
            task.inner.fd_table[fd] = Some(FileRef::Inode(handle));
            kernel.put_task(pid, task);
            proof {
                let table2 = with_fd(table, FileRef::Inode(handle));
                assert(kernel.tasks@ =~= k0.tasks@.update(p, Some(kernel.task(p))));
                assert(kernel.inner(p).fd_table@ =~= table2);
                assert forall|i: int| 0 <= i < table2.len() implies kernel.file_ok(
                    #[trigger] table2[i],
                ) by {
                    if i != free_fd(table) && i < table.len() {
                        assert(k0.file_ok(k0.inner(p).fd_table@[i]));
                    }
                }
                lemma_files_changed(&k0, kernel, table2);
            }
            fd as i64
        },
        None => {
            kernel.put_task(pid, task);
            proof {
                assert(kernel.tasks@ =~= k0.tasks@);
                lemma_fs_changed(&k0, kernel);
            }
            -1
        },
    }
}

/// The descriptors with one more file, at the lowest place that is not in use.
pub open spec fn with_fd(table: Seq<Option<FileRef>>, file: FileRef) -> Seq<Option<FileRef>> {
    let fd = free_fd(table);
    if fd < table.len() {
        table.update(fd, Some(file))
    } else {
        table.push(Some(file))
    }
}

/// The file whose name is at `path` was opened, and `r` is its descriptor; or there is no such file
/// or no such flag, and `r` is -1.
pub open spec fn opened<D: BlockDevice>(
    k0: &Kernel<D>,
    k1: &Kernel<D>,
    path: u64,
    flags: OpenFlags,
    r: int,
) -> bool {
    let name = name_at(&k0.space(cur(k0)), &k0.shared.memory, path);
    let table = k0.inner(cur(k0)).fd_table@;
    let h = k0.open_files@.len();
    let file = k1.open_files@[h as int];
    let found = file_named(&k0.fs, name);
    if flags.bits & !0x603u32 != 0 || found is None && !flags.has(OPEN_CREATE) {
        &&& r == -1
        &&& same_processes(k0, k1)
        &&& k1.open_files == k0.open_files
        &&& k1.fs.disk() == k0.fs.disk()
    } else {
        &&& r == free_fd(table)
        &&& same_but_fds(k0, k1, with_fd(table, FileRef::Inode(h as usize)))
        &&& k1.open_files@ == k0.open_files@.push(file)
        &&& (file.readable, file.writable) == flags.access()
        &&& file.offset == 0
        &&& file.inode.valid(&k1.fs)
        &&& match found {
            Some(id) => {
                &&& file.inode.number(k1.fs.division()) == id
                &&& if flags.has(OPEN_CREATE) || flags.has(OPEN_TRUNC) {
                    emptied(&k0.fs, &k1.fs, id)
                } else {
                    k1.fs.disk() == k0.fs.disk()
                }
            },
            None => created(&k0.fs, &k1.fs, name, file.inode.number(k1.fs.division())),
        }
    }
}

/// What a write leads to.
pub enum WriteStep {
    /// The call returns this.
    Done(i64),
    /// These texts appear on the screen, one after the other, and the call returns this.
    Screen(Vec<String>, i64),
    /// What is to appear on the screen is no text.
    NoText,
}

/// The file that a descriptor of a regular file stands for.
pub open spec fn open_file_of<D: BlockDevice>(k: &Kernel<D>, h: usize) -> OSInode {
    k.open_files@[h as int]
}

/// The descriptor is in use, and its file can be written.
pub open spec fn can_write<D: BlockDevice>(k: &Kernel<D>, fd: usize) -> bool {
    match file_of(k, fd) {
        Some(FileRef::Stdout) => true,
        Some(FileRef::Inode(h)) => open_file_of(k, h).writable,
        _ => false,
    }
}

/// The descriptor is in use, and its file can be read.
pub open spec fn can_read<D: BlockDevice>(k: &Kernel<D>, fd: usize) -> bool {
    match file_of(k, fd) {
        Some(FileRef::Stdin) => true,
        Some(FileRef::Inode(h)) => open_file_of(k, h).readable,
        _ => false,
    }
}

/// Only the place of an open file has changed, besides the file system and memory.
pub open spec fn moved_on<D: BlockDevice>(k0: &Kernel<D>, k1: &Kernel<D>, h: usize, n: int) -> bool {
    let file = k0.open_files@[h as int];
    k1.open_files@ == k0.open_files@.update(
        h as int,
        (OSInode { offset: (file.offset + n) as usize, ..file }),
    )
}

/// Writes `len` bytes at `buf` to a file. Returns -1 if the descriptor is not in use or its file
/// cannot be written.
pub fn sys_write<D: BlockDevice>(fd: usize, buf: u64, len: u64, kernel: &mut Kernel<D>) -> (r:
    WriteStep)
    requires
        active(old(kernel)),
        can_write(old(kernel), fd) ==> {
            &&& buffer_ok(&old(kernel).space(cur(old(kernel))), buf, len)
            &&& len <= usize::MAX
            &&& len <= i64::MAX
        },
        file_of(old(kernel), fd) matches Some(FileRef::Inode(h)) ==> open_file_of(
            old(kernel),
            h,
        ).writable ==> file_takes(&open_file_of(old(kernel), h), len as int, &old(kernel).fs),
    ensures
        final(kernel).wf(),
        same_processes(old(kernel), final(kernel)),
        match file_of(old(kernel), fd) {
            Some(FileRef::Stdout) => {
                &&& final(kernel).fs == old(kernel).fs
                &&& final(kernel).open_files == old(kernel).open_files
                &&& if is_printable(bytes_of(old(kernel), buf, len), buf) {
                    r matches WriteStep::Screen(texts, n) && n == len && shows(
                        texts@,
                        bytes_of(old(kernel), buf, len),
                        buf,
                    )
                } else {
                    r == WriteStep::NoText
                }
            },
            Some(FileRef::Inode(h)) => if open_file_of(old(kernel), h).writable {
                &&& r == WriteStep::Done(len as i64)
                &&& written_to(old(kernel), final(kernel), h, bytes_of(old(kernel), buf, len))
            } else {
                &&& r == WriteStep::Done((-1) as i64)
                &&& final(kernel).fs == old(kernel).fs
                &&& final(kernel).open_files == old(kernel).open_files
            },
            _ => {
                &&& r == WriteStep::Done((-1) as i64)
                &&& final(kernel).fs == old(kernel).fs
                &&& final(kernel).open_files == old(kernel).open_files
            },
        },
{
    let ghost k0 = *kernel;
    let pid: usize = kernel.current_task().unwrap();
    let ghost p = pid as int;
    assert(k0.has(p));
    let task: TaskControlBlock = kernel.take_task(pid);
    let file: Option<FileRef> = if fd < task.inner.fd_table.len() {
        task.inner.fd_table[fd]
    } else {
        None
    };
    let usable: bool = match file {
        Some(FileRef::Stdout) => true,
        Some(FileRef::Inode(h)) => {
            assert(k0.file_ok(k0.inner(p).fd_table@[fd as int]));
            kernel.open_files[h].writable
        },
        _ => false,
    };
    if !usable {
        kernel.put_task(pid, task);
        assert(kernel.tasks@ =~= k0.tasks@);
        proof {
            lemma_same(&k0, kernel);
        }
        return WriteStep::Done(-1);
    }
    let buffer: UserBuffer = user_buffer(&task.inner.memory_set, buf, len, &kernel.shared.memory);
    kernel.put_task(pid, task);
    assert(kernel.tasks@ =~= k0.tasks@);
    let ghost data = bytes_of(&k0, buf, len);
    proof {
        lemma_same(&k0, kernel);
    }
    match file {
        Some(FileRef::Stdout) => {
            let out: Option<(Vec<String>, usize)> = Stdout.write(&buffer, &kernel.shared.memory);
            proof {
                lemma_chunks(buffer.segments@, k0.shared.memory@, buf, len);
            }
            match out {
                Some((texts, n)) => {
                    proof {
                        assert(data.len() == len);
                        assert forall|i: int| 0 <= i < run_count(buf, len) implies valid_utf8(
                            #[trigger] chunk(data, buf, i),
                        ) by {
                            assert(run_is_text(k0.shared.memory@, buffer.segments@[i]));
                        }
                        assert forall|i: int| 0 <= i < texts@.len() implies encode_utf8(
                            #[trigger] texts@[i]@,
                        ) == chunk(data, buf, i) by {
                            assert(run_is_text(k0.shared.memory@, buffer.segments@[i]));
                        }
                    }
                    WriteStep::Screen(texts, n as i64)
                },
                None => {
                    proof {
                        assert(data.len() == len);
                        let i = choose|i: int|
                            0 <= i < buffer.segments@.len() && !run_is_text(
                                k0.shared.memory@,
                                #[trigger] buffer.segments@[i],
                            );
                        assert(!valid_utf8(chunk(data, buf, i)));
                    }
                    WriteStep::NoText
                },
            }
        },
        Some(FileRef::Inode(h)) => {
            assert(k0.file_ok(k0.inner(p).fd_table@[fd as int]));
            let mut file: OSInode = kernel.open_files[h];
            let ghost files = kernel.fs.files();
            let ghost id = file.inode.number(kernel.fs.division());
            assert(k0.open_files@[h as int].inode.valid(&k0.fs));
            let n: usize = file.write(&buffer, &mut kernel.fs, &kernel.shared.memory);
            kernel.open_files[h] = file;
            proof {
                assert(files[0].directory);
                if k0.fs.live(id) {
                    lemma_tree_content(files, kernel.fs.files(), id);
                }
                lemma_fs_changed(&k0, kernel);
            }
            WriteStep::Done(n as i64)
        },
        _ => WriteStep::Done(-1),
    }
}

/// The bytes of a buffer at `ptr` that lie in its page number `i`.
pub open spec fn chunk(data: Seq<u8>, ptr: u64, i: int) -> Seq<u8> {
    data.subrange(run_start(ptr, i), shorter(run_start(ptr, i + 1), data.len() as int))
}

/// The bytes of a buffer at `ptr` are text, page by page.
pub open spec fn is_printable(data: Seq<u8>, ptr: u64) -> bool {
    forall|i: int|
        0 <= i < run_count(ptr, data.len() as u64) ==> valid_utf8(#[trigger] chunk(data, ptr, i))
}

/// These texts show the bytes of a buffer at `ptr`, page by page.
pub open spec fn shows(texts: Seq<String>, data: Seq<u8>, ptr: u64) -> bool {
    &&& texts.len() == run_count(ptr, data.len() as u64)
    &&& forall|i: int|
        0 <= i < texts.len() ==> encode_utf8(#[trigger] texts[i]@) == chunk(data, ptr, i)
}

/// The bytes were written at the place of an open file.
pub open spec fn written_to<D: BlockDevice>(
    k0: &Kernel<D>,
    k1: &Kernel<D>,
    h: usize,
    data: Seq<u8>,
) -> bool {
    let file = open_file_of(k0, h);
    let f = file.file(&k0.fs);
    let content = if data.len() == 0 {
        f.content
    } else {
        overwritten(f.content, file.offset as int, data)
    };
    &&& k1.fs.same_shape(&k0.fs)
    &&& k1.fs.changed_at(
        &k0.fs,
        file.inode.number(k0.fs.division()),
        (FileView { content, ..f }),
    )
    &&& k1.fs.free_blocks() == k0.fs.free_blocks() - (blocks_for(content.len() as int) - blocks_for(
        f.content.len() as int,
    ))
    &&& k1.fs.free_inodes() == k0.fs.free_inodes()
    &&& moved_on(k0, k1, h, data.len() as int)
}

/// The runs of a buffer are its chunks.
proof fn lemma_chunks(segs: Seq<UserSegment>, mem: Map<int, Seq<u8>>, ptr: u64, len: u64)
    requires
        forall|i: int| 0 <= i < segs.len() ==> (#[trigger] segs[i]).wf(),
        page_by_page(segs, ptr, len),
        cells_of(segs).len() == len,
    ensures
        segs.len() == run_count(ptr, len),
        forall|i: int|
            0 <= i < segs.len() ==> bytes_at(mem, (#[trigger] segs[i]).cells()) == chunk(
                bytes_at(mem, cells_of(segs)),
                ptr,
                i,
            ),
{
    let data = bytes_at(mem, cells_of(segs));
    assert forall|i: int| 0 <= i < segs.len() implies bytes_at(mem, (#[trigger] segs[i]).cells())
        == chunk(data, ptr, i) by {
        lemma_cells_index(segs, i, segs.len() as int);
        assert(segs.take(segs.len() as int) =~= segs);
        let n = cells_of(segs.take(i)).len() as int;
        assert(n == run_start(ptr, i));
        assert(n + segs[i].cells().len() == shorter(run_start(ptr, i + 1), len as int));
        let c = chunk(data, ptr, i);
        assert forall|j: int| 0 <= j < c.len() implies #[trigger] c[j] == bytes_at(
            mem,
            segs[i].cells(),
        )[j] by {
            assert(cells_of(segs)[n + j] == segs[i].cells()[j]);
        }
        assert(c =~= bytes_at(mem, segs[i].cells()));
    }
}

/// What a read leads to.
#[derive(Debug)]
pub enum ReadStep {
    /// The call returns this.
    Done(i64),
    /// The console is to be asked for a key, and the answer goes to `read_key`.
    Keyboard,
}

/// The memory of the process that runs has changed, and nothing else but the open files.
pub open spec fn same_but_memory<D: BlockDevice>(k0: &Kernel<D>, k1: &Kernel<D>) -> bool {
    &&& same_but(k0, k1, cur(k0))
    &&& k1.tasks@ == k0.tasks@
    &&& k1.manager == k0.manager
    &&& k1.processor == k0.processor
}

/// The kernel is in order when bytes were put into a buffer of the process that runs.
proof fn lemma_bytes_put<D: BlockDevice>(
    k0: &Kernel<D>,
    k1: &Kernel<D>,
    buf: u64,
    len: u64,
    data: Seq<u8>,
    n: int,
)
    requires
        active(k0),
        buffer_ok(&k0.space(cur(k0)), buf, len),
        0 <= n <= len,
        n <= data.len(),
        k1.tasks@ == k0.tasks@,
        k1.manager == k0.manager,
        k1.processor == k0.processor,
        k1.shared == (Shared { memory: k1.shared.memory, ..k0.shared }),
        same_frames(&k0.shared.memory, &k1.shared.memory),
        k1.shared.memory@ == put_bytes(k0.shared.memory@, cells_in(k0, buf, len), data, n),
        rooted(&k1.fs),
        k1.handles_ok(),
        k1.open_files@.len() >= k0.open_files@.len(),
    ensures
        k1.wf(),
        same_but_memory(k0, k1),
{
    let p = cur(k0);
    assert(k0.has(p));
    assert(k0.inner(p).task_status == TaskStatus::Running);
    assert(k1.tasks@ =~= k0.tasks@.update(p, Some(k1.task(p))));
    lemma_buffer_written(
        &k0.space(p),
        &k0.shared.memory,
        &k1.shared.memory,
        buf,
        len,
        data,
        n,
    );
    assert forall|fd: int| 0 <= fd < k1.inner(p).fd_table@.len() implies k1.file_ok(
        #[trigger] k1.inner(p).fd_table@[fd],
    ) by {
        assert(k0.file_ok(k0.inner(p).fd_table@[fd]));
    }
    lemma_kept(k0, k1, p);
}

/// Reads at most `len` bytes from a file into the buffer at `buf`. Returns how many were read; -1 if
/// the descriptor is not in use or its file cannot be read. The keyboard gives one byte at a time.
pub fn sys_read<D: BlockDevice>(fd: usize, buf: u64, len: u64, kernel: &mut Kernel<D>) -> (r:
    ReadStep)
    requires
        active(old(kernel)),
        can_read(old(kernel), fd) ==> {
            &&& buffer_ok(&old(kernel).space(cur(old(kernel))), buf, len)
            &&& len <= i64::MAX
        },
        file_of(old(kernel), fd) == Some(FileRef::Stdin) ==> len == 1,
        file_of(old(kernel), fd) matches Some(FileRef::Inode(h)) ==> open_file_of(
            old(kernel),
            h,
        ).readable ==> open_file_of(old(kernel), h).offset + len <= usize::MAX,
    ensures
        final(kernel).wf(),
        final(kernel).fs.same_shape(&old(kernel).fs),
        final(kernel).fs.disk() == old(kernel).fs.disk(),
        match file_of(old(kernel), fd) {
            Some(FileRef::Stdin) => {
                &&& r == ReadStep::Keyboard
                &&& same_processes(old(kernel), final(kernel))
                &&& final(kernel).open_files == old(kernel).open_files
            },
            Some(FileRef::Inode(h)) => if open_file_of(old(kernel), h).readable {
                let file = open_file_of(old(kernel), h);
                let part = read_part(
                    file.file(&old(kernel).fs).content,
                    file.offset as int,
                    len as int,
                );
                &&& r == ReadStep::Done(part.len() as i64)
                &&& same_but_memory(old(kernel), final(kernel))
                &&& moved_on(old(kernel), final(kernel), h, part.len() as int)
                &&& final(kernel).shared.memory@ == put_bytes(
                    old(kernel).shared.memory@,
                    cells_in(old(kernel), buf, len),
                    part,
                    part.len() as int,
                )
            } else {
                &&& r == ReadStep::Done((-1) as i64)
                &&& same_processes(old(kernel), final(kernel))
                &&& final(kernel).open_files == old(kernel).open_files
            },
            _ => {
                &&& r == ReadStep::Done((-1) as i64)
                &&& same_processes(old(kernel), final(kernel))
                &&& final(kernel).open_files == old(kernel).open_files
            },
        },
{
    let ghost k0 = *kernel;
    let pid: usize = kernel.current_task().unwrap();
    let ghost p = pid as int;
    assert(k0.has(p));
    let task: TaskControlBlock = kernel.take_task(pid);
    let file: Option<FileRef> = if fd < task.inner.fd_table.len() {
        task.inner.fd_table[fd]
    } else {
        None
    };
    let usable: bool = match file {
        Some(FileRef::Stdin) => true,
        Some(FileRef::Inode(h)) => {
            assert(k0.file_ok(k0.inner(p).fd_table@[fd as int]));
            kernel.open_files[h].readable
        },
        _ => false,
    };
    if !usable {
        kernel.put_task(pid, task);
        assert(kernel.tasks@ =~= k0.tasks@);
        proof {
            lemma_same(&k0, kernel);
        }
        return ReadStep::Done(-1);
    }
    let buffer: UserBuffer = user_buffer(&task.inner.memory_set, buf, len, &kernel.shared.memory);
    kernel.put_task(pid, task);
    assert(kernel.tasks@ =~= k0.tasks@);
    proof {
        lemma_same(&k0, kernel);
    }
    match file {
        Some(FileRef::Stdin) => ReadStep::Keyboard,
        Some(FileRef::Inode(h)) => {
            assert(k0.file_ok(k0.inner(p).fd_table@[fd as int]));
            let mut file: OSInode = kernel.open_files[h];
            assert(k0.open_files@[h as int].inode.valid(&k0.fs));
            let ghost part = read_part(
                file.file(&k0.fs).content,
                file.offset as int,
                len as int,
            );
            let n: usize = file.read(&buffer, &mut kernel.fs, &mut kernel.shared.memory);
            kernel.open_files[h] = file;
            proof {
                lemma_bytes_put(&k0, kernel, buf, len, part, n as int);
            }
            ReadStep::Done(n as i64)
        },
        _ => ReadStep::Done(-1),
    }
}

/// Goes on with a read of one byte from the keyboard. `c` is what the console gave, 0 for no key.
/// Without a key the process waits in the queue, and the console is to be asked again when it runs.
pub fn read_key<D: BlockDevice>(buf: u64, c: u64, kernel: &mut Kernel<D>) -> (r: StdinStep)
    requires
        active(old(kernel)),
        buffer_ok(&old(kernel).space(cur(old(kernel))), buf, 1),
    ensures
        final(kernel).wf(),
        final(kernel).fs == old(kernel).fs,
        final(kernel).open_files == old(kernel).open_files,
        if c == 0 {
            let pid = cur(old(kernel));
            &&& r == StdinStep::Wait
            &&& same_things(old(kernel), final(kernel))
            &&& final(kernel).processor.running() is None
            &&& final(kernel).manager.queue() == old(kernel).manager.queue().push(pid as usize)
            &&& final(kernel).tasks@ == old(kernel).tasks@.update(
                pid,
                Some(with_status(old(kernel).task(pid), TaskStatus::Ready)),
            )
        } else {
            &&& r == StdinStep::Done(1)
            &&& same_but_memory(old(kernel), final(kernel))
            &&& final(kernel).shared.memory@ == put_bytes(
                old(kernel).shared.memory@,
                cells_in(old(kernel), buf, 1),
                seq![c as u8],
                1,
            )
        },
{
    let ghost k0 = *kernel;
    let pid: usize = kernel.current_task().unwrap();
    let ghost p = pid as int;
    assert(k0.has(p));
    let task: TaskControlBlock = kernel.take_task(pid);
    let buffer: UserBuffer = user_buffer(&task.inner.memory_set, buf, 1, &kernel.shared.memory);
    kernel.put_task(pid, task);
    assert(kernel.tasks@ =~= k0.tasks@);
    let step: StdinStep = Stdin.read(c, &buffer, &mut kernel.shared.memory);
    match step {
        StdinStep::Wait => {
            proof {
                lemma_same(&k0, kernel);
            }
            kernel.suspend_current_and_run_next();
            StdinStep::Wait
        },
        StdinStep::Done(n) => {
            proof {
                lemma_bytes_put(&k0, kernel, buf, 1, seq![c as u8], 1);
            }
            StdinStep::Done(n)
        },
    }
}

/// Stores the record about an open regular file at `st`; it may lie in two pages. Returns -1 if the
/// descriptor is not in use or stands for the console.
pub fn sys_fstat<D: BlockDevice>(fd: usize, st: u64, kernel: &mut Kernel<D>) -> (r: i64)
    requires
        active(old(kernel)),
        file_of(old(kernel), fd) matches Some(FileRef::Inode(h)) ==> buffer_ok(
            &old(kernel).space(cur(old(kernel))),
            st,
            STAT_SIZE as u64,
        ),
    ensures
        final(kernel).wf(),
        final(kernel).fs.same_shape(&old(kernel).fs),
        final(kernel).fs.disk() == old(kernel).fs.disk(),
        final(kernel).open_files == old(kernel).open_files,
        match file_of(old(kernel), fd) {
            Some(FileRef::Inode(h)) => {
                let f = open_file_of(old(kernel), h).file(&old(kernel).fs);
                &&& r == 0
                &&& same_but_memory(old(kernel), final(kernel))
                &&& final(kernel).shared.memory@ == put_bytes(
                    old(kernel).shared.memory@,
                    cells_in(old(kernel), st, STAT_SIZE as u64),
                    stat_bytes(
                        f,
                        open_file_of(old(kernel), h).inode.number(old(kernel).fs.division()),
                    ),
                    STAT_SIZE as int,
                )
            },
            _ => r == -1 && same_processes(old(kernel), final(kernel)),
        },
{
    let ghost k0 = *kernel;
    let pid: usize = kernel.current_task().unwrap();
    let ghost p = pid as int;
    assert(k0.has(p));
    let task: TaskControlBlock = kernel.take_task(pid);
    let file: Option<FileRef> = if fd < task.inner.fd_table.len() {
        task.inner.fd_table[fd]
    } else {
        None
    };
    match file {
        Some(FileRef::Inode(h)) => {
            let buffer: UserBuffer = user_buffer(
                &task.inner.memory_set,
                st,
                STAT_SIZE as u64,
                &kernel.shared.memory,
            );
            kernel.put_task(pid, task);
            assert(kernel.tasks@ =~= k0.tasks@);
            assert(k0.file_ok(k0.inner(p).fd_table@[fd as int]));
            let file: OSInode = kernel.open_files[h];
            assert(k0.open_files@[h as int].inode.valid(&k0.fs));
            let ghost f = file.file(&k0.fs);
            let ghost ino = file.inode.number(k0.fs.division());
            let stat: Option<Stat> = file.get_stat(&mut kernel.fs);
            let stat: Stat = stat.unwrap();
            let bytes: [u8; STAT_SIZE] = stat.as_bytes();
            buffer.scatter(bytes.as_slice(), &mut kernel.shared.memory);
            proof {
                lemma_stat_bytes(&stat, f, ino);
                lemma_bytes_put(
                    &k0,
                    kernel,
                    st,
                    STAT_SIZE as u64,
                    stat_bytes(f, ino),
                    STAT_SIZE as int,
                );
            }
            0
        },
        _ => {
            kernel.put_task(pid, task);
            assert(kernel.tasks@ =~= k0.tasks@);
            proof {
                lemma_same(&k0, kernel);
            }
            -1
        },
    }
}

/// The record about the file with inode `ino` as it lies in memory.
pub open spec fn stat_bytes(f: FileView, ino: int) -> Seq<u8> {
    zeros(8) + spec_u64_to_le_bytes(ino as u64) + u32_bytes(
        if f.directory {
            STAT_DIR
        } else {
            STAT_FILE
        },
    ) + u32_bytes(f.nlink as u32) + zeros(56)
}

/// So many zeros.
pub open spec fn zeros(n: nat) -> Seq<u8> {
    Seq::new(n, |i: int| 0u8)
}

/// The bytes of the record about a file.
proof fn lemma_stat_bytes(stat: &Stat, f: FileView, ino: int)
    requires
        stat.dev == 0,
        stat.ino == ino,
        stat.mode.bits == (if f.directory {
            STAT_DIR
        } else {
            STAT_FILE
        }),
        stat.nlink == f.nlink,
        stat.pad@ == Seq::new(7, |i: int| 0u64),
    ensures
        stat.bytes() == stat_bytes(f, ino),
{
    lemma_zero_bytes();
    lemma_pad_zeros(stat.pad@, 7);
    assert(stat.bytes() =~= stat_bytes(f, ino));
}

proof fn lemma_pad_zeros(pad: Seq<u64>, n: int)
    requires
        0 <= n <= pad.len(),
        forall|i: int| 0 <= i < pad.len() ==> #[trigger] pad[i] == 0,
    ensures
        pad_bytes(pad, n) == zeros((8 * n) as nat),
    decreases n,
{
    if n > 0 {
        lemma_pad_zeros(pad, n - 1);
        lemma_zero_bytes();
        assert(pad[n - 1] == 0);
        assert(zeros((8 * (n - 1)) as nat) + zeros(8) =~= zeros((8 * n) as nat));
    } else {
        assert(pad_bytes(pad, 0) =~= zeros(0));
    }
}

proof fn lemma_zero_bytes()
    ensures
        spec_u64_to_le_bytes(0) == zeros(8),
{
    lemma_auto_spec_u64_to_from_le_bytes();
    let z = zeros(8);
    lemma_zero_u64(z, 0);
    assert(z.subrange(0, 8) =~= z);
}

} // verus!
