//! Whether the program that a process names can be run. The kernel asks here before it tries.

use vstd::prelude::*;
use vstd::string::StringSliceAdditionalSpecFns;

use super::files::{lemma_fs_changed, same_processes};
use super::process::{active, content_at, cur, file_at, read_file, same_disk};
use crate::easy_fs::block_dev::BlockDevice;
use crate::kernel::guard::is_startable;
use crate::kernel::state::Kernel;
use crate::kernel::user::{text_ok, user_text};
use crate::mm::elf::{is_loadable, loadable};
use crate::task::task::{can_start, TaskControlBlock};

verus! {

/// What the file holds whose name the process that runs has at `path`; `None` if there is no such
/// file.
fn program_at<D: BlockDevice>(path: u64, kernel: &mut Kernel<D>) -> (r: Option<Vec<u8>>)
    requires
        active(old(kernel)),
        text_ok(&old(kernel).space(cur(old(kernel))), &old(kernel).shared.memory, path),
    ensures
        active(final(kernel)),
        same_processes(old(kernel), final(kernel)),
        same_disk(old(kernel), final(kernel)),
        r is Some <==> file_at(old(kernel), path) is Some,
        r matches Some(data) ==> data@ == content_at(old(kernel), path),
{
    let ghost k0 = *kernel;
    let pid: usize = kernel.current_task().unwrap();
    let ghost p = pid as int;
    assert(k0.has(p));
    let task: TaskControlBlock = kernel.take_task(pid);
    let name: String = user_text(&task.inner.memory_set, path, &kernel.shared.memory);
    kernel.put_task(pid, task);
    let data: Option<Vec<u8>> = read_file(name.as_str(), &mut kernel.fs);
    proof {
        assert(kernel.tasks@ =~= k0.tasks@);
        lemma_fs_changed(&k0, kernel);
    }
    data
}

/// Whether the process that runs can go on with the program whose name it has at `path`. It can if
/// there is no such program: then it goes on as it is.
pub fn is_executable_at<D: BlockDevice>(path: u64, kernel: &mut Kernel<D>) -> (r: bool)
    requires
        active(old(kernel)),
        text_ok(&old(kernel).space(cur(old(kernel))), &old(kernel).shared.memory, path),
    ensures
        active(final(kernel)),
        same_processes(old(kernel), final(kernel)),
        same_disk(old(kernel), final(kernel)),
        r == (file_at(old(kernel), path) is Some ==> loadable(
            content_at(old(kernel), path),
            old(kernel).shared.memory.free().len() as int,
        )),
{
    match program_at(path, kernel) {
        Some(data) => is_loadable(data.as_slice(), &kernel.shared.memory),
        None => true,
    }
}

/// Whether the process that runs can make a child with the program whose name it has at `path`. It
/// can ask for it if there is no such program: then no child is made.
pub fn is_spawnable_at<D: BlockDevice>(path: u64, kernel: &mut Kernel<D>) -> (r: bool)
    requires
        active(old(kernel)),
        text_ok(&old(kernel).space(cur(old(kernel))), &old(kernel).shared.memory, path),
    ensures
        active(final(kernel)),
        same_processes(old(kernel), final(kernel)),
        same_disk(old(kernel), final(kernel)),
        r == (file_at(old(kernel), path) is Some ==> can_start(
            &old(kernel).shared,
            content_at(old(kernel), path),
        )),
{
    match program_at(path, kernel) {
        Some(data) => is_startable(&kernel.shared, data.as_slice()),
        None => true,
    }
}

} // verus!
