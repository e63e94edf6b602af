//! How a process learns that a child has ended.

use vstd::prelude::*;

use super::process::{active, cur};
use crate::bytes::{splice, u32_bytes};
use crate::easy_fs::block_dev::BlockDevice;
use crate::kernel::sched::lemma_taken;
use crate::kernel::state::{lemma_family_kept, Kernel, IDLE_PID};
use crate::kernel::user::{framed, lemma_framed, lemma_pages_changed};
use crate::mm::address::va_of;
use crate::mm::frame_allocator::Memory;
use crate::mm::page_table::{leaf, lemma_same_tree};
use crate::mm::stray::areas_only;
use crate::mm::user::{cell, user_byte, write_user_i32};
use crate::task::shared::{lemma_bystander, lemma_only_then, lemma_shared_kept, only};
use crate::task::task::{TaskControlBlock, TaskControlBlockInner, TaskStatus};

verus! {

/// A wait for `pid` is also a wait for process `c`: -1 stands for any process.
pub open spec fn waits_for(pid: i64, c: usize) -> bool {
    pid == -1 || pid as u64 == c
}

/// Child `i` is waited for and has ended.
pub open spec fn is_dead<D: BlockDevice>(k: &Kernel<D>, c: usize, pid: i64) -> bool {
    &&& waits_for(pid, c)
    &&& k.inner(c as int).task_status == TaskStatus::Zombie
}

/// The first of these children that is waited for and has ended, or their number if there is none.
pub open spec fn first_dead<D: BlockDevice>(k: &Kernel<D>, children: Seq<usize>, pid: i64) -> int
    decreases children.len(),
{
    if children.len() == 0 || is_dead(k, children[0], pid) {
        0
    } else {
        1 + first_dead(k, children.drop_first(), pid)
    }
}

proof fn lemma_first_dead<D: BlockDevice>(k: &Kernel<D>, children: Seq<usize>, pid: i64, i: int)
    requires
        0 <= i <= children.len(),
        forall|j: int| 0 <= j < i ==> !is_dead(k, #[trigger] children[j], pid),
        i == children.len() || is_dead(k, children[i], pid),
    ensures
        first_dead(k, children, pid) == i,
    decreases i,
{
    if i > 0 {
        assert(!is_dead(k, children[0], pid));
        let t = children.drop_first();
        assert forall|j: int| 0 <= j < i - 1 implies !is_dead(k, #[trigger] t[j], pid) by {
            assert(t[j] == children[j + 1]);
        }
        lemma_first_dead(k, t, pid, i - 1);
    }
}

/// A wait for `pid` is a wait for one of these children.
pub open spec fn waits_for_one(pid: i64, children: Seq<usize>) -> bool {
    exists|j: int| 0 <= j < children.len() && waits_for(pid, #[trigger] children[j])
}

/// The place of the first child of the process that runs that is waited for and has ended, if there
/// is one; otherwise whether there is a child that is waited for.
fn look_for_child<D: BlockDevice>(pid: i64, kernel: &Kernel<D>) -> (r: Result<usize, bool>)
    requires
        active(kernel),
    ensures
        ({
            let children = kernel.inner(cur(kernel)).children@;
            match r {
                Ok(i) => i == first_dead(kernel, children, pid) && i < children.len() && is_dead(
                    kernel,
                    children[i as int],
                    pid,
                ),
                Err(known) => first_dead(kernel, children, pid) == children.len() && known
                    == waits_for_one(pid, children),
            }
        }),
{
    let me: usize = kernel.current_task().unwrap();
    let ghost p = me as int;
    assert(kernel.has(p));
    let task: &TaskControlBlock = kernel.tasks[me].as_ref().unwrap();
    let ghost children = task.inner.children@;
    let mut known: bool = false;
    let mut i: usize = 0;
    while i < task.inner.children.len()
        invariant
            i <= children.len(),
            kernel.family_ok(),
            p == cur(kernel),
            kernel.has(p),
            task == kernel.task(p),
            children == task.inner.children@,
            forall|j: int| 0 <= j < i ==> !is_dead(kernel, #[trigger] children[j], pid),
            known == exists|j: int| 0 <= j < i && waits_for(pid, #[trigger] children[j]),
        decreases children.len() - i,
    {
        let c: usize = task.inner.children[i];
        proof {
            assert(children.contains(c));
            assert(kernel.is_child(p, c as int));
            assert(kernel.has(c as int));
        }
        let wanted: bool = pid == -1 || pid as u64 == c as u64;
        assert(wanted == waits_for(pid, children[i as int]));
        if wanted {
            known = true;
            let child: &TaskControlBlock = kernel.tasks[c].as_ref().unwrap();
            if child.inner.is_zombie() {
                proof {
                    lemma_first_dead(kernel, children, pid, i as int);
                }
                return Ok(i);
            }
        }
        assert(!is_dead(kernel, children[i as int], pid));
        i += 1;
    }
    proof {
        lemma_first_dead(kernel, children, pid, i as int);
    }
    Err(known)
}

/// Whether a child of the process that runs is waited for and has ended.
pub fn has_dead_child<D: BlockDevice>(pid: i64, kernel: &Kernel<D>) -> (r: bool)
    requires
        active(kernel),
    ensures
        ({
            let children = kernel.inner(cur(kernel)).children@;
            r == (first_dead(kernel, children, pid) < children.len())
        }),
{
    look_for_child(pid, kernel).is_ok()
}

/// The process that runs has no child `i` any more. What the child had is free, and its exit code is
/// at `ptr`.
pub open spec fn reaped<D: BlockDevice>(k0: &Kernel<D>, k1: &Kernel<D>, i: int, ptr: u64) -> bool {
    let p = cur(k0);
    let children = k0.inner(p).children@;
    let c = children[i] as int;
    let at = cell(k0.shared.memory@, k0.space(p).root(), ptr);
    &&& k1.tasks@ == k0.tasks@.update(p, Some(k1.task(p))).update(c, None)
    &&& k1.inner(p).children@ == children.remove(i)
    &&& k1.task(p) == (TaskControlBlock {
        inner: TaskControlBlockInner { children: k1.inner(p).children, ..k0.inner(p) },
        ..k0.task(p)
    })
    // the numbers
    &&& k1.shared.pids.next() == k0.shared.pids.next()
    &&& k1.shared.pids.returned() == k0.shared.pids.returned().push(c as usize)
    &&& k1.shared.kstacks.next() == k0.shared.kstacks.next()
    &&& k1.shared.kstacks.returned() == k0.shared.kstacks.returned().push(
        k0.task(c).kernel_stack.0,
    )
    &&& forall|id: int| #[trigger]
        k1.shared.pids.in_use(id) == (id != c && k0.shared.pids.in_use(id))
    &&& forall|id: int| #[trigger]
        k1.shared.kstacks.in_use(id) == (id != k0.task(c).kernel_stack.0
            && k0.shared.kstacks.in_use(id))
    &&& k1.shared.entry == k0.shared.entry
    // memory
    &&& k1.shared.memory@[at.0] == splice(
        k0.shared.memory@[at.0],
        at.1,
        u32_bytes(k0.inner(c).exit_code as u32),
    )
    &&& forall|q: int| #[trigger]
        k0.space(p).owned().contains(q) && q != at.0 ==> k1.shared.memory@[q] == k0.shared.memory@[q]
    &&& k0.space(c).owned().subset_of(k1.shared.memory.free())
    &&& only(
        &k0.shared.memory,
        &k1.shared.memory,
        k0.space(p).owned().union(k0.shared.kernel_space.owned().union(k0.space(c).owned())),
        k0.space(p).owned().union(k1.shared.kernel_space.owned()),
    )
}

/// What a wait leads to.
pub open spec fn waited<D: BlockDevice>(
    k0: &Kernel<D>,
    k1: &Kernel<D>,
    pid: i64,
    exit_code_ptr: u64,
    r: i64,
) -> bool {
    let children = k0.inner(cur(k0)).children@;
    let i = first_dead(k0, children, pid);
    if !waits_for_one(pid, children) {
        r == -1 && k1.tasks@ == k0.tasks@ && k1.shared == k0.shared
    } else if i == children.len() {
        r == -2 && k1.tasks@ == k0.tasks@ && k1.shared == k0.shared
    } else {
        r == children[i] as i64 && reaped(k0, k1, i, exit_code_ptr)
    }
}

/// Waits for a child that has ended: process `pid`, or any if it is -1. Returns the number of the
/// child and stores its exit code at `exit_code_ptr`; what it had is given back. Returns -1 if there
/// is no such child, -2 if there is one and it has not ended.
pub fn sys_waitpid<D: BlockDevice>(pid: i64, exit_code_ptr: u64, kernel: &mut Kernel<D>) -> (r: i64)
    requires
        active(old(kernel)),
        ({
            let k = *old(kernel);
            let children = k.inner(cur(&k)).children@;
            first_dead(&k, children, pid) < children.len() ==> framed(
                &k.space(cur(&k)),
                exit_code_ptr,
            ) && exit_code_ptr % 4 == 0
        }),
    ensures
        final(kernel).wf(),
        final(kernel).manager == old(kernel).manager,
        final(kernel).processor == old(kernel).processor,
        final(kernel).fs == old(kernel).fs,
        final(kernel).open_files == old(kernel).open_files,
        waited(old(kernel), final(kernel), pid, exit_code_ptr, r),
        pid >= 0 ==> {
            let k0 = *old(kernel);
            let children = k0.inner(cur(&k0)).children@;
            &&& r >= 0 ==> r == pid
            &&& r == -1 <==> forall|j: int|
                0 <= j < children.len() ==> #[trigger] children[j] as int != pid
            &&& r == -2 <==> exists|j: int|
                0 <= j < children.len() && #[trigger] children[j] as int == pid && k0.inner(
                    pid as int,
                ).task_status != TaskStatus::Zombie
        },
        pid == -1 ==> {
            let k0 = *old(kernel);
            let children = k0.inner(cur(&k0)).children@;
            &&& children.len() == 0 ==> r == -1
            &&& children.len() > 0 && (forall|j: int|
                0 <= j < children.len() ==> k0.inner(
                    #[trigger] children[j] as int,
                ).task_status != TaskStatus::Zombie) ==> r == -2
        },
        pid < -1 ==> {
            let k0 = *old(kernel);
            let children = k0.inner(cur(&k0)).children@;
            (forall|j: int| 0 <= j < children.len() ==> #[trigger] children[j] <= i64::MAX) ==> r == -1
        },
{
    let ghost k0 = *kernel;
    proof {
        lemma_waits(&k0, k0.inner(cur(&k0)).children@, pid);
    }
    match look_for_child(pid, kernel) {
        Ok(i) => {
            proof {
                let children = kernel.inner(cur(kernel)).children@;
                assert(waits_for(pid, children[i as int]));
            }
            reap(i, exit_code_ptr, kernel) as i64
        },
        Err(known) => if known {
            -2
        } else {
            -1
        },
    }
}

/// For whom a wait looks among some children.
proof fn lemma_waits<D: BlockDevice>(k: &Kernel<D>, children: Seq<usize>, pid: i64)
    ensures
        ({
            let i = first_dead(k, children, pid);
            &&& 0 <= i <= children.len()
            &&& i < children.len() ==> is_dead(k, children[i], pid)
            &&& forall|j: int| 0 <= j < i ==> !is_dead(k, #[trigger] children[j], pid)
        }),
        pid >= 0 ==> forall|c: usize| #[trigger] waits_for(pid, c) == (pid == c),
        pid == -1 ==> forall|c: usize| #[trigger] waits_for(pid, c),
        pid < -1 ==> forall|c: usize| #[trigger] waits_for(pid, c) ==> c > i64::MAX,
    decreases children.len(),
{
    assert(pid < 0 ==> pid as u64 > 0x7fff_ffff_ffff_ffff) by (bit_vector);
    if children.len() > 0 && !is_dead(k, children[0], pid) {
        let t = children.drop_first();
        lemma_waits(k, t, pid);
        let i = first_dead(k, t, pid);
        assert forall|j: int| 0 <= j < i + 1 implies !is_dead(k, #[trigger] children[j], pid) by {
            if j > 0 {
                assert(t[j - 1] == children[j]);
            }
        }
    }
}

/// A wait for a process takes that very child. Where the process that waits has no child of that
/// number, it returns -1; where that child has not ended, it returns -2; either way nothing changes.
/// Where it has ended, the number itself is returned, the child is gone, the exit code of that child
/// is where the process asked for it, the lowest byte first, and all other processes and children are
/// as before.
#[verifier::rlimit(40)]
pub proof fn law_wait_takes_the_child_asked_for<D: BlockDevice>(
    k0: &Kernel<D>,
    k1: &Kernel<D>,
    pid: i64,
    ptr: u64,
    r: i64,
)
    requires
        active(k0),
        k1.wf(),
        pid >= 0,
        framed(&k0.space(cur(k0)), ptr),
        ptr % 4 == 0,
        waited(k0, k1, pid, ptr, r),
    ensures
        ({
            let me = cur(k0);
            let children = k0.inner(me).children@;
            &&& (forall|j: int| 0 <= j < children.len() ==> #[trigger] children[j] as int != pid)
                ==> r == -1 && k1.tasks@ == k0.tasks@ && k1.shared == k0.shared
            &&& forall|j: int|
                0 <= j < children.len() && #[trigger] children[j] as int == pid ==> if k0.inner(
                    pid as int,
                ).task_status != TaskStatus::Zombie {
                    r == -2 && k1.tasks@ == k0.tasks@ && k1.shared == k0.shared
                } else {
                    &&& r == pid
                    &&& !k1.has(pid as int)
                    &&& k1.inner(me).children@ == children.remove(j)
                    &&& code_at(k1, me, ptr, k0.inner(pid as int).exit_code)
                    &&& forall|i: int| #[trigger]
                        k0.has(i) && i != pid && i != me ==> k1.has(i) && k1.task(i) == k0.task(i)
                }
        }),
{
    let me = cur(k0);
    let children = k0.inner(me).children@;
    lemma_waits(k0, children, pid);
    assert(k0.has(me));
    assert forall|j: int| 0 <= j < children.len() && #[trigger] children[j] as int == pid implies
        if k0.inner(pid as int).task_status != TaskStatus::Zombie {
            r == -2 && k1.tasks@ == k0.tasks@ && k1.shared == k0.shared
        } else {
            &&& r == pid
            &&& !k1.has(pid as int)
            &&& k1.inner(me).children@ == children.remove(j)
            &&& code_at(k1, me, ptr, k0.inner(pid as int).exit_code)
            &&& forall|i: int| #[trigger]
                k0.has(i) && i != pid && i != me ==> k1.has(i) && k1.task(i) == k0.task(i)
        } by {
        assert(waits_for(pid, children[j]));
        let i = first_dead(k0, children, pid);
        if k0.inner(pid as int).task_status != TaskStatus::Zombie {
            if i < children.len() {
                assert(children[i] == children[j]);
            }
        } else {
            if i > j {
                assert(is_dead(k0, children[j], pid));
            }
            assert(i < children.len());
            assert(is_dead(k0, children[i], pid));
            assert(children[i] == children[j] && i == j) by {
                assert(children.no_duplicates());
            }
            lemma_code_at(k0, k1, i, ptr);
            assert(children.contains(children[j]));
            assert(k0.is_child(me, pid as int));
            assert forall|i: int| #[trigger] k0.has(i) && i != pid && i != me implies k1.has(i)
                && k1.task(i) == k0.task(i) by {}
        }
    }
}

/// A wait for any child returns -1 where there are no children, and -2 where there are some and none
/// of them has ended. Nothing changes.
pub proof fn law_wait_for_any_needs_one_that_ended<D: BlockDevice>(
    k0: &Kernel<D>,
    k1: &Kernel<D>,
    any: i64,
    ptr: u64,
    r: i64,
)
    requires
        any == -1,
        waited(k0, k1, any, ptr, r),
        ({
            let children = k0.inner(cur(k0)).children@;
            forall|j: int|
                0 <= j < children.len() ==> k0.inner(#[trigger] children[j] as int).task_status
                    != TaskStatus::Zombie
        }),
    ensures
        r == (if k0.inner(cur(k0)).children@.len() == 0 {
            -1int
        } else {
            -2
        }),
        k1.tasks@ == k0.tasks@,
        k1.shared == k0.shared,
{
    let children = k0.inner(cur(k0)).children@;
    lemma_waits(k0, children, any);
    if children.len() > 0 {
        assert(waits_for(any, children[0]));
    }
}

/// A wait for any child takes the first one that has ended: its number is returned, it is gone, and
/// its exit code is where the process asked for it.
#[verifier::rlimit(40)]
pub proof fn law_wait_for_any_takes_the_first_that_ended<D: BlockDevice>(
    k0: &Kernel<D>,
    k1: &Kernel<D>,
    any: i64,
    ptr: u64,
    r: i64,
    i: int,
)
    requires
        any == -1,
        active(k0),
        k1.wf(),
        framed(&k0.space(cur(k0)), ptr),
        ptr % 4 == 0,
        waited(k0, k1, any, ptr, r),
        ({
            let children = k0.inner(cur(k0)).children@;
            &&& 0 <= i < children.len()
            &&& k0.inner(children[i] as int).task_status == TaskStatus::Zombie
            &&& forall|j: int|
                0 <= j < i ==> k0.inner(#[trigger] children[j] as int).task_status
                    != TaskStatus::Zombie
        }),
    ensures
        ({
            let me = cur(k0);
            let children = k0.inner(me).children@;
            &&& r == children[i] as i64
            &&& !k1.has(children[i] as int)
            &&& k1.inner(me).children@ == children.remove(i)
            &&& code_at(k1, me, ptr, k0.inner(children[i] as int).exit_code)
        }),
{
    let me = cur(k0);
    let children = k0.inner(me).children@;
    assert(k0.has(me));
    assert(waits_for(any, children[i]));
    lemma_first_dead(k0, children, any, i);
    lemma_code_at(k0, k1, i, ptr);
    assert(children.contains(children[i]));
    assert(k0.is_child(me, children[i] as int));
}

/// No process has a negative number: a wait for one returns -1, and nothing changes.
pub proof fn law_wait_for_a_negative_number<D: BlockDevice>(
    k0: &Kernel<D>,
    k1: &Kernel<D>,
    pid: i64,
    ptr: u64,
    r: i64,
)
    requires
        pid < -1,
        waited(k0, k1, pid, ptr, r),
        ({
            let children = k0.inner(cur(k0)).children@;
            forall|j: int| 0 <= j < children.len() ==> #[trigger] children[j] <= i64::MAX
        }),
    ensures
        r == -1,
        k1.tasks@ == k0.tasks@,
        k1.shared == k0.shared,
{
    lemma_waits(k0, k0.inner(cur(k0)).children@, pid);
}

/// The four bytes at an address of process `pid` are those of an exit code, the lowest byte first; the
/// code is taken as its remainder by 2 to the power of 32.
pub open spec fn code_at<D: BlockDevice>(k: &Kernel<D>, pid: int, ptr: u64, code: i32) -> bool {
    let m = k.shared.memory@;
    let root = k.space(pid).root();
    user_byte(m, root, ptr) + 0x100 * user_byte(m, root, (ptr + 1) as u64) + 0x1_0000 * user_byte(
        m,
        root,
        (ptr + 2) as u64,
    ) + 0x100_0000 * user_byte(m, root, (ptr + 3) as u64) == code as int % 0x1_0000_0000
}

/// The exit code is where the parent asked for it.
#[verifier::rlimit(40)]
proof fn lemma_code_at<D: BlockDevice>(k0: &Kernel<D>, k1: &Kernel<D>, i: int, ptr: u64)
    requires
        active(k0),
        k1.wf(),
        0 <= i < k0.inner(cur(k0)).children@.len(),
        framed(&k0.space(cur(k0)), ptr),
        ptr % 4 == 0,
        reaped(k0, k1, i, ptr),
    ensures
        code_at(
            k1,
            cur(k0),
            ptr,
            k0.inner(k0.inner(cur(k0)).children@[i] as int).exit_code,
        ),
{
    let me = cur(k0);
    let ms = k0.space(me);
    let m0 = k0.shared.memory;
    let m1 = k1.shared.memory;
    let c = k0.inner(me).children@[i] as int;
    assert(k0.has(me));
    assert(k0.inner(me).children@.contains(c as usize));
    assert(k0.is_child(me, c));
    lemma_framed(&ms, &m0, ptr);
    ms.lemma_wf(&m0);
    let at = cell(m0@, ms.root(), ptr);
    let v = va_of(ptr) / 4096;
    assert(leaf(m1@, ms.root(), v) == leaf(m0@, ms.root(), v)) by {
        assert forall|p: int| #[trigger] ms.page_table.tables().contains(p) implies m1@[p]
            == m0@[p] by {
            assert(ms.owned().contains(p));
        }
        lemma_same_tree(m0@, m1@, ms.root(), ms.page_table.tables());
    }
    let code = k0.inner(c).exit_code;
    let bytes = u32_bytes(code as u32);
    lemma_code_bytes(code);
    assert(m1@[at.0] == splice(m0@[at.0], at.1, bytes));
    assert forall|j: int| 0 <= j < 4 implies #[trigger] user_byte(m1@, ms.root(), (ptr + j) as u64)
        == bytes[j] by {
        lemma_in_word(ptr, j);
    }
    assert(user_byte(m1@, ms.root(), (ptr + 0) as u64) == bytes[0]);
    assert(user_byte(m1@, ms.root(), (ptr + 1) as u64) == bytes[1]);
    assert(user_byte(m1@, ms.root(), (ptr + 2) as u64) == bytes[2]);
    assert(user_byte(m1@, ms.root(), (ptr + 3) as u64) == bytes[3]);
    assert(k1.space(me) == ms);
}

/// The bytes of an exit code.
proof fn lemma_code_bytes(code: i32)
    ensures
        ({
            let bytes = u32_bytes(code as u32);
            bytes.len() == 4 && bytes[0] + 0x100 * bytes[1] + 0x1_0000 * bytes[2] + 0x100_0000
                * bytes[3] == code as int % 0x1_0000_0000
        }),
{
    reveal(u32_bytes);
    assert(code >= 0 ==> code as u32 == code) by (bit_vector);
    assert(code < 0 ==> code as u32 == code + 0x1_0000_0000) by (bit_vector);
}

/// Where the bytes of an aligned integer of four bytes lie.
proof fn lemma_in_word(ptr: u64, j: int)
    requires
        ptr % 4 == 0,
        0 <= j < 4,
    ensures
        ptr + j <= u64::MAX,
        va_of((ptr + j) as u64) / 4096 == va_of(ptr) / 4096,
        va_of((ptr + j) as u64) % 4096 == va_of(ptr) % 4096 + j,
        va_of(ptr) % 4096 + 4 <= 4096,
{
    let k = j as u64;
    assert(ptr <= 0xffff_ffff_ffff_fffc) by (bit_vector)
        requires
            ptr % 4 == 0,
    ;
    let next = (ptr + k) as u64;
    assert(next % 0x80_0000_0000 / 4096 == ptr % 0x80_0000_0000 / 4096 && next % 0x80_0000_0000 % 4096
        == ptr % 0x80_0000_0000 % 4096 + k && ptr % 0x80_0000_0000 % 4096 <= 4092) by (bit_vector)
        requires
            ptr % 4 == 0,
            k < 4,
            ptr <= 0xffff_ffff_ffff_fffc,
            next == ptr + k,
    ;
}

/// Gives back what child `i` of the process that runs had, which has ended, and stores its exit code.
/// Returns its number.
fn reap<D: BlockDevice>(i: usize, exit_code_ptr: u64, kernel: &mut Kernel<D>) -> (r: usize)
    requires
        active(old(kernel)),
        ({
            let k = *old(kernel);
            let children = k.inner(cur(&k)).children@;
            &&& i < children.len()
            &&& k.inner(children[i as int] as int).task_status == TaskStatus::Zombie
            &&& framed(&k.space(cur(&k)), exit_code_ptr)
            &&& exit_code_ptr % 4 == 0
        }),
    ensures
        final(kernel).wf(),
        final(kernel).manager == old(kernel).manager,
        final(kernel).processor == old(kernel).processor,
        final(kernel).fs == old(kernel).fs,
        final(kernel).open_files == old(kernel).open_files,
        r == old(kernel).inner(cur(old(kernel))).children@[i as int],
        reaped(old(kernel), final(kernel), i as int, exit_code_ptr),
{
    let ghost k0 = *kernel;
    let me: usize = kernel.current_task().unwrap();
    let ghost p = me as int;
    assert(k0.has(p));
    assert(k0.inner(p).task_status == TaskStatus::Running);
    let mut task: TaskControlBlock = kernel.take_task(me);
    let ghost children = task.inner.children@;
    let ghost c = children[i as int] as int;
    proof {
        assert(children.contains(children[i as int]));
        assert(k0.is_child(p, c));
        assert(k0.has(c) && c != p);
    }
    let found: usize = task.inner.children.remove(i);
    let child: TaskControlBlock = kernel.take_task(found);
    let ghost m0 = k0.shared.memory;
    let ghost ms = k0.space(p);
    proof {
        ms.lemma_wf(&m0);
        ms.page_table.lemma_walkable(&m0);
        lemma_framed(&ms, &m0, exit_code_ptr);
        assert((0x8000_0000_0000_0000 + ms.root()) % 0x1000_0000_0000 == ms.root());
    }
    let token: u64 = task.inner.memory_set.token();
    write_user_i32(token, exit_code_ptr, child.inner.exit_code, &mut kernel.shared.memory);
    let ghost s1 = kernel.shared;
    proof {
        assert(s1.memory@.dom() =~= m0@.dom());
        lemma_pages_changed(&ms, &m0, &s1.memory);
        lemma_shared_kept(&k0.shared, &s1, ms.owned(), ms.owned());
        lemma_bystander(&k0.space(c), &m0, &s1.memory, ms.owned(), ms.owned());
    }
    child.release(&mut kernel.shared);
    kernel.put_task(me, task);
    proof {
        assert(kernel.tasks@ =~= k0.tasks@.update(p, Some(kernel.task(p))).update(c, None));
        lemma_only_then(
            &m0,
            &s1.memory,
            &kernel.shared.memory,
            ms.owned(),
            ms.owned(),
            s1.kernel_space.owned().union(k0.space(c).owned()),
            kernel.shared.kernel_space.owned(),
        );
        lemma_reaped(&k0, &s1.memory, kernel, i as int, exit_code_ptr);
    }
    found
}

/// A kernel with the same parts is in order.
pub proof fn lemma_same<D: BlockDevice>(k0: &Kernel<D>, k1: &Kernel<D>)
    requires
        k0.wf(),
        k1.tasks@ == k0.tasks@,
        k1.shared == k0.shared,
        k1.manager == k0.manager,
        k1.processor == k0.processor,
        k1.fs == k0.fs,
        k1.open_files == k0.open_files,
    ensures
        k1.wf(),
{
    assert forall|j: int| #[trigger] k1.has(j) == k0.has(j) by {}
    assert forall|j: int| #[trigger] k1.task(j) == k0.task(j) by {}
    assert(k1.spaces_ok()) by {
        assert forall|j: int| #[trigger] k1.has(j) implies k0.has(j) by {}
    }
    lemma_family_kept(k0, k1);
    assert forall|j: int, fd: int|
        #![trigger k1.inner(j).fd_table@[fd]]
        k1.has(j) && 0 <= fd < k1.inner(j).fd_table@.len() implies k1.file_ok(
        k1.inner(j).fd_table@[fd],
    ) by {
        assert(k0.file_ok(k0.inner(j).fd_table@[fd]));
    }
}

/// The kernel is in order without a child that had ended.
proof fn lemma_reaped<D: BlockDevice>(
    k0: &Kernel<D>,
    m1: &Memory,
    k1: &Kernel<D>,
    i: int,
    ptr: u64,
)
    requires
        active(k0),
        0 <= i < k0.inner(cur(k0)).children@.len(),
        k0.inner(k0.inner(cur(k0)).children@[i] as int).task_status == TaskStatus::Zombie,
        k1.shared.wf(),
        reaped(k0, k1, i, ptr),
        k1.manager == k0.manager,
        k1.processor == k0.processor,
        k1.fs == k0.fs,
        k1.open_files == k0.open_files,
        k0.space(cur(k0)).wf(m1),
        areas_only(&k0.space(cur(k0)), m1),
        only(&k0.shared.memory, m1, k0.space(cur(k0)).owned(), k0.space(cur(k0)).owned()),
        only(
            m1,
            &k1.shared.memory,
            k0.shared.kernel_space.owned().union(
                k0.space(k0.inner(cur(k0)).children@[i] as int).owned(),
            ),
            k1.shared.kernel_space.owned(),
        ),
    ensures
        k1.wf(),
{
    let p = cur(k0);
    let ms = k0.space(p);
    let children = k0.inner(p).children@;
    let c = children[i] as int;
    let own0 = k0.shared.kernel_space.owned().union(k0.space(c).owned());
    let own1 = k1.shared.kernel_space.owned();
    assert(k0.has(p));
    assert(children.contains(children[i]));
    assert(k0.is_child(p, c));
    assert(k0.has(c) && c != p && c != IDLE_PID);
    assert forall|j: int| #[trigger] k1.has(j) == (j != c && k0.has(j)) by {}
    assert forall|j: int| #[trigger] k1.has(j) && j != p implies k1.task(j) == k0.task(j) by {}
    assert forall|j: int| #[trigger] k1.has(j) implies {
        &&& k1.space(j).wf(&k1.shared.memory)
        &&& k1.space(j).owned().disjoint(k1.shared.kernel_space.owned())
        &&& k1.inner(j).task_status != TaskStatus::Zombie ==> k1.inner(j).loaded(
            &k1.shared.memory,
        )
    } by {
        assert(k0.has(j));
        assert(k1.space(j) == k0.space(j));
        if j != p {
            lemma_bystander(&k0.space(j), &k0.shared.memory, m1, ms.owned(), ms.owned());
        }
        assert(k0.space(j).owned().disjoint(own0));
        lemma_bystander(&k0.space(j), m1, &k1.shared.memory, own0, own1);
    }
    assert forall|a: int, b: int| #[trigger]
        k1.has(a) && #[trigger] k1.has(b) && a != b implies k1.space(a).owned().disjoint(
        k1.space(b).owned(),
    ) by {
        assert(k0.has(a) && k0.has(b));
    }
    assert(k1.spaces_ok());
    assert(k1.numbers_ok()) by {
        assert forall|j: int| #[trigger] k1.has(j) == k1.shared.pids.in_use(j) by {
            assert(k0.has(j) == k0.shared.pids.in_use(j));
        }
        assert forall|j: int| #[trigger] k1.has(j) implies k1.task(j).pid.0 == j
            && k1.shared.kstacks.in_use(k1.task(j).kernel_stack.0 as int) by {
            assert(k0.has(j));
        }
        assert forall|a: int, b: int| #[trigger]
            k1.has(a) && #[trigger] k1.has(b) && a != b implies k1.task(a).kernel_stack.0
            != k1.task(b).kernel_stack.0 by {
            assert(k0.has(a) && k0.has(b));
        }
    }
    lemma_reaped_family(k0, k1, i);
    assert(k1.priorities_ok()) by {
        assert forall|j: int| #[trigger] k1.has(j) implies k1.inner(j).priority >= 2 by {
            assert(k0.has(j));
        }
    }
    assert(k1.queue_ok()) by {
        let queue = k1.manager.queue();
        assert(!queue.contains(c as usize));
        assert forall|j: int| 0 <= j < queue.len() implies k1.has(#[trigger] queue[j] as int) by {
            assert(k0.has(queue[j] as int));
            assert(queue.contains(queue[j]));
        }
        assert forall|j: int| #[trigger] k1.has(j) implies {
            &&& (k1.inner(j).task_status == TaskStatus::Ready) == queue.contains(j as usize)
            &&& (k1.inner(j).task_status == TaskStatus::Running) == (k1.processor.running() == Some(
                j as usize,
            ))
            &&& k1.inner(j).task_status != TaskStatus::UnInit
        } by {
            assert(k0.has(j));
        }
    }
    assert forall|j: int, fd: int|
        #![trigger k1.inner(j).fd_table@[fd]]
        k1.has(j) && 0 <= fd < k1.inner(j).fd_table@.len() implies k1.file_ok(
        k1.inner(j).fd_table@[fd],
    ) by {
        assert(k0.has(j));
        assert(k0.file_ok(k0.inner(j).fd_table@[fd]));
    }
}

/// Families are in order without a child that had ended.
proof fn lemma_reaped_family<D: BlockDevice>(k0: &Kernel<D>, k1: &Kernel<D>, i: int)
    requires
        active(k0),
        0 <= i < k0.inner(cur(k0)).children@.len(),
        k0.inner(k0.inner(cur(k0)).children@[i] as int).task_status == TaskStatus::Zombie,
        forall|j: int| #[trigger]
            k1.has(j) == (j != k0.inner(cur(k0)).children@[i] && k0.has(j)),
        forall|j: int| #[trigger] k1.has(j) && j != cur(k0) ==> k1.task(j) == k0.task(j),
        k1.inner(cur(k0)).children@ == k0.inner(cur(k0)).children@.remove(i),
        k1.inner(cur(k0)).parent == k0.inner(cur(k0)).parent,
        k1.inner(cur(k0)).task_status == k0.inner(cur(k0)).task_status,
    ensures
        k1.family_ok(),
{
    let p = cur(k0);
    let children = k0.inner(p).children@;
    let rest = k1.inner(p).children@;
    let c = children[i] as int;
    assert(k0.has(p) && k0.has(0));
    assert(children.contains(children[i]));
    assert(k0.is_child(p, c));
    assert(k0.has(c) && c != p && c != IDLE_PID);
    lemma_taken(children, i);
    assert(k1.has(0));
    assert forall|q: int| #[trigger] k1.has(q) implies k1.inner(q).children@.no_duplicates()
        && k1.inner(q).parent != Some(q as usize) by {
        assert(k0.has(q));
    }
    assert forall|q: int, x: int| k1.has(q) && #[trigger] k1.is_child(q, x) implies k1.has(x)
        && k1.inner(x).parent == Some(q as usize) by {
        assert(k0.has(q));
        if q == p {
            assert(x as usize != c as usize);
            assert(children.contains(x as usize));
        }
        assert(k0.is_child(q, x));
        assert(k0.has(x));
        assert(x != c) by {
            if x == c && q != p {
                assert(k0.inner(c).parent == Some(q as usize));
                assert(k0.inner(c).parent == Some(p as usize));
            }
        }
        assert(k1.has(x));
    }
    assert forall|x: int| #[trigger] k1.has(x) && x != IDLE_PID implies {
        &&& k1.inner(x).parent is Some
        &&& k1.has(k1.inner(x).parent->0 as int)
        &&& k1.is_child(k1.inner(x).parent->0 as int, x)
    } by {
        assert(k0.has(x));
        let q = k0.inner(x).parent->0 as int;
        assert(k0.has(q) && k0.is_child(q, x));
        assert(q != c);
        assert(k1.has(q));
        if q == p {
            assert(x as usize != c as usize);
            assert(rest.contains(x as usize));
        }
    }
    assert forall|q: int| #[trigger]
        k1.has(q) && k1.inner(q).task_status == TaskStatus::Zombie implies k1.inner(
        q,
    ).children@.len() == 0 by {
        assert(k0.has(q));
    }
}

} // verus!
