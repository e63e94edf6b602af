//! What the requests of processes mean. Each law speaks of a call that took the kernel from `k0` to
//! `k1`, and says what follows of the numbers that went in and came out, of processes, and of the
//! bytes and page table entries that programs and the machine see.

use vstd::bytes::{
    lemma_auto_spec_u64_to_from_le_bytes, spec_u64_from_le_bytes, spec_u64_to_le_bytes,
};
use vstd::prelude::*;

use super::process::{
    active, cur, sys_exit, sys_get_time, sys_getpid, sys_set_priority, sys_yield,
};
use super::wait::{
    code_at, law_wait_for_any_takes_the_first_that_ended, law_wait_takes_the_child_asked_for,
    sys_waitpid,
};
use crate::easy_fs::block_dev::BlockDevice;
use crate::kernel::state::Kernel;
use crate::kernel::user::{buffer_cells, buffer_ok, framed, law_process_finds_what_was_put};
use crate::mm::address::va_of;
use crate::mm::user::{put_bytes, user_byte};
use crate::task::task::TaskStatus;

verus! {

/// Who waits for a process gets that very child or none: -1 if it has no child of that number, -2 if
/// that child has not ended, and otherwise the number itself. Then the exit code of the child is where
/// it was asked for, and the child is gone.
#[verifier::rlimit(40)]
pub proof fn law_waitpid<D: BlockDevice>(
    k0: Kernel<D>,
    k1: Kernel<D>,
    pid: i64,
    ptr: u64,
    r: i64,
)
    requires
        exists|k: &mut Kernel<D>| #[trigger]
            call_ensures(sys_waitpid::<D>, (pid, ptr, k), r) && *k == k0 && *final(k) == k1,
        active(&k0),
        pid >= 0,
        framed(&k0.space(cur(&k0)), ptr),
        ptr % 4 == 0,
    ensures
        ({
            let me = cur(&k0);
            let children = k0.inner(me).children@;
            &&& (forall|j: int| 0 <= j < children.len() ==> #[trigger] children[j] as int != pid)
                ==> r == -1 && k1.tasks@ == k0.tasks@ && k1.shared == k0.shared
            &&& forall|j: int|
                0 <= j < children.len() && #[trigger] children[j] as int == pid ==> if k0.inner(
                    pid as int,
                ).task_status != TaskStatus::Zombie {
                    r == -2 && k1.tasks@ == k0.tasks@ && k1.shared == k0.shared
                } else {
                    &&& r == pid
                    &&& !k1.has(pid as int)
                    &&& k1.inner(me).children@ == children.remove(j)
                    &&& code_at(&k1, me, ptr, k0.inner(pid as int).exit_code)
                }
        }),
{
    law_wait_takes_the_child_asked_for(&k0, &k1, pid, ptr, r);
}

/// A process can set its priority to any number from 2 on, which is then returned. Smaller numbers are
/// refused with -1, and nothing changes.
pub proof fn law_set_priority<D: BlockDevice>(k0: Kernel<D>, k1: Kernel<D>, prio: i64, r: i64)
    requires
        exists|k: &mut Kernel<D>| #[trigger]
            call_ensures(sys_set_priority::<D>, (prio, k), r) && *k == k0 && *final(k) == k1,
        active(&k0),
    ensures
        prio >= 2 ==> r == prio && k1.inner(cur(&k0)).priority == prio,
        prio < 2 ==> r == -1 && k1 == k0,
        k1.inner(cur(&k0)).stride == k0.inner(cur(&k0)).stride,
        forall|j: int| #[trigger]
            k0.has(j) && j != cur(&k0) ==> k1.has(j) && k1.task(j) == k0.task(j),
{
}

/// A process that gives way is ready to run again, behind all others that are ready; nothing else has
/// changed.
pub proof fn law_yield<D: BlockDevice>(k0: Kernel<D>, k1: Kernel<D>, r: i64)
    requires
        exists|k: &mut Kernel<D>| #[trigger]
            call_ensures(sys_yield::<D>, (k,), r) && *k == k0 && *final(k) == k1,
        active(&k0),
    ensures
        r == 0,
        k1.inner(cur(&k0)).task_status == TaskStatus::Ready,
        k1.processor.running() is None,
        k1.manager.queue() == k0.manager.queue().push(cur(&k0) as usize),
        k1.inner(cur(&k0)).stride == k0.inner(cur(&k0)).stride,
        k1.inner(cur(&k0)).memory_set == k0.inner(cur(&k0)).memory_set,
        k1.shared == k0.shared,
        forall|j: int| #[trigger]
            k0.has(j) && j != cur(&k0) ==> k1.has(j) && k1.task(j) == k0.task(j),
{
}

/// A process learns its own number.
pub proof fn law_getpid<D: BlockDevice>(k: Kernel<D>, r: i64)
    requires
        call_ensures(sys_getpid::<D>, (&k,), r),
        active(&k),
    ensures
        k.processor.running() == Some(k.task(cur(&k)).pid.0),
        k.task(cur(&k)).pid.0 <= i64::MAX ==> r == k.task(cur(&k)).pid.0,
{
    assert(k.has(cur(&k)));
}

/// A process that ends is not forgotten before it is waited for: it stays with its exit code, and
/// its parent has it among its children. Its own children go to the first process, which has them
/// behind those that it had, and is their parent now. It holds no files and no pages but its page
/// table any more. All other processes are as before.
#[verifier::rlimit(40)]
pub proof fn law_exit<D: BlockDevice>(k0: Kernel<D>, k1: Kernel<D>, exit_code: i32, r: usize)
    requires
        exists|k: &mut Kernel<D>| #[trigger]
            call_ensures(sys_exit::<D>, (exit_code, k), r) && *k == k0 && *final(k) == k1,
        active(&k0),
        cur(&k0) != 0,
    ensures
        ({
            let me = cur(&k0);
            let parent = k0.inner(me).parent->0 as int;
            &&& r == me
            &&& k1.has(me)
            &&& k1.inner(me).task_status == TaskStatus::Zombie
            &&& k1.inner(me).exit_code == exit_code
            &&& k1.inner(me).children@.len() == 0
            &&& k1.inner(me).fd_table@.len() == 0
            &&& k1.inner(me).parent == Some(parent as usize)
            &&& k1.has(parent)
            &&& k1.inner(parent).children@.contains(me as usize)
            &&& k1.processor.running() is None
            &&& !k1.manager.queue().contains(me as usize)
            &&& forall|c: usize| #[trigger]
                k0.inner(me).children@.contains(c) ==> {
                    &&& k1.has(c as int)
                    &&& k1.inner(c as int).parent == Some(0usize)
                    &&& k1.inner(0).children@.contains(c)
                    &&& k1.inner(c as int).task_status == k0.inner(c as int).task_status
                    &&& k1.inner(c as int).exit_code == k0.inner(c as int).exit_code
                    &&& k1.inner(c as int).memory_set == k0.inner(c as int).memory_set
                }
            &&& k1.inner(0).children@ == k0.inner(0).children@ + k0.inner(me).children@
            &&& forall|j: int| #[trigger]
                k0.has(j) && j != me && j != 0 && !k0.inner(me).children@.contains(j as usize)
                    ==> k1.has(j) && k1.task(j) == k0.task(j)
            &&& forall|p: int| #[trigger]
                k0.space(me).owned().contains(p) && !k0.space(me).page_table.tables().contains(p)
                    ==> k1.shared.memory.free().contains(p)
        }),
{
    let me = cur(&k0);
    let parent = k0.inner(me).parent->0 as int;
    assert(k0.has(me) && k1.has(me));
    assert(k0.inner(me).task_status == TaskStatus::Running);
    assert(k0.has(parent) && k0.is_child(parent, me));
    assert(k1.has(parent));
    assert(k0.has(0));
    assert(!k0.manager.queue().contains(me as usize));
    let before = k0.inner(parent).children@;
    assert(before.contains(me as usize));
    let mine = k0.inner(me).children@;
    let first = k0.inner(0).children@;
    assert(k1.inner(0).children@ == first + mine);
    assert(k1.inner(parent).children@.contains(me as usize)) by {
        let i = before.index_of(me as usize);
        if parent == 0 {
            assert(k1.inner(0).children@[i] == me as usize);
        } else {
            assert(k1.inner(parent).children == k0.inner(parent).children);
        }
    }
    assert forall|c: usize| #[trigger] mine.contains(c) implies {
        &&& k1.has(c as int)
        &&& k1.inner(c as int).parent == Some(0usize)
        &&& k1.inner(0).children@.contains(c)
        &&& k1.inner(c as int).task_status == k0.inner(c as int).task_status
        &&& k1.inner(c as int).exit_code == k0.inner(c as int).exit_code
        &&& k1.inner(c as int).memory_set == k0.inner(c as int).memory_set
    } by {
        assert(k0.is_child(me, c as int));
        assert(k0.has(c as int) && k1.has(c as int));
        assert(c != me && c != 0);
        let i = mine.index_of(c);
        assert(k1.inner(0).children@[first.len() + i] == c);
    }
}

/// The exit code that a process leaves is the one that its parent gets: whatever happens in between
/// to others, as long as the parent has the child as it was left, a wait for the child returns its
/// number and gives the code.
pub proof fn law_exit_code_reaches_the_parent<D: BlockDevice>(
    k0: Kernel<D>,
    k1: Kernel<D>,
    k2: Kernel<D>,
    k3: Kernel<D>,
    exit_code: i32,
    r1: usize,
    ptr: u64,
    r2: i64,
)
    requires
        exists|k: &mut Kernel<D>| #[trigger]
            call_ensures(sys_exit::<D>, (exit_code, k), r1) && *k == k0 && *final(k) == k1,
        active(&k0),
        cur(&k0) != 0,
        cur(&k0) <= i64::MAX,
        exists|k: &mut Kernel<D>| #[trigger]
            call_ensures(sys_waitpid::<D>, (r1 as i64, ptr, k), r2) && *k == k2 && *final(k) == k3,
        active(&k2),
        cur(&k2) == k0.inner(cur(&k0)).parent->0,
        k2.inner(cur(&k2)).children@.contains(r1),
        k2.task(r1 as int) == k1.task(r1 as int),
        framed(&k2.space(cur(&k2)), ptr),
        ptr % 4 == 0,
    ensures
        r2 == r1,
        code_at(&k3, cur(&k2), ptr, exit_code),
        !k3.has(r1 as int),
{
    law_exit(k0, k1, exit_code, r1);
    let children = k2.inner(cur(&k2)).children@;
    let j = children.index_of(r1);
    assert(children[j] as int == r1 as i64);
    law_waitpid(k2, k3, r1 as i64, ptr, r2);
}

/// The eight bytes at an address of a process, as a number with its lowest byte first.
pub open spec fn number_at<D: BlockDevice>(k: &Kernel<D>, pid: int, ptr: u64) -> u64 {
    spec_u64_from_le_bytes(
        Seq::new(
            8,
            |i: int| user_byte(k.shared.memory@, k.space(pid).root(), (ptr + i) as u64),
        ),
    )
}

/// The time that a process asks for: whole seconds first, then the microseconds that are left. Nothing
/// but these sixteen bytes has changed.
#[verifier::rlimit(40)]
pub proof fn law_get_time<D: BlockDevice>(k0: Kernel<D>, k1: Kernel<D>, ts: u64, us: u64, r: i64)
    requires
        exists|k: &mut Kernel<D>| #[trigger]
            call_ensures(sys_get_time::<D>, (ts, us, k), r) && *k == k0 && *final(k) == k1,
        active(&k0),
        buffer_ok(&k0.space(cur(&k0)), ts, 16),
    ensures
        r == 0,
        number_at(&k1, cur(&k0), ts) * 1_000_000 + number_at(&k1, cur(&k0), (ts + 8) as u64) == us,
        number_at(&k1, cur(&k0), (ts + 8) as u64) < 1_000_000,
        forall|va: u64|
            framed(&k0.space(cur(&k0)), va) && (forall|k: int|
                0 <= k < 16 ==> va_of(va) != va_of(#[trigger] ((ts + k) as u64)))
                ==> #[trigger] user_byte(k1.shared.memory@, k0.space(cur(&k0)).root(), va)
                == user_byte(k0.shared.memory@, k0.space(cur(&k0)).root(), va),
{
    let me = cur(&k0);
    let ms = k0.space(me);
    assert(k0.has(me));
    let sec = (us as int / 1_000_000) as u64;
    let usec = (us as int % 1_000_000) as u64;
    let data = spec_u64_to_le_bytes(sec) + spec_u64_to_le_bytes(usec);
    lemma_auto_spec_u64_to_from_le_bytes();
    assert(k1.shared.memory@ == put_bytes(
        k0.shared.memory@,
        buffer_cells(&ms, &k0.shared.memory, ts, 16),
        data,
        16,
    ));
    assert(k1.space(me) == ms);
    law_process_finds_what_was_put(&ms, &k0.shared.memory, &k1.shared.memory, ts, 16, data, 16);
    let m1 = k1.shared.memory@;
    let a = Seq::new(8, |i: int| user_byte(m1, ms.root(), (ts + i) as u64));
    let b = Seq::new(8, |i: int| user_byte(m1, ms.root(), ((ts + 8) as u64 + i) as u64));
    assert forall|i: int| 0 <= i < 8 implies #[trigger] a[i] == spec_u64_to_le_bytes(sec)[i] by {
        assert(user_byte(m1, ms.root(), (ts + i) as u64) == data[i]);
    }
    assert forall|i: int| 0 <= i < 8 implies #[trigger] b[i] == spec_u64_to_le_bytes(usec)[i] by {
        assert(user_byte(m1, ms.root(), (ts + (i + 8)) as u64) == data[i + 8]);
    }
    assert(a =~= spec_u64_to_le_bytes(sec));
    assert(b =~= spec_u64_to_le_bytes(usec));
}

/// Who waits for any child gets the first of its children that has ended, with its exit code; -1 if it
/// has no children, and -2 if none of them has ended.
#[verifier::rlimit(40)]
pub proof fn law_wait_for_any<D: BlockDevice>(k0: Kernel<D>, k1: Kernel<D>, any: i64, ptr: u64, r: i64)
    requires
        exists|k: &mut Kernel<D>| #[trigger]
            call_ensures(sys_waitpid::<D>, (any, ptr, k), r) && *k == k0 && *final(k) == k1,
        any == -1,
        active(&k0),
        framed(&k0.space(cur(&k0)), ptr),
        ptr % 4 == 0,
    ensures
        ({
            let me = cur(&k0);
            let children = k0.inner(me).children@;
            &&& children.len() == 0 ==> r == -1
            &&& children.len() > 0 && (forall|j: int|
                0 <= j < children.len() ==> k0.inner(
                    #[trigger] children[j] as int,
                ).task_status != TaskStatus::Zombie) ==> r == -2
            &&& forall|i: int|
                0 <= i < children.len() && k0.inner(#[trigger] children[i] as int).task_status
                    == TaskStatus::Zombie && (forall|j: int|
                    0 <= j < i ==> k0.inner(#[trigger] children[j] as int).task_status
                        != TaskStatus::Zombie) ==> r == children[i] as i64 && code_at(
                    &k1,
                    me,
                    ptr,
                    k0.inner(children[i] as int).exit_code,
                ) && !k1.has(children[i] as int)
        }),
{
    let me = cur(&k0);
    let children = k0.inner(me).children@;
    assert forall|i: int|
        0 <= i < children.len() && k0.inner(#[trigger] children[i] as int).task_status
            == TaskStatus::Zombie && (forall|j: int|
            0 <= j < i ==> k0.inner(#[trigger] children[j] as int).task_status
                != TaskStatus::Zombie) implies r == children[i] as i64 && code_at(
        &k1,
        me,
        ptr,
        k0.inner(children[i] as int).exit_code,
    ) && !k1.has(children[i] as int) by {
        law_wait_for_any_takes_the_first_that_ended(&k0, &k1, any, ptr, r, i);
    }
}

} // verus!
