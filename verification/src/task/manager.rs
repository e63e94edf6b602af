//! The processes that are ready to run.

use std::collections::VecDeque;
use vstd::prelude::*;

verus! {

/// The ready processes, in the order in which they became ready.
pub struct TaskManager {
    ready_queue: VecDeque<usize>,
}

impl TaskManager {
    /// The ready processes.
    pub closed spec fn queue(&self) -> Seq<usize> {
        self.ready_queue@
    }

    /// No process is ready.
    pub fn new() -> (r: Self)
        ensures
            r.queue() == Seq::<usize>::empty(),
    {
        TaskManager { ready_queue: VecDeque::new() }
    }

    /// Adds a process at the end.
    pub fn add(&mut self, task: usize)
        ensures
            final(self).queue() == old(self).queue().push(task),
    {
        self.ready_queue.push_back(task);
    }

    /// The number of ready processes.
    pub fn len(&self) -> (r: usize)
        ensures
            r == self.queue().len(),
    {
        self.ready_queue.len()
    }

    /// The process at a place of the queue.
    pub fn get(&self, i: usize) -> (r: usize)
        requires
            i < self.queue().len(),
        ensures
            r == self.queue()[i as int],
    {
        self.ready_queue[i]
    }

    /// Takes out the first of the processes with the smallest stride; `None` if no process is ready.
    /// `strides` are the strides of the ready processes, place by place.
    pub fn fetch(&mut self, strides: &Vec<i64>) -> (r: Option<usize>)
        requires
            strides@.len() == old(self).queue().len(),
        ensures
            ({
                let n = old(self).queue().len();
                let k = least_place(strides@);
                match r {
                    Some(task) => n > 0 && task == old(self).queue()[k] && final(self).queue()
                        == old(self).queue().remove(k),
                    None => n == 0 && final(self).queue() == old(self).queue(),
                }
            }),
    {
        if strides.len() == 0 {
            return None;
        }
        let ghost list = strides@;
        let mut place: usize = 0;
        let mut i: usize = 1;
        proof {
            assert(list.take(1).drop_last() =~= Seq::empty());
        }
        while i < strides.len()
            invariant
                1 <= i <= list.len(),
                list == strides@,
                place < i,
                place == least_place(list.take(i as int)),
            decreases list.len() - i,
        {
            assert(list.take(i + 1).drop_last() =~= list.take(i as int));
            if strides[i] < strides[place] {
                place = i;
            }
            i += 1;
        }
        assert(list.take(i as int) =~= list);
        self.ready_queue.remove(place)
    }
}

/// The first place of the smallest number in a list that is not empty.
pub open spec fn least_place(list: Seq<i64>) -> int
    decreases list.len(),
{
    if list.len() <= 1 {
        0
    } else {
        let k = least_place(list.drop_last());
        if list.last() < list[k] {
            list.len() - 1
        } else {
            k
        }
    }
}

/// What `least_place` finds: no number is smaller, and none before it is as small.
pub proof fn law_least_place(list: Seq<i64>)
    requires
        list.len() > 0,
    ensures
        0 <= least_place(list) < list.len(),
        forall|i: int| 0 <= i < list.len() ==> list[least_place(list)] <= #[trigger] list[i],
        forall|i: int| 0 <= i < least_place(list) ==> list[least_place(list)] < #[trigger] list[i],
    decreases list.len(),
{
    if list.len() > 1 {
        let t = list.drop_last();
        law_least_place(t);
        let k = least_place(t);
        let m = least_place(list);
        assert(t[k] == list[k]);
        assert forall|i: int| 0 <= i < list.len() implies list[m] <= #[trigger] list[i] by {
            if i < t.len() {
                assert(t[i] == list[i]);
            }
        }
        assert forall|i: int| 0 <= i < m implies list[m] < #[trigger] list[i] by {
            assert(t[i] == list[i]);
        }
    }
}

} // verus!
