//! What the processor is doing.

use vstd::prelude::*;

use super::context::TaskContext;

verus! {

/// The process that runs, and the registers of the loop that looks for the next one.
pub struct Processor {
    current: Option<usize>,
    idle_task_cx: TaskContext,
}

impl Processor {
    /// The process that runs.
    pub closed spec fn running(&self) -> Option<usize> {
        self.current
    }

    /// The registers of the loop that looks for the next process.
    pub closed spec fn idle(&self) -> TaskContext {
        self.idle_task_cx
    }

    /// A processor that runs no process.
    pub fn new() -> (r: Self)
        ensures
            r.running() is None,
            r.idle().ra == 0,
            r.idle().sp == 0,
            r.idle().s@ == Seq::new(12, |i: int| 0u64),
    {
        Processor { current: None, idle_task_cx: TaskContext::zero_init() }
    }

    /// Takes the process away.
    pub fn take_current(&mut self) -> (r: Option<usize>)
        ensures
            r == old(self).running(),
            final(self).running() is None,
            final(self).idle() == old(self).idle(),
    {
        let r: Option<usize> = self.current;
        self.current = None;
        r
    }

    /// The process that runs.
    pub fn current(&self) -> (r: Option<usize>)
        ensures
            r == self.running(),
    {
        self.current
    }

    /// Lets a process run.
    pub fn set_current(&mut self, task: usize)
        ensures
            final(self).running() == Some(task),
            final(self).idle() == old(self).idle(),
    {
        self.current = Some(task);
    }
}

} // verus!
