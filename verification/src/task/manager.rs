//! The queue of the processes that are ready to run.

use vstd::prelude::*;
use std::collections::VecDeque;

verus! {

/// The ready queue: identifiers of runnable processes, first in, first out.
pub struct TaskManager {
    ready_queue: VecDeque<usize>,
}

impl View for TaskManager {
    type V = Seq<usize>;

    closed spec fn view(&self) -> Seq<usize> {
        self.ready_queue@
    }
}

impl TaskManager {
    pub fn new() -> (r: Self)
        ensures
            r@ == Seq::<usize>::empty(),
    {
        TaskManager { ready_queue: VecDeque::new() }
    }

    /// Appends process `task` to the queue.
    pub fn add(&mut self, task: usize)
        ensures
            final(self)@ == old(self)@.push(task),
    {
        self.ready_queue.push_back(task);
    }

    /// Takes the process at the head of the queue, if there is one.
    pub fn fetch(&mut self) -> (r: Option<usize>)
        ensures
            match r {
                Some(task) => old(self)@.len() > 0 && task == old(self)@[0] && final(self)@ == old(
                    self,
                )@.subrange(1, old(self)@.len() as int),
                None => old(self)@.len() == 0 && final(self)@ == old(self)@,
            },
    {
        self.ready_queue.pop_front()
    }

    pub fn len(&self) -> (r: usize)
        ensures
            r == self@.len(),
    {
        self.ready_queue.len()
    }
}

/// Appends process `task` to the ready queue.
pub fn add_task(manager: &mut TaskManager, task: usize)
    ensures
        final(manager)@ == old(manager)@.push(task),
{
    manager.add(task);
}

/// Takes the process at the head of the ready queue, if there is one.
pub fn fetch_task(manager: &mut TaskManager) -> (r: Option<usize>)
    ensures
        match r {
            Some(task) => old(manager)@.len() > 0 && task == old(manager)@[0] && final(manager)@
                == old(manager)@.subrange(1, old(manager)@.len() as int),
            None => old(manager)@.len() == 0 && final(manager)@ == old(manager)@,
        },
{
    manager.fetch()
}

} // verus!
