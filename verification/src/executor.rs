//! A cooperative executor's queue: tasks are polled in turn, and those not
//! finished go back in line in the same order.
use vstd::prelude::*;
use std::collections::VecDeque;

verus! {

/// The tasks that the outcomes `outs` keep, in order: those still pending.
pub open spec fn kept<T>(outs: Seq<Option<T>>) -> Seq<T>
    decreases outs.len(),
{
    if outs.len() == 0 {
        seq![]
    } else {
        let rest = kept(outs.drop_last());
        match outs.last() {
            Some(t) => rest.push(t),
            None => rest,
        }
    }
}

/// A queue of tasks run in turn.
pub struct SimpleExecutor<T> {
    task_queue: VecDeque<T>,
}

impl<T> View for SimpleExecutor<T> {
    type V = Seq<T>;

    closed spec fn view(&self) -> Seq<T> {
        self.task_queue@
    }
}

impl<T> SimpleExecutor<T> {
    pub fn new() -> (e: Self)
        ensures
            e@ == Seq::<T>::empty(),
    {
        SimpleExecutor { task_queue: VecDeque::new() }
    }

    /// Puts `task` at the end of the line.
    pub fn spawn(&mut self, task: T)
        ensures
            final(self)@ == old(self)@.push(task),
    {
        self.task_queue.push_back(task)
    }

    /// No task is waiting.
    pub fn is_idle(&self) -> (b: bool)
        ensures
            b == (self@.len() == 0),
    {
        self.task_queue.len() == 0
    }

    /// Polls every task once, in order: `poll` gives a task back while it is
    /// pending and nothing once it has finished; the pending ones stay, in order.
    pub fn run_ready_tasks<F: Fn(T) -> Option<T>>(&mut self, poll: &F)
        requires
            forall|t: T| call_requires(*poll, (t,)),
        ensures
            exists|outs: Seq<Option<T>>|
                {
                    &&& outs.len() == old(self)@.len()
                    &&& forall|i: int| 0 <= i < outs.len() ==> call_ensures(*poll, (old(self)@[i],), #[trigger] outs[i])
                    &&& final(self)@ == kept(outs)
                },
    {
        let ghost tasks = self.task_queue@;
        let ghost mut outs: Seq<Option<T>> = seq![];
        let mut remaining: VecDeque<T> = VecDeque::new();
        while self.task_queue.len() > 0
            invariant
                forall|t: T| call_requires(*poll, (t,)),
                outs.len() + self.task_queue@.len() == tasks.len(),
                self.task_queue@ == tasks.skip(outs.len() as int),
                forall|i: int| 0 <= i < outs.len() ==> call_ensures(*poll, (tasks[i],), #[trigger] outs[i]),
                remaining@ == kept(outs),
            decreases self.task_queue@.len(),
        {
            let task = self.task_queue.pop_front().unwrap();
            let ghost k = outs.len() as int;
            assert(task == tasks[k]);
            let out = poll(task);
            proof {
                assert(tasks.skip(k).drop_first() =~= tasks.skip(k + 1));
            }
            let ghost prev = outs;
            proof {
                outs = outs.push(out);
                assert(outs.drop_last() =~= prev);
            }
            match out {
                Some(t) => remaining.push_back(t),
                None => {},
            }
        }
        self.task_queue = remaining;
        assert(outs.len() == tasks.len());
    }
}

} // verus!
