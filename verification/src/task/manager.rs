use vstd::prelude::*;
use std::collections::VecDeque;

verus! {

/// A first-in first-out ready queue of tasks, each with its pid.
pub struct TaskManager<T> {
    ready_queue: VecDeque<(usize, T)>,
}

impl<T> TaskManager<T> {
    /// The queued tasks, first to run first.
    pub closed spec fn view(&self) -> Seq<(usize, T)> {
        self.ready_queue@
    }

    pub fn new() -> (r: TaskManager<T>)
        ensures
            r@ == Seq::<(usize, T)>::empty(),
    {
        TaskManager { ready_queue: VecDeque::new() }
    }

    /// Queues task `task` with pid `pid` last.
    pub fn add(&mut self, pid: usize, task: T)
        ensures
            final(self)@ == old(self)@.push((pid, task)),
    {
        self.ready_queue.push_back((pid, task));
    }

    /// Takes the first queued task.
    pub fn fetch(&mut self) -> (r: Option<(usize, T)>)
        ensures
            old(self)@.len() == 0 ==> r is None && final(self)@ == old(self)@,
            old(self)@.len() > 0 ==> r == Some(old(self)@[0]) && final(self)@ == old(self)@.drop_first(),
    {
        let r = self.ready_queue.pop_front();
        proof {
            if old(self)@.len() > 0 {
                assert(self@ =~= old(self)@.drop_first());
            }
        }
        r
    }

    /// The first queued task with pid `pid`, if any.
    pub fn find(&self, pid: usize) -> (r: Option<&T>)
        ensures
            (forall|k: int| 0 <= k < self@.len() ==> #[trigger] self@[k].0 != pid) ==> r is None,
            forall|k: int| 0 <= k < self@.len() && #[trigger] self@[k].0 == pid
                && (forall|j: int| 0 <= j < k ==> #[trigger] self@[j].0 != pid) ==> r == Some(&self@[k].1),
    {
        let mut i: usize = 0;
        while i < self.ready_queue.len()
            invariant
                i <= self@.len(),
                forall|j: int| 0 <= j < i ==> #[trigger] self@[j].0 != pid,
            decreases self@.len() - i,
        {
            if self.ready_queue[i].0 == pid {
                proof {
                    assert forall|k: int| 0 <= k < self@.len() && #[trigger] self@[k].0 == pid
                        && (forall|j: int| 0 <= j < k ==> #[trigger] self@[j].0 != pid) implies k == i by {
                        if k > i {
                            assert(self@[i as int].0 == pid);
                        }
                    }
                }
                return Some(&self.ready_queue[i].1);
            }
            i = i + 1;
        }
        None
    }

    /// Where the first queued task with pid `pid` stands, if any.
    pub fn position(&self, pid: usize) -> (r: Option<usize>)
        ensures
            r is None <==> forall|k: int| 0 <= k < self@.len() ==> #[trigger] self@[k].0 != pid,
            r matches Some(i) ==> i < self@.len() && self@[i as int].0 == pid
                && forall|j: int| 0 <= j < i ==> #[trigger] self@[j].0 != pid,
    {
        let mut i: usize = 0;
        while i < self.ready_queue.len()
            invariant
                i <= self@.len(),
                forall|j: int| 0 <= j < i ==> #[trigger] self@[j].0 != pid,
            decreases self@.len() - i,
        {
            if self.ready_queue[i].0 == pid {
                return Some(i);
            }
            i = i + 1;
        }
        None
    }

    /// Takes the queued task at `idx` out, the others keeping their order.
    pub fn take_at(&mut self, idx: usize) -> (r: (usize, T))
        requires
            idx < old(self)@.len(),
        ensures
            r == old(self)@[idx as int],
            final(self)@ == old(self)@.remove(idx as int),
    {
        let e = self.ready_queue.remove(idx);
        proof {
            assert(e is Some);
        }
        e.unwrap()
    }

    /// Puts `entry` back in the queue at `idx`.
    pub fn put_at(&mut self, idx: usize, entry: (usize, T))
        requires
            idx <= old(self)@.len(),
        ensures
            final(self)@ == old(self)@.insert(idx as int, entry),
    {
        self.ready_queue.insert(idx, entry);
    }

    /// Number of queued tasks.
    pub fn len(&self) -> (r: usize)
        ensures
            r == self@.len(),
    {
        self.ready_queue.len()
    }
}

} // verus!
