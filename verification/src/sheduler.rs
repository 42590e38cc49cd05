//! Tasks that wait for their arguments, and the queue of tasks that are
//! ready to run.
//!
//! A task counts the arguments it still waits for. Each argument that
//! becomes available decrements the count; the argument that brings it from
//! one to zero puts the task on the work queue, from which workers take the
//! tasks to run, oldest first.

use vstd::prelude::*;
use crate::atomic_queue::{AtomicQueue, QueueElem};

verus! {

/// A task: the continuation that runs it, and the number of arguments it
/// still waits for.
pub struct VirtualTask {
    /// Designates the continuation to run, in the caller's table of
    /// continuations.
    pub callback: usize,
    /// The number of arguments the task still waits for.
    pub counter: usize,
}

/// The count after one decrement of `c`; the count wraps around as an
/// atomic counter does.
pub open spec fn decremented(c: usize) -> usize {
    if c == 0 {
        usize::MAX
    } else {
        (c - 1) as usize
    }
}

/// The task element `i` of `tasks` waits for exactly one argument.
pub open spec fn waits_for_one(tasks: Seq<QueueElem<VirtualTask>>, i: usize) -> bool {
    tasks[i as int].data.counter == 1
}

/// A task waits for exactly one argument when its count is one, and for
/// no other count: two or more missing arguments, or none, do not make it
/// ready at the next one.
pub proof fn lemma_waits_for_one_iff_count_one(tasks: Seq<QueueElem<VirtualTask>>, i: usize)
    requires
        i < tasks.len(),
    ensures
        waits_for_one(tasks, i) <==> tasks[i as int].data.counter == 1,
        tasks[i as int].data.counter >= 2 ==> !waits_for_one(tasks, i),
        tasks[i as int].data.counter == 0 ==> !waits_for_one(tasks, i),
{
}

/// The count after `k` decrements of `c`.
pub open spec fn decremented_times(c: usize, k: nat) -> usize
    decreases k,
{
    if k == 0 {
        c
    } else {
        decremented(decremented_times(c, (k - 1) as nat))
    }
}

/// A task that waits for `n` arguments readies once: of `n` decrements of
/// its count, the `k`-th sees `n - k`, so the last alone sees one, and the
/// count ends at zero.
pub proof fn lemma_last_argument_readies(n: usize, k: nat)
    requires
        1 <= n,
        k < n,
    ensures
        decremented_times(n, k) == n - k,
        (decremented_times(n, k) == 1) <==> k == n - 1,
        decremented_times(n, n as nat) == 0,
    decreases k,
{
    if k > 0 {
        lemma_last_argument_readies(n, (k - 1) as nat);
    }
    lemma_count_down(n, n as nat);
}

proof fn lemma_count_down(n: usize, k: nat)
    requires
        k <= n,
    ensures
        decremented_times(n, k) == n - k,
    decreases k,
{
    if k > 0 {
        lemma_count_down(n, (k - 1) as nat);
    }
}

/// The pool of task elements and the queue of those that are ready to run.
pub struct Scheduler {
    pub(crate) tasks: Vec<QueueElem<VirtualTask>>,
    pub(crate) work_queue: AtomicQueue<VirtualTask>,
}

impl Scheduler {
    /// Every task element; the work queue and the queues of waiting readers
    /// link these elements.
    pub closed spec fn pool(&self) -> Seq<QueueElem<VirtualTask>> {
        self.tasks@
    }

    /// The indices of the tasks on the work queue, oldest first.
    pub closed spec fn ready(&self) -> Seq<usize> {
        self.work_queue@
    }

    /// The work queue is well formed over the task pool, whose length a
    /// machine word bounds.
    pub closed spec fn wf(&self) -> bool {
        &&& self.work_queue.wf(self.tasks@)
        &&& self.tasks@.len() < isize::MAX
    }

    /// The ready tasks are distinct elements of the pool.
    pub proof fn lemma_ready_elements(&self)
        requires
            self.wf(),
        ensures
            self.ready().no_duplicates(),
            forall|k: int| 0 <= k < self.ready().len() ==> (#[trigger] self.ready()[k]) < self.pool().len(),
    {
        self.work_queue.lemma_wf_elements(self.tasks@);
    }

    /// What the scheduler's views stand for.
    pub(crate) proof fn lemma_views(&self)
        ensures
            self.pool() == self.tasks@,
            self.ready() == self.work_queue@,
            self.wf() == (self.work_queue.wf(self.tasks@) && self.tasks@.len() < isize::MAX),
    {
    }

    /// The task element `i`.
    pub fn task(&self, i: usize) -> (t: &QueueElem<VirtualTask>)
        requires
            i < self.pool().len(),
        ensures
            *t == self.pool()[i as int],
    {
        &self.tasks[i]
    }

    /// The number of task elements.
    pub fn num_tasks(&self) -> (n: usize)
        ensures
            n == self.pool().len(),
    {
        self.tasks.len()
    }

    /// A scheduler over `tasks` with an empty work queue.
    pub fn new(tasks: Vec<QueueElem<VirtualTask>>) -> (s: Self)
        requires
            tasks@.len() < isize::MAX,
        ensures
            s.wf(),
            s.pool() == tasks@,
            s.ready() == Seq::<usize>::empty(),
    {
        let mut work_queue = AtomicQueue::new_uninit();
        work_queue.init_valid();
        Scheduler { tasks, work_queue }
    }

    /// One argument of task `task` has become available: its count goes
    /// down by one, and the task joins the work queue if it waited for that
    /// argument alone.
    pub fn one_arg_ready(&mut self, task: usize)
        requires
            old(self).wf(),
            task < old(self).pool().len(),
            waits_for_one(old(self).pool(), task) ==> !old(self).ready().contains(task),
        ensures
            final(self).wf(),
            final(self).pool().len() == old(self).pool().len(),
            final(self).pool()[task as int].data == (VirtualTask {
                callback: old(self).pool()[task as int].data.callback,
                counter: decremented(old(self).pool()[task as int].data.counter),
            }),
            forall|i: int|
                0 <= i < old(self).pool().len() && i != task ==> (#[trigger] final(self).pool()[i]).data == old(self).pool()[i].data,
            forall|i: usize|
                i < old(self).pool().len() && !final(self).ready().contains(i) ==> (
                #[trigger] final(self).pool()[i as int]).next == old(self).pool()[i as int].next,
            final(self).ready() == (if waits_for_one(old(self).pool(), task) {
                old(self).ready().push(task)
            } else {
                old(self).ready()
            }),
            old(self).pool()[task as int].data.counter == 1 ==> final(self).ready()
                == old(self).ready().push(task),
            old(self).pool()[task as int].data.counter != 1 ==> final(self).ready()
                == old(self).ready(),
            final(self).ready().len() > old(self).ready().len()
                <==> final(self).pool()[task as int].data.counter == 0,
    {
        let ghost t0 = self.tasks@;
        let cnt: usize = self.tasks[task].data.counter;
        self.tasks[task].data.counter = if cnt == 0 {
            usize::MAX
        } else {
            cnt - 1
        };
        proof {
            assert(forall|i: int| 0 <= i < t0.len() && i != task ==> self.tasks@[i] == t0[i]);
            assert(self.tasks@[task as int].next == t0[task as int].next);
            self.work_queue.lemma_wf_elements(t0);
            assert forall|k: int| 0 <= k < self.work_queue@.len() implies (#[trigger] self.tasks@[self.work_queue@[k] as int]).next
                == t0[self.work_queue@[k] as int].next by {
                let i = self.work_queue@[k] as int;
                if i != task {
                    assert(self.tasks@[i] == t0[i]);
                }
            }
            self.work_queue.lemma_wf_frame(t0, self.tasks@);
            self.work_queue.lemma_len_bound(self.tasks@);
        }
        let ghost t1 = self.tasks@;
        let ghost r0 = self.work_queue@;
        if cnt == 1 {
            self.work_queue.push(&mut self.tasks, task);
            proof {
                let r1 = self.work_queue@;
                assert(r1[r1.len() - 1] == task);
                if r0.len() > 0 {
                    assert(r1[r0.len() - 1] == r0.last());
                }
                assert forall|i: usize| i < t0.len() && !r1.contains(i) implies (
                #[trigger] self.tasks@[i as int]).next == t0[i as int].next by {
                    assert(i != task);
                    if r0.len() > 0 {
                        assert(i != r0.last());
                    }
                    if i != task {
                        assert(t1[i as int] == t0[i as int]);
                    }
                }
            }
        } else {
            proof {
                assert forall|i: usize| i < t0.len() implies (
                #[trigger] self.tasks@[i as int]).next == t0[i as int].next by {
                    if i != task {
                        assert(t1[i as int] == t0[i as int]);
                    }
                }
            }
        }
    }

    /// Takes the oldest ready task off the work queue, to run it; `None`
    /// when no task is ready.
    pub fn work_once(&mut self) -> (r: Option<usize>)
        requires
            old(self).wf(),
        ensures
            final(self).wf(),
            final(self).pool() == old(self).pool(),
            old(self).ready().len() == 0 ==> r is None && final(self).ready() == old(self).ready(),
            old(self).ready().len() > 0 ==> r == Some(old(self).ready()[0]) && final(self).ready()
                == old(self).ready().drop_first(),
    {
        self.work_queue.pop(&self.tasks)
    }
}

} // verus!
