//! Single-assignment data slots that hold back the tasks reading them.
//!
//! A slot goes from empty to initialised when a writer claims it, to filled
//! when the value is written, and back to empty once its last reader is
//! done. A task that reads a slot before it is filled waits in the slot's
//! queue; writing the value releases every waiting task, which then counts
//! one argument fewer. A `Wrapper` cycles through four slots, so that a new
//! value can be written while readers of older ones still run.

use vstd::prelude::*;
use crate::atomic_queue::{AtomicQueue, QueueElem};
use crate::sheduler::{Scheduler, VirtualTask, decremented, waits_for_one};

verus! {

/// Where a slot stands.
#[derive(PartialEq, Eq, Structural, Clone, Copy, Debug)]
pub enum Status {
    /// Free; no writer has claimed it.
    Empty,
    /// Claimed by a writer; readers wait for the value.
    Initialised,
    /// The value is written and the waiting readers are being released.
    FilledSignaling,
    /// The value is written and every reader has been released.
    FilledResting,
}

/// The count after one increment of `c`; the count wraps around as an
/// atomic counter does.
pub open spec fn incremented(c: usize) -> usize {
    if c == usize::MAX {
        0
    } else {
        (c + 1) as usize
    }
}

/// A whole operation on one slot, as its status and its count of readers
/// see it.
pub enum SlotCall {
    /// A writer claims the slot (`init_assuming_empty`).
    Claim,
    /// A task registers as a reader (`submit_reader`).
    Register,
    /// The value is written (`effective_write`).
    Write,
    /// A reader is done with the value (`signal_read_done`).
    ReadDone,
}

/// The status and the count of readers after `c`, on a slot whose status
/// is `st` and whose count is `u`.
pub open spec fn after_call(c: SlotCall, st: Status, u: usize) -> (Status, usize) {
    match c {
        SlotCall::Claim => (Status::Initialised, u),
        SlotCall::Register => if st == Status::Initialised {
            (st, incremented(u))
        } else {
            (st, u)
        },
        SlotCall::Write => (Status::FilledResting, u),
        SlotCall::ReadDone => (if u == 1 {
            Status::Empty
        } else {
            st
        }, decremented(u)),
    }
}

/// The statuses and counts of a slot that starts with status `st` and
/// count `u` and goes through `calls` in order, the start included.
pub open spec fn run_of(calls: Seq<SlotCall>, st: Status, u: usize) -> Seq<(Status, usize)>
    decreases calls.len(),
{
    if calls.len() == 0 {
        seq![(st, u)]
    } else {
        let r = run_of(calls.drop_last(), st, u);
        r.push(after_call(calls.last(), r.last().0, r.last().1))
    }
}

/// The contract of `c` admits a slot with status `st`: a writer claims only
/// an empty slot, and a task registers only with a claimed one.
pub open spec fn call_allowed(c: SlotCall, st: Status) -> bool {
    &&& c == SlotCall::Claim ==> st == Status::Empty
    &&& c == SlotCall::Register ==> st != Status::Empty
}

/// `c` keeps to the round of the slot: a write goes to a claimed slot, and
/// the last registered reader is done only once the slot rests filled.
pub open spec fn keeps_round(c: SlotCall, st: Status, u: usize) -> bool {
    &&& c == SlotCall::Write ==> st == Status::Initialised
    &&& c == SlotCall::ReadDone && u == 1 ==> st == Status::FilledResting
}

/// `b` is `a`, or the status that follows `a` round the cycle of whole
/// operations: claimed after empty, filled and resting after claimed (the
/// write signals on its way), empty after filled.
pub open spec fn round_move(a: Status, b: Status) -> bool {
    ||| b == a
    ||| a == Status::Empty && b == Status::Initialised
    ||| a == Status::Initialised && b == Status::FilledResting
    ||| a == Status::FilledResting && b == Status::Empty
}

/// A run through `calls` has one entry more than `calls`, and its entries
/// before the last are those of the run through all calls but the last.
proof fn lemma_run_of_prefix(calls: Seq<SlotCall>, st: Status, u: usize)
    ensures
        run_of(calls, st, u).len() == calls.len() + 1,
        calls.len() > 0 ==> forall|i: int|
            0 <= i < calls.len() ==> #[trigger] run_of(calls, st, u)[i] == run_of(
                calls.drop_last(),
                st,
                u,
            )[i],
    decreases calls.len(),
{
    if calls.len() > 0 {
        lemma_run_of_prefix(calls.drop_last(), st, u);
    }
}

/// Each entry of `run` after the first follows from the one before by its
/// call in `calls`, and keeps the status on its round.
pub open spec fn goes_round(calls: Seq<SlotCall>, run: Seq<(Status, usize)>) -> bool {
    &&& run.len() == calls.len() + 1
    &&& forall|i: int|
        #![trigger calls[i]]
        0 <= i < calls.len() ==> run[i + 1] == after_call(calls[i], run[i].0, run[i].1)
            && round_move(run[i].0, run[i + 1].0)
}

/// Status lifecycle: a slot that goes through `calls`, each made where its
/// contract admits it, goes round its statuses — empty, claimed, filled,
/// empty again — as long as every write goes to a claimed slot and the
/// last registered reader is done only once the slot rests filled.
pub proof fn lemma_status_round(calls: Seq<SlotCall>, st: Status, u: usize)
    requires
        forall|i: int|
            #![trigger calls[i]]
            0 <= i < calls.len() ==> call_allowed(calls[i], run_of(calls, st, u)[i].0) && keeps_round(
                calls[i],
                run_of(calls, st, u)[i].0,
                run_of(calls, st, u)[i].1,
            ),
    ensures
        run_of(calls, st, u)[0] == (st, u),
        goes_round(calls, run_of(calls, st, u)),
    decreases calls.len(),
{
    lemma_run_of_prefix(calls, st, u);
    if calls.len() > 0 {
        let init = calls.drop_last();
        let r = run_of(calls, st, u);
        let r0 = run_of(init, st, u);
        assert forall|i: int| #![trigger init[i]] 0 <= i < init.len() implies call_allowed(
            init[i],
            r0[i].0,
        ) && keeps_round(init[i], r0[i].0, r0[i].1) by {
            assert(init[i] == calls[i]);
            assert(r[i] == r0[i]);
        }
        lemma_status_round(init, st, u);
        assert forall|i: int| #![trigger calls[i]] 0 <= i < calls.len() implies r[i + 1].0 == after_call(
            calls[i],
            r[i].0,
            r[i].1,
        ).0 && r[i + 1].1 == after_call(calls[i], r[i].0, r[i].1).1 && round_move(r[i].0, r[i + 1].0) by {
            if i < init.len() {
                assert(init[i] == calls[i]);
                assert(r[i] == r0[i]);
                if i + 1 < init.len() {
                    assert(init[i + 1] == calls[i + 1]);
                }
                assert(r[i + 1] == r0[i + 1]);
            } else {
                assert(r[i] == r0.last());
                assert(r[i + 1] == r.last());
            }
            assert(call_allowed(calls[i], r[i].0) && keeps_round(calls[i], r[i].0, r[i].1));
        }
    }
}

/// No index occurs in both `a` and `b`.
pub open spec fn disjoint(a: Seq<usize>, b: Seq<usize>) -> bool {
    forall|i: int, j: int| 0 <= i < a.len() && 0 <= j < b.len() ==> a[i] != b[j]
}

/// Task `t` after one of its arguments became available.
pub open spec fn released_task(t: VirtualTask) -> VirtualTask {
    VirtualTask { callback: t.callback, counter: decremented(t.counter) }
}

/// `p` is the task pool `p0` after every task in `released` lost one
/// waited-for argument, with links changed only for tasks in `ready`.
pub open spec fn pool_after_release(
    p0: Seq<QueueElem<VirtualTask>>,
    released: Seq<usize>,
    p: Seq<QueueElem<VirtualTask>>,
    ready: Seq<usize>,
) -> bool {
    &&& p.len() == p0.len()
    &&& forall|i: usize|
        i < p0.len() ==> (#[trigger] p[i as int]).data == (if released.contains(i) {
            released_task(p0[i as int].data)
        } else {
            p0[i as int].data
        })
    &&& forall|i: usize|
        i < p0.len() && !ready.contains(i) ==> (#[trigger] p[i as int]).next == p0[i as int].next
}

/// The tasks of `waiters` that wait for one argument only in `pool`.
pub open spec fn ready_among(pool: Seq<QueueElem<VirtualTask>>, waiters: Seq<usize>) -> Seq<usize> {
    waiters.filter(|i: usize| waits_for_one(pool, i))
}

/// A reader `f` submitted to slot `w0` takes the slot to `w1`, the task
/// pool from `p0` to `p1` and the work queue from `r0` to `r1`: before the
/// value is written the task waits in the slot, which counts one more
/// reader; afterwards the task's argument is available at once.
pub open spec fn reader_submitted<T>(
    w0: SingleDataWrapper<T>,
    p0: Seq<QueueElem<VirtualTask>>,
    r0: Seq<usize>,
    f: usize,
    w1: SingleDataWrapper<T>,
    p1: Seq<QueueElem<VirtualTask>>,
    r1: Seq<usize>,
) -> bool {
    &&& w1.value() == w0.value()
    &&& w1.status() == w0.status()
    &&& if w0.status() == Status::Initialised {
        &&& w1.waiters() == w0.waiters().push(f)
        &&& w1.active_users() == incremented(w0.active_users())
        &&& r1 == r0
        &&& pool_after_release(p0, Seq::<usize>::empty(), p1, w1.waiters())
    } else {
        &&& w1.waiters() == w0.waiters()
        &&& w1.active_users() == w0.active_users()
        &&& r1 == (if waits_for_one(p0, f) {
            r0.push(f)
        } else {
            r0
        })
        &&& pool_after_release(p0, seq![f], p1, r1)
    }
}

/// Writing `val` into slot `w0` takes it to `w1`, the task pool from `p0`
/// to `p1` and the work queue from `r0` to `r1`: the slot holds the value
/// and rests filled, and every waiting task was released, oldest first.
pub open spec fn value_written<T>(
    w0: SingleDataWrapper<T>,
    p0: Seq<QueueElem<VirtualTask>>,
    r0: Seq<usize>,
    val: T,
    w1: SingleDataWrapper<T>,
    p1: Seq<QueueElem<VirtualTask>>,
    r1: Seq<usize>,
) -> bool {
    &&& w1.value() == Some(val)
    &&& w1.status() == Status::FilledResting
    &&& w1.waiters() == Seq::<usize>::empty()
    &&& w1.active_users() == w0.active_users()
    &&& r1 == r0 + ready_among(p0, w0.waiters())
    &&& pool_after_release(p0, w0.waiters(), p1, r1)
}

/// A reader that is done undoes the count of its registration.
pub proof fn lemma_read_done_undoes_registration(a: usize)
    ensures
        decremented(incremented(a)) == a,
{
}

/// A reader that registers with a slot before its value is written is
/// released by the write: its task loses the awaited argument, and joins
/// the work queue if that was the last one it awaited.
pub proof fn lemma_reader_released_by_write<T>(
    w0: SingleDataWrapper<T>,
    p0: Seq<QueueElem<VirtualTask>>,
    r0: Seq<usize>,
    f: usize,
    w1: SingleDataWrapper<T>,
    p1: Seq<QueueElem<VirtualTask>>,
    r1: Seq<usize>,
    val: T,
    w2: SingleDataWrapper<T>,
    p2: Seq<QueueElem<VirtualTask>>,
    r2: Seq<usize>,
)
    requires
        w0.status() == Status::Initialised,
        f < p0.len(),
        reader_submitted(w0, p0, r0, f, w1, p1, r1),
        value_written(w1, p1, r1, val, w2, p2, r2),
    ensures
        w2.value() == Some(val),
        p2[f as int].data == released_task(p0[f as int].data),
        waits_for_one(p0, f) ==> r2.contains(f),
{
    let ws = w1.waiters();
    assert(ws[ws.len() - 1] == f);
    assert(ws.contains(f));
    assert(!Seq::<usize>::empty().contains(f));
    assert(p1[f as int].data == p0[f as int].data);
    if waits_for_one(p0, f) {
        let pred = |i: usize| waits_for_one(p1, i);
        ws.lemma_filter_contains(pred, ws.len() - 1);
        let k = choose|k: int| 0 <= k < ready_among(p1, ws).len() && ready_among(p1, ws)[k] == f;
        assert(r2[r1.len() + k] == f);
    }
}

/// A reader that registers with a slot whose value is written gets its
/// argument at once: its task loses the awaited argument, and joins the
/// work queue if that was the last one it awaited.
pub proof fn lemma_reader_of_written_value<T>(
    w0: SingleDataWrapper<T>,
    p0: Seq<QueueElem<VirtualTask>>,
    r0: Seq<usize>,
    f: usize,
    w1: SingleDataWrapper<T>,
    p1: Seq<QueueElem<VirtualTask>>,
    r1: Seq<usize>,
)
    requires
        w0.status() == Status::FilledSignaling || w0.status() == Status::FilledResting,
        f < p0.len(),
        reader_submitted(w0, p0, r0, f, w1, p1, r1),
    ensures
        w1.value() == w0.value(),
        p1[f as int].data == released_task(p0[f as int].data),
        waits_for_one(p0, f) ==> r1.contains(f),
{
    assert(seq![f][0] == f);
    if waits_for_one(p0, f) {
        assert(r1[r0.len() as int] == f);
    }
}

/// One data slot: its value, its status, the tasks that wait for its value
/// and the number of readers that registered before it was filled.
pub struct SingleDataWrapper<T> {
    data: Option<T>,
    status: Status,
    waiters: AtomicQueue<VirtualTask>,
    active_users: usize,
}

impl<T> SingleDataWrapper<T> {
    /// The value, once written.
    pub closed spec fn value(&self) -> Option<T> {
        self.data
    }

    /// Where the slot stands.
    pub closed spec fn status(&self) -> Status {
        self.status
    }

    /// The tasks that wait for the value, oldest first.
    pub closed spec fn waiters(&self) -> Seq<usize> {
        self.waiters@
    }

    /// The number of registered readers.
    pub closed spec fn active_users(&self) -> usize {
        self.active_users
    }

    /// The queue of waiting tasks is well formed over `pool`, and a filled
    /// slot holds its value.
    pub closed spec fn wf(&self, pool: Seq<QueueElem<VirtualTask>>) -> bool {
        &&& self.waiters.wf(pool)
        &&& (self.status == Status::FilledSignaling || self.status == Status::FilledResting)
            ==> self.data is Some
    }

    /// A well-formed slot that is filled holds its value.
    pub proof fn lemma_filled_has_value(&self, pool: Seq<QueueElem<VirtualTask>>)
        requires
            self.wf(pool),
            self.status() == Status::FilledSignaling || self.status() == Status::FilledResting,
        ensures
            self.value() is Some,
    {
    }

    /// The waiting tasks are distinct elements of the pool.
    pub proof fn lemma_wf_elements(&self, pool: Seq<QueueElem<VirtualTask>>)
        requires
            self.wf(pool),
        ensures
            self.waiters().no_duplicates(),
            forall|k: int| 0 <= k < self.waiters().len() ==> (#[trigger] self.waiters()[k]) < pool.len(),
    {
        self.waiters.lemma_wf_elements(pool);
    }

    /// The slot depends on the pool only through the links of its waiting
    /// tasks.
    pub proof fn lemma_wf_frame(
        &self,
        p1: Seq<QueueElem<VirtualTask>>,
        p2: Seq<QueueElem<VirtualTask>>,
    )
        requires
            self.wf(p1),
            p1.len() == p2.len(),
            forall|k: int|
                0 <= k < self.waiters().len() ==> (#[trigger] p2[self.waiters()[k] as int]).next
                    == p1[self.waiters()[k] as int].next,
        ensures
            self.wf(p2),
    {
        assert forall|k: int| 0 <= k < self.waiters@.len() implies (#[trigger] p2[self.waiters@[k] as int]).next
            == p1[self.waiters@[k] as int].next by {
            assert(p2[self.waiters()[k] as int].next == p1[self.waiters()[k] as int].next);
        }
        self.waiters.lemma_wf_frame(p1, p2);
    }

    /// An empty slot.
    pub fn new() -> (w: Self)
        ensures
            w.value() is None,
            w.status() == Status::Empty,
            w.waiters() == Seq::<usize>::empty(),
            w.active_users() == 0,
            forall|pool: Seq<QueueElem<VirtualTask>>| w.wf(pool),
    {
        SingleDataWrapper {
            data: None,
            status: Status::Empty,
            waiters: AtomicQueue::new(),
            active_users: 0,
        }
    }

    /// A writer claims the empty slot.
    pub fn init_assuming_empty(&mut self)
        requires
            old(self).status() == Status::Empty,
        ensures
            final(self).status() == Status::Initialised,
            (final(self).status(), final(self).active_users()) == after_call(
                SlotCall::Claim,
                old(self).status(),
                old(self).active_users(),
            ),
            final(self).value() == old(self).value(),
            final(self).waiters() == old(self).waiters(),
            final(self).active_users() == old(self).active_users(),
            forall|pool: Seq<QueueElem<VirtualTask>>| old(self).wf(pool) ==> final(self).wf(pool),
    {
        self.status = Status::Initialised;
    }

    /// Releases every waiting task, oldest first: each loses one awaited
    /// argument, and those that awaited only this one join the work queue.
    pub fn empty_queue(&mut self, sched: &mut Scheduler)
        requires
            old(sched).wf(),
            old(self).wf(old(sched).pool()),
            disjoint(old(self).waiters(), old(sched).ready()),
        ensures
            final(sched).wf(),
            final(self).wf(final(sched).pool()),
            final(self).waiters() == Seq::<usize>::empty(),
            final(self).status() == old(self).status(),
            final(self).value() == old(self).value(),
            final(self).active_users() == old(self).active_users(),
            final(sched).ready() == old(sched).ready() + ready_among(
                old(sched).pool(),
                old(self).waiters(),
            ),
            pool_after_release(
                old(sched).pool(),
                old(self).waiters(),
                final(sched).pool(),
                final(sched).ready(),
            ),
    {
        let ghost w0 = self.waiters@;
        let ghost r0 = sched.ready();
        let ghost p0 = sched.pool();
        let ghost pred = |i: usize| waits_for_one(p0, i);
        let ghost mut k: int = 0;
        proof {
            self.waiters.lemma_wf_elements(p0);
            reveal_with_fuel(Seq::filter, 1);
            assert(w0.take(0) =~= Seq::<usize>::empty());
            assert(r0 + w0.take(0).filter(pred) =~= r0);
            assert(w0.skip(0) =~= w0);
        }
        loop
            invariant
                0 <= k <= w0.len(),
                w0.no_duplicates(),
                forall|j: int| 0 <= j < w0.len() ==> (#[trigger] w0[j]) < p0.len(),
                disjoint(w0, r0),
                self.waiters@ == w0.skip(k),
                self.waiters.wf(sched.pool()),
                sched.wf(),
                sched.ready() == r0 + w0.take(k).filter(pred),
                pool_after_release(p0, w0.take(k), sched.pool(), sched.ready()),
                self.status == old(self).status,
                self.data == old(self).data,
                self.active_users == old(self).active_users,
                pred == (|i: usize| waits_for_one(p0, i)),
            ensures
                k == w0.len(),
                self.waiters@ == Seq::<usize>::empty(),
                self.waiters.wf(sched.pool()),
                sched.wf(),
                sched.ready() == r0 + w0.filter(pred),
                pool_after_release(p0, w0, sched.pool(), sched.ready()),
                self.status == old(self).status,
                self.data == old(self).data,
                self.active_users == old(self).active_users,
            decreases w0.len() - k,
        {
            proof {
                sched.lemma_views();
            }
            let ghost r1 = sched.ready();
            let ghost p1 = sched.pool();
            let popped = self.waiters.pop(&sched.tasks);
            match popped {
                Some(fun) => {
                    proof {
                        assert(fun == w0[k]);
                        assert(self.waiters@ =~= w0.skip(k + 1));
                        assert(!r1.contains(fun)) by {
                            if r1.contains(fun) {
                                let j = choose|j: int| 0 <= j < r1.len() && r1[j] == fun;
                                if j < r0.len() {
                                    assert(r0[j] == r1[j]);
                                } else {
                                    assert(w0.take(k).filter(pred)[j - r0.len()] == fun);
                                    w0.take(k).lemma_filter_contains_rev(pred, fun);
                                    let i = choose|i: int| 0 <= i < k && w0.take(k)[i] == fun;
                                    assert(w0[i] == w0[k]);
                                }
                            }
                        }
                        assert(!w0.take(k).contains(fun)) by {
                            if w0.take(k).contains(fun) {
                                let i = choose|i: int| 0 <= i < k && w0.take(k)[i] == fun;
                                assert(w0[i] == w0[k]);
                            }
                        }
                    }
                    sched.one_arg_ready(fun);
                    proof {
                        let r2 = sched.ready();
                        let p2 = sched.pool();
                        let tk = w0.take(k);
                        let tk1 = w0.take(k + 1);
                        assert(tk1 =~= tk.push(fun));
                        assert(tk1.drop_last() =~= tk);
                        reveal_with_fuel(Seq::filter, 1);
                        assert(p1[fun as int].data == p0[fun as int].data);
                        if pred(fun) {
                            assert(tk1.filter(pred) == tk.filter(pred).push(fun));
                            assert(r2 =~= r0 + tk1.filter(pred));
                        } else {
                            assert(tk1.filter(pred) == tk.filter(pred));
                        }
                        assert forall|i: usize| tk1.contains(i) <==> (tk.contains(i) || i == fun) by {
                            if tk1.contains(i) {
                                let j = choose|j: int| 0 <= j < tk1.len() && tk1[j] == i;
                                if j < k {
                                    assert(tk[j] == i);
                                }
                            }
                            if tk.contains(i) {
                                let j = choose|j: int| 0 <= j < tk.len() && tk[j] == i;
                                assert(tk1[j] == i);
                            }
                            if i == fun {
                                assert(tk1[k] == i);
                            }
                        }
                        assert forall|i: usize| i < p0.len() implies (#[trigger] p2[i as int]).data == (
                        if tk1.contains(i) {
                            released_task(p0[i as int].data)
                        } else {
                            p0[i as int].data
                        }) by {
                            if i != fun {
                                assert(p2[i as int].data == p1[i as int].data);
                            }
                        }
                        assert forall|i: usize| i < p0.len() && !r2.contains(i) implies (
                        #[trigger] p2[i as int]).next == p0[i as int].next by {
                            if r1.contains(i) {
                                let m = choose|m: int| 0 <= m < r1.len() && r1[m] == i;
                                assert(r2[m] == i);
                            }
                            assert(p2[i as int].next == p1[i as int].next);
                        }
                        assert(pool_after_release(p0, tk1, p2, r2));
                        // The tasks still waiting are neither ready nor released.
                        assert forall|j: int| 0 <= j < self.waiters@.len() implies !r2.contains(
                            #[trigger] self.waiters@[j],
                        ) by {
                            let x = self.waiters@[j];
                            assert(x == w0[k + 1 + j]);
                            if r2.contains(x) {
                                let m = choose|m: int| 0 <= m < r2.len() && r2[m] == x;
                                if m < r0.len() {
                                    assert(r0[m] == x);
                                } else {
                                    assert(tk1.filter(pred)[m - r0.len()] == x);
                                    tk1.lemma_filter_contains_rev(pred, x);
                                    let i = choose|i: int| 0 <= i < k + 1 && tk1[i] == x;
                                    assert(w0[i] == w0[k + 1 + j]);
                                }
                            }
                        }
                        assert forall|j: int| 0 <= j < self.waiters@.len() implies (#[trigger] p2[self.waiters@[j] as int]).next
                            == p1[self.waiters@[j] as int].next by {
                            let x = self.waiters@[j];
                            assert(!r2.contains(x));
                            assert(x < p1.len());
                        }
                        self.waiters.lemma_wf_frame(p1, p2);
                        k = k + 1;
                    }
                },
                None => {
                    proof {
                        assert(w0.take(k) =~= w0);
                    }
                    break ;
                },
            }
        }
    }

    /// Writes the value and releases every waiting task.
    pub fn effective_write(&mut self, sched: &mut Scheduler, val: T)
        requires
            old(sched).wf(),
            old(self).wf(old(sched).pool()),
            disjoint(old(self).waiters(), old(sched).ready()),
        ensures
            final(sched).wf(),
            final(self).wf(final(sched).pool()),
            value_written(
                *old(self),
                old(sched).pool(),
                old(sched).ready(),
                val,
                *final(self),
                final(sched).pool(),
                final(sched).ready(),
            ),
            (final(self).status(), final(self).active_users()) == after_call(
                SlotCall::Write,
                old(self).status(),
                old(self).active_users(),
            ),
    {
        let ghost p0 = sched.pool();
        self.data = Some(val);
        self.status = Status::FilledSignaling;
        self.empty_queue(sched);
        let ghost p1 = sched.pool();
        let ghost r1 = sched.ready();
        self.status = Status::FilledResting;
        self.empty_queue(sched);
        proof {
            reveal_with_fuel(Seq::filter, 1);
            let e = Seq::<usize>::empty();
            assert(ready_among(p1, e) =~= e);
            assert(sched.ready() =~= r1);
            assert forall|i: usize| !e.contains(i) by {}
        }
    }

    /// A task registers as a reader: before the value is written it waits
    /// in the queue and the slot counts one more reader; afterwards the
    /// task's argument is available at once.
    pub fn submit_reader(&mut self, sched: &mut Scheduler, f: usize)
        requires
            old(sched).wf(),
            old(self).wf(old(sched).pool()),
            disjoint(old(self).waiters(), old(sched).ready()),
            f < old(sched).pool().len(),
            !old(self).waiters().contains(f),
            !old(sched).ready().contains(f),
            old(self).status() != Status::Empty,
        ensures
            final(sched).wf(),
            final(self).wf(final(sched).pool()),
            disjoint(final(self).waiters(), final(sched).ready()),
            reader_submitted(
                *old(self),
                old(sched).pool(),
                old(sched).ready(),
                f,
                *final(self),
                final(sched).pool(),
                final(sched).ready(),
            ),
            (final(self).status(), final(self).active_users()) == after_call(
                SlotCall::Register,
                old(self).status(),
                old(self).active_users(),
            ),
    {
        let ghost p0 = sched.pool();
        let ghost r0 = sched.ready();
        proof {
            sched.lemma_views();
            sched.lemma_ready_elements();
            self.waiters.lemma_wf_elements(p0);
            self.waiters.lemma_len_bound(p0);
        }
        match self.status {
            Status::Initialised => {
                let a: usize = self.active_users;
                self.active_users = if a == usize::MAX {
                    0
                } else {
                    a + 1
                };
                self.waiters.push(&mut sched.tasks, f);
                proof {
                    sched.lemma_views();
                    let w1 = self.waiters@;
                    let p1 = sched.pool();
                    assert(w1[w1.len() - 1] == f);
                    assert forall|k: int| 0 <= k < r0.len() implies (#[trigger] p1[r0[k] as int]).next
                        == p0[r0[k] as int].next by {
                        assert(r0[k] != f);
                        if w1.len() > 1 {
                            assert(w1[w1.len() - 2] == old(self).waiters@.last());
                            assert(r0[k] != w1[w1.len() - 2]);
                        }
                    }
                    sched.work_queue.lemma_wf_frame(p0, p1);
                    assert forall|i: usize| i < p0.len() && !w1.contains(i) implies (#[trigger] p1[i as int]).next
                        == p0[i as int].next by {
                        assert(i != f);
                        if w1.len() > 1 {
                            assert(w1[w1.len() - 2] == old(self).waiters@.last());
                            assert(i != w1[w1.len() - 2]);
                        }
                    }
                    assert forall|i: int, j: int| 0 <= i < w1.len() && 0 <= j < r0.len() implies w1[i] != r0[j] by {
                        if i < w1.len() - 1 {
                            assert(w1[i] == old(self).waiters@[i]);
                        }
                    }
                }
            },
            _ => {
                sched.one_arg_ready(f);
                proof {
                    let r1 = sched.ready();
                    let p1 = sched.pool();
                    let w = self.waiters@;
                    assert forall|k: int| 0 <= k < w.len() implies !r1.contains(#[trigger] w[k]) by {
                        assert(w[k] != f);
                        if r1.contains(w[k]) {
                            let m = choose|m: int| 0 <= m < r1.len() && r1[m] == w[k];
                            if m < r0.len() {
                                assert(r0[m] == w[k]);
                            }
                        }
                    }
                    assert forall|k: int| 0 <= k < w.len() implies (#[trigger] p1[w[k] as int]).next
                        == p0[w[k] as int].next by {
                        assert(!r1.contains(w[k]));
                    }
                    self.waiters.lemma_wf_frame(p0, p1);
                    assert forall|i: usize| seq![f].contains(i) <==> i == f by {
                        if i == f {
                            assert(seq![f][0] == i);
                        }
                    }
                    assert forall|i: int, j: int| 0 <= i < w.len() && 0 <= j < r1.len() implies w[i] != r1[j] by {
                        assert(!r1.contains(w[i]));
                    }
                }
            },
        }
    }

    /// Where the slot stands.
    pub fn load_status(&self) -> (s: Status)
        ensures
            s == self.status(),
    {
        self.status
    }

    /// The written value.
    pub fn read(&self) -> (r: &T)
        requires
            self.value() is Some,
        ensures
            *r == self.value()->Some_0,
    {
        self.data.as_ref().unwrap()
    }

    /// A reader is done with the value; when the last registered reader is
    /// done, the slot is empty again.
    pub fn signal_read_done(&mut self)
        ensures
            final(self).active_users() == decremented(old(self).active_users()),
            final(self).status() == (if old(self).active_users() == 1 {
                Status::Empty
            } else {
                old(self).status()
            }),
            (final(self).status(), final(self).active_users()) == after_call(
                SlotCall::ReadDone,
                old(self).status(),
                old(self).active_users(),
            ),
            final(self).value() == old(self).value(),
            final(self).waiters() == old(self).waiters(),
            forall|pool: Seq<QueueElem<VirtualTask>>| old(self).wf(pool) ==> final(self).wf(pool),
    {
        let cnt: usize = self.active_users;
        self.active_users = if cnt == 0 {
            usize::MAX
        } else {
            cnt - 1
        };
        if cnt == 1 {
            self.status = Status::Empty;
        }
    }
}


/// The number of slots of a `Wrapper`.
pub const SLOTS: usize = 4;

/// Four data slots used in turn: each write claims the next slot, and
/// readers register with the slot of the latest write.
pub struct Wrapper<T> {
    data: Vec<SingleDataWrapper<T>>,
    next: u8,
}

impl<T> Wrapper<T> {
    /// The slots.
    pub closed spec fn slots(&self) -> Seq<SingleDataWrapper<T>> {
        self.data@
    }

    /// The slot of the latest write.
    pub closed spec fn current(&self) -> int {
        self.next as int
    }

    /// The slots are well formed over `pool`, and no task waits in two
    /// slots or both waits and is ready.
    pub open spec fn wf(&self, pool: Seq<QueueElem<VirtualTask>>, ready: Seq<usize>) -> bool {
        &&& self.slots().len() == SLOTS
        &&& 0 <= self.current() < SLOTS
        &&& forall|s: int| 0 <= s < SLOTS ==> (#[trigger] self.slots()[s]).wf(pool)
        &&& forall|s: int| 0 <= s < SLOTS ==> disjoint((#[trigger] self.slots()[s]).waiters(), ready)
        &&& forall|s: int, t: int|
            0 <= s < SLOTS && 0 <= t < SLOTS && s != t ==> disjoint(
                (#[trigger] self.slots()[s]).waiters(),
                (#[trigger] self.slots()[t]).waiters(),
            )
    }

    /// Task `f` waits in some slot.
    pub open spec fn is_waiting(&self, f: usize) -> bool {
        exists|s: int| 0 <= s < SLOTS && (#[trigger] self.slots()[s]).waiters().contains(f)
    }

    /// Four empty slots, the first of them current.
    pub fn new_empty() -> (w: Self)
        ensures
            w.current() == 0,
            w.slots().len() == SLOTS,
            forall|s: int|
                0 <= s < SLOTS ==> {
                    &&& (#[trigger] w.slots()[s]).status() == Status::Empty
                    &&& w.slots()[s].value() is None
                    &&& w.slots()[s].waiters() == Seq::<usize>::empty()
                    &&& w.slots()[s].active_users() == 0
                },
            forall|pool: Seq<QueueElem<VirtualTask>>, ready: Seq<usize>| w.wf(pool, ready),
    {
        let mut data: Vec<SingleDataWrapper<T>> = Vec::new();
        let mut i: usize = 0;
        while i < SLOTS
            invariant
                i <= SLOTS,
                data@.len() == i,
                forall|s: int|
                    0 <= s < i ==> {
                        &&& (#[trigger] data@[s]).status() == Status::Empty
                        &&& data@[s].value() is None
                        &&& data@[s].waiters() == Seq::<usize>::empty()
                        &&& data@[s].active_users() == 0
                        &&& forall|pool: Seq<QueueElem<VirtualTask>>| data@[s].wf(pool)
                    },
            decreases SLOTS - i,
        {
            data.push(SingleDataWrapper::new());
            i = i + 1;
        }
        Wrapper { data, next: 0 }
    }

    /// Empties all four slots and makes the first current.
    pub fn init_empty(&mut self)
        ensures
            final(self).current() == 0,
            final(self).slots().len() == SLOTS,
            forall|s: int|
                0 <= s < SLOTS ==> {
                    &&& (#[trigger] final(self).slots()[s]).status() == Status::Empty
                    &&& final(self).slots()[s].value() is None
                    &&& final(self).slots()[s].waiters() == Seq::<usize>::empty()
                    &&& final(self).slots()[s].active_users() == 0
                },
            forall|pool: Seq<QueueElem<VirtualTask>>, ready: Seq<usize>| final(self).wf(pool, ready),
    {
        *self = Self::new_empty();
    }

    /// Registers task `f` as a reader of the current slot, and returns that
    /// slot.
    pub fn submit_reader(&mut self, sched: &mut Scheduler, f: usize) -> (slot: usize)
        requires
            old(sched).wf(),
            old(self).wf(old(sched).pool(), old(sched).ready()),
            f < old(sched).pool().len(),
            !old(self).is_waiting(f),
            !old(sched).ready().contains(f),
            old(self).slots()[old(self).current()].status() != Status::Empty,
        ensures
            slot == old(self).current(),
            final(self).current() == old(self).current(),
            final(sched).wf(),
            final(self).wf(final(sched).pool(), final(sched).ready()),
            final(self).slots() == old(self).slots().update(slot as int, final(self).slots()[slot as int]),
            reader_submitted(
                old(self).slots()[slot as int],
                old(sched).pool(),
                old(sched).ready(),
                f,
                final(self).slots()[slot as int],
                final(sched).pool(),
                final(sched).ready(),
            ),
    {
        let slot: usize = self.next as usize;
        let ghost s0 = self.data@;
        let ghost p0 = sched.pool();
        let ghost r0 = sched.ready();
        proof {
            assert(!s0[slot as int].waiters().contains(f));
        }
        self.data[slot].submit_reader(sched, f);
        proof {
            let nw = self.data@[slot as int].waiters();
            let ow = s0[slot as int].waiters();
            let r1 = sched.ready();
            assert(seq![f].contains(f)) by {
                assert(seq![f][0] == f);
            }
            assert forall|x: usize| nw.contains(x) implies r0.contains(x) || ow.contains(x) || seq![f].contains(x) by {
                let j = choose|j: int| 0 <= j < nw.len() && nw[j] == x;
                if nw != ow {
                    if j < ow.len() {
                        assert(ow[j] == x);
                    }
                }
            }
            assert forall|x: usize| r1.contains(x) implies r0.contains(x) || ow.contains(x) || seq![f].contains(x) by {
                let j = choose|j: int| 0 <= j < r1.len() && r1[j] == x;
                if j < r0.len() {
                    assert(r0[j] == x);
                }
            }
            assert forall|t: int, x: usize|
                0 <= t < SLOTS && t != slot && #[trigger] s0[t].waiters().contains(x) implies !seq![f].contains(x) by {
                if seq![f].contains(x) {
                    assert(seq![f][0] == f);
                    assert(self.is_waiting(f) || old(self).is_waiting(f));
                }
            }
            self.lemma_keep_other_slots(s0, slot as int, p0, r0, sched.pool(), sched.ready(), seq![f]);
        }
        slot
    }

    /// Claims the slot after the current one for the next write and makes
    /// it current. The slot must have been emptied by its readers.
    pub fn deffered_write(&mut self) -> (slot: usize)
        requires
            old(self).slots().len() == SLOTS,
            0 <= old(self).current() < SLOTS,
            old(self).slots()[(old(self).current() + 1) % (SLOTS as int)].status() == Status::Empty,
        ensures
            slot == (old(self).current() + 1) % (SLOTS as int),
            final(self).current() == slot,
            final(self).slots() == old(self).slots().update(slot as int, final(self).slots()[slot as int]),
            final(self).slots()[slot as int].status() == Status::Initialised,
            final(self).slots()[slot as int].value() == old(self).slots()[slot as int].value(),
            final(self).slots()[slot as int].waiters() == old(self).slots()[slot as int].waiters(),
            final(self).slots()[slot as int].active_users() == old(self).slots()[slot as int].active_users(),
            forall|pool: Seq<QueueElem<VirtualTask>>, ready: Seq<usize>|
                old(self).wf(pool, ready) ==> final(self).wf(pool, ready),
    {
        self.next = (self.next + 1) % 4;
        let slot: usize = self.next as usize;
        let ghost s0 = self.data@;
        self.data[slot].init_assuming_empty();
        proof {
            assert forall|pool: Seq<QueueElem<VirtualTask>>, ready: Seq<usize>|
                old(self).wf(pool, ready) implies self.wf(pool, ready) by {
                assert(s0[slot as int].wf(pool));
                assert forall|s: int| 0 <= s < SLOTS implies (#[trigger] self.slots()[s]).wf(pool) by {
                    if s != slot {
                        assert(self.slots()[s] == s0[s]);
                    }
                }
                assert forall|s: int| 0 <= s < SLOTS implies disjoint((#[trigger] self.slots()[s]).waiters(), ready) by {
                    if s != slot {
                        assert(self.slots()[s] == s0[s]);
                    }
                }
                assert forall|s: int, t: int|
                    0 <= s < SLOTS && 0 <= t < SLOTS && s != t implies disjoint(
                    (#[trigger] self.slots()[s]).waiters(),
                    (#[trigger] self.slots()[t]).waiters(),
                ) by {
                    assert(self.slots()[s].waiters() == s0[s].waiters());
                    assert(self.slots()[t].waiters() == s0[t].waiters());
                }
            }
        }
        slot
    }

    /// Writes `val` into slot `slot` and releases the tasks waiting there.
    pub fn effective_write(&mut self, slot: usize, sched: &mut Scheduler, val: T)
        requires
            slot < SLOTS,
            old(sched).wf(),
            old(self).wf(old(sched).pool(), old(sched).ready()),
        ensures
            final(self).current() == old(self).current(),
            final(sched).wf(),
            final(self).wf(final(sched).pool(), final(sched).ready()),
            final(self).slots() == old(self).slots().update(slot as int, final(self).slots()[slot as int]),
            value_written(
                old(self).slots()[slot as int],
                old(sched).pool(),
                old(sched).ready(),
                val,
                final(self).slots()[slot as int],
                final(sched).pool(),
                final(sched).ready(),
            ),
    {
        let ghost s0 = self.data@;
        let ghost p0 = sched.pool();
        let ghost r0 = sched.ready();
        self.data[slot].effective_write(sched, val);
        proof {
            let ow = s0[slot as int].waiters();
            let r1 = sched.ready();
            let e = Seq::<usize>::empty();
            assert forall|x: usize| r1.contains(x) implies r0.contains(x) || ow.contains(x) || e.contains(x) by {
                let j = choose|j: int| 0 <= j < r1.len() && r1[j] == x;
                if j < r0.len() {
                    assert(r0[j] == x);
                } else {
                    assert(ready_among(p0, ow)[j - r0.len()] == x);
                    ow.lemma_filter_contains_rev(|i: usize| waits_for_one(p0, i), x);
                }
            }
            self.lemma_keep_other_slots(s0, slot as int, p0, r0, sched.pool(), r1, e);
        }
    }

    /// The value written into slot `slot`.
    pub fn read(&self, slot: usize) -> (r: &T)
        requires
            slot < self.slots().len(),
            self.slots()[slot as int].value() is Some,
        ensures
            *r == self.slots()[slot as int].value()->Some_0,
    {
        self.data[slot].read()
    }

    /// A reader of slot `slot` is done with its value.
    pub fn liberate(&mut self, slot: usize)
        requires
            slot < old(self).slots().len(),
        ensures
            final(self).current() == old(self).current(),
            final(self).slots().len() == old(self).slots().len(),
            forall|s: int|
                0 <= s < old(self).slots().len() && s != slot ==> (#[trigger] final(self).slots()[s])
                    == old(self).slots()[s],
            final(self).slots()[slot as int].active_users() == decremented(
                old(self).slots()[slot as int].active_users(),
            ),
            final(self).slots()[slot as int].status() == (if old(self).slots()[slot as int].active_users()
                == 1 {
                Status::Empty
            } else {
                old(self).slots()[slot as int].status()
            }),
            final(self).slots()[slot as int].value() == old(self).slots()[slot as int].value(),
            final(self).slots()[slot as int].waiters() == old(self).slots()[slot as int].waiters(),
            forall|pool: Seq<QueueElem<VirtualTask>>, ready: Seq<usize>|
                old(self).wf(pool, ready) ==> final(self).wf(pool, ready),
    {
        let ghost s0 = self.data@;
        self.data[slot].signal_read_done();
        proof {
            assert forall|pool: Seq<QueueElem<VirtualTask>>, ready: Seq<usize>|
                old(self).wf(pool, ready) implies self.wf(pool, ready) by {
                assert(s0[slot as int].wf(pool));
                assert forall|s: int| 0 <= s < SLOTS implies (#[trigger] self.slots()[s]).wf(pool) by {
                    if s != slot {
                        assert(self.slots()[s] == s0[s]);
                    }
                }
                assert forall|s: int| 0 <= s < SLOTS implies disjoint((#[trigger] self.slots()[s]).waiters(), ready) by {
                    if s != slot {
                        assert(self.slots()[s] == s0[s]);
                    }
                }
                assert forall|s: int, t: int|
                    0 <= s < SLOTS && 0 <= t < SLOTS && s != t implies disjoint(
                    (#[trigger] self.slots()[s]).waiters(),
                    (#[trigger] self.slots()[t]).waiters(),
                ) by {
                    assert(self.slots()[s].waiters() == s0[s].waiters());
                    assert(self.slots()[t].waiters() == s0[t].waiters());
                }
            }
        }
    }

    /// The slots other than `slot` stay well formed and apart when slot
    /// `slot` moves its own waiters and the ready queue.
    proof fn lemma_keep_other_slots(
        &self,
        s0: Seq<SingleDataWrapper<T>>,
        slot: int,
        p0: Seq<QueueElem<VirtualTask>>,
        r0: Seq<usize>,
        p1: Seq<QueueElem<VirtualTask>>,
        r1: Seq<usize>,
        extra: Seq<usize>,
    )
        requires
            s0.len() == SLOTS,
            0 <= slot < SLOTS,
            0 <= self.current() < SLOTS,
            self.slots() == s0.update(slot, self.slots()[slot]),
            forall|s: int| 0 <= s < SLOTS ==> (#[trigger] s0[s]).wf(p0),
            forall|s: int| 0 <= s < SLOTS ==> disjoint((#[trigger] s0[s]).waiters(), r0),
            forall|s: int, t: int|
                0 <= s < SLOTS && 0 <= t < SLOTS && s != t ==> disjoint(
                    (#[trigger] s0[s]).waiters(),
                    (#[trigger] s0[t]).waiters(),
                ),
            self.slots()[slot].wf(p1),
            disjoint(self.slots()[slot].waiters(), r1),
            p1.len() == p0.len(),
            forall|i: usize|
                i < p0.len() && !self.slots()[slot].waiters().contains(i) && !r1.contains(i) ==> (
                #[trigger] p1[i as int]).next == p0[i as int].next,
            forall|x: usize|
                r1.contains(x) ==> r0.contains(x) || s0[slot].waiters().contains(x) || extra.contains(x),
            forall|x: usize|
                self.slots()[slot].waiters().contains(x) ==> r0.contains(x) || s0[slot].waiters().contains(
                    x,
                ) || extra.contains(x),
            forall|t: int, x: usize|
                0 <= t < SLOTS && t != slot && #[trigger] s0[t].waiters().contains(x) ==> !extra.contains(x),
        ensures
            self.wf(p1, r1),
    {
        let nw = self.slots()[slot].waiters();
        assert forall|t: int, k: int|
            0 <= t < SLOTS && t != slot && 0 <= k < s0[t].waiters().len() implies !nw.contains(
                #[trigger] s0[t].waiters()[k],
            ) && !r1.contains(s0[t].waiters()[k]) by {
            let x = s0[t].waiters()[k];
            assert(s0[t].waiters().contains(x));
            if r0.contains(x) {
                let j = choose|j: int| 0 <= j < r0.len() && r0[j] == x;
                assert(disjoint(s0[t].waiters(), r0));
            }
            if s0[slot].waiters().contains(x) {
                let j = choose|j: int| 0 <= j < s0[slot].waiters().len() && s0[slot].waiters()[j] == x;
                assert(disjoint(s0[slot].waiters(), s0[t].waiters()));
            }
        }
        assert forall|t: int| 0 <= t < SLOTS implies (#[trigger] self.slots()[t]).wf(p1) by {
            if t != slot {
                assert(self.slots()[t] == s0[t]);
                s0[t].lemma_wf_elements(p0);
                assert forall|k: int| 0 <= k < s0[t].waiters().len() implies (#[trigger] p1[s0[t].waiters()[k] as int]).next
                    == p0[s0[t].waiters()[k] as int].next by {
                    assert(!nw.contains(s0[t].waiters()[k]));
                }
                s0[t].lemma_wf_frame(p0, p1);
            }
        }
        assert forall|t: int| 0 <= t < SLOTS implies disjoint((#[trigger] self.slots()[t]).waiters(), r1) by {
            if t != slot {
                assert(self.slots()[t] == s0[t]);
                assert forall|i: int, j: int|
                    0 <= i < s0[t].waiters().len() && 0 <= j < r1.len() implies s0[t].waiters()[i] != r1[j] by {
                    assert(!r1.contains(s0[t].waiters()[i]));
                }
            }
        }
        assert forall|s: int, t: int|
            0 <= s < SLOTS && 0 <= t < SLOTS && s != t implies disjoint(
            (#[trigger] self.slots()[s]).waiters(),
            (#[trigger] self.slots()[t]).waiters(),
        ) by {
            if s == slot {
                assert(self.slots()[t] == s0[t]);
                assert forall|i: int, j: int|
                    0 <= i < nw.len() && 0 <= j < s0[t].waiters().len() implies nw[i]
                    != s0[t].waiters()[j] by {
                    assert(!nw.contains(s0[t].waiters()[j]));
                }
            } else if t == slot {
                assert(self.slots()[s] == s0[s]);
                assert forall|i: int, j: int|
                    0 <= i < s0[s].waiters().len() && 0 <= j < nw.len() implies s0[s].waiters()[i]
                    != nw[j] by {
                    assert(!nw.contains(s0[s].waiters()[i]));
                }
            } else {
                assert(self.slots()[s] == s0[s]);
                assert(self.slots()[t] == s0[t]);
            }
        }
    }
}

} // verus!
