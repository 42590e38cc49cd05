//! One data slot shared by a writer and any number of readers, one atomic
//! step at a time.
//!
//! A reader loads the status. If the slot is filled, its task gets the
//! argument at once. If the slot is only initialised, the reader counts
//! itself, pushes its task on the waiters and loads the status again; if
//! the slot has meanwhile come to rest, the reader releases the waiters
//! itself. The writer stores the value, marks the slot as signalling,
//! releases the waiters, marks the slot as resting, and releases the waiters
//! that came while it signalled. A reader whose task has run takes one from
//! the count of readers; the one that takes the count from one to zero
//! empties the slot.
//!
//! `SlotSystem` runs these steps and keeps an invariant under which every
//! reader's task is released exactly once, none before the value is stored,
//! none is left waiting once every thread is done, and, as long as only
//! counted readers are done, the count is the number of counted readers not
//! yet done. A reader that finds the slot empty when it loads or checks the
//! status has no step to take.

use vstd::prelude::*;
use crate::sheduler::decremented;
use crate::wrapper::{Status, incremented};

verus! {

/// Where one thread of a `SlotSystem` stands.
#[derive(PartialEq, Eq, Structural, Clone, Copy, Debug)]
pub enum SlotThread {
    /// Runs no operation.
    Idle,
    /// Reads for the task; about to load the status.
    ReaderLoad(usize),
    /// Reads for the task; about to count itself as a reader.
    ReaderCount(usize),
    /// Reads for the task; about to push it on the waiters.
    ReaderPush(usize),
    /// Has pushed its task; about to load the status again.
    ReaderCheck,
    /// Found the slot at rest after pushing; releases the waiters.
    ReaderDrain,
    /// Writes; about to store the value.
    WriterStore,
    /// Writes; about to mark the slot as signalling.
    WriterSignal,
    /// Writes; releases the waiters.
    WriterDrain,
    /// Writes; about to mark the slot as resting.
    WriterRest,
    /// Writes; releases the waiters that came while it signalled.
    WriterFinish,
    /// Its task has run; about to take one from the count of readers.
    ReaderDone(usize),
}

/// What a step did.
#[derive(PartialEq, Eq, Structural, Clone, Copy, Debug)]
pub enum SlotOutcome {
    /// Nothing that the caller sees.
    Continues,
    /// Released the task: its argument is available.
    Released(usize),
}

/// The state of a `SlotSystem`: the status, whether the value is stored,
/// the waiting tasks, the count of readers, the threads, and, in order, the
/// tasks whose reading started, those released, those whose readers counted
/// themselves and those whose readers are done; whether the writer started
/// and whether it has marked the slot as resting.
pub struct SlotView {
    pub status: Status,
    pub written: bool,
    pub waiters: Seq<usize>,
    pub active: int,
    pub threads: Seq<SlotThread>,
    pub submitted: Seq<usize>,
    pub released: Seq<usize>,
    pub counted: Seq<usize>,
    pub done: Seq<usize>,
    pub writer_started: bool,
    pub rested: bool,
    pub n_tasks: nat,
}

/// The thread reads for a task that it has not pushed yet.
pub open spec fn is_pre_push(t: SlotThread) -> bool {
    t is ReaderLoad || t is ReaderCount || t is ReaderPush
}

/// The task a reader reads for.
pub open spec fn reader_of(t: SlotThread) -> usize {
    match t {
        SlotThread::ReaderLoad(f) => f,
        SlotThread::ReaderCount(f) => f,
        SlotThread::ReaderPush(f) => f,
        _ => 0,
    }
}

/// The reader has not counted itself yet.
pub open spec fn is_uncounted(t: SlotThread) -> bool {
    t is ReaderLoad || t is ReaderCount
}

/// The thread writes.
pub open spec fn is_writer(t: SlotThread) -> bool {
    t is WriterStore || t is WriterSignal || t is WriterDrain || t is WriterRest || t is WriterFinish
}

/// The thread will release the waiters, or check whether it must, before it
/// is done.
pub open spec fn is_finisher(t: SlotThread) -> bool {
    t is ReaderCheck || t is ReaderDrain || t is WriterFinish
}

/// Some reader holds task `x` that it has not pushed yet.
pub open spec fn in_flight(ts: Seq<SlotThread>, x: usize) -> bool {
    exists|t: int| 0 <= t < ts.len() && is_pre_push(#[trigger] ts[t]) && reader_of(ts[t]) == x
}

/// Some thread writes.
pub open spec fn some_writer(ts: Seq<SlotThread>) -> bool {
    exists|t: int| 0 <= t < ts.len() && is_writer(#[trigger] ts[t])
}

/// Some thread will release the waiters, or check whether it must.
pub open spec fn some_finisher(ts: Seq<SlotThread>) -> bool {
    exists|t: int| 0 <= t < ts.len() && is_finisher(#[trigger] ts[t])
}

/// The task whose reader is done, of a thread about to count down.
pub open spec fn done_of(t: SlotThread) -> usize {
    match t {
        SlotThread::ReaderDone(f) => f,
        _ => 0,
    }
}

/// What the writer's phase tells of the slot: before it signals, the slot
/// is initialised and nothing is released; between signalling and resting,
/// a reader done early may have emptied the slot.
pub open spec fn writer_phase_ok(t: SlotThread, s: SlotView) -> bool {
    match t {
        SlotThread::WriterStore => s.status == Status::Initialised && !s.written && !s.rested
            && s.released.len() == 0,
        SlotThread::WriterSignal => s.status == Status::Initialised && s.written && !s.rested
            && s.released.len() == 0,
        SlotThread::WriterDrain => s.written && !s.rested && (s.status == Status::FilledSignaling
            || s.status == Status::Empty),
        SlotThread::WriterRest => s.written && !s.rested && (s.status == Status::FilledSignaling
            || s.status == Status::Empty),
        SlotThread::WriterFinish => s.written && s.rested,
        _ => true,
    }
}

/// The moves of a slot's status: to signalling from initialised, to resting
/// from signalling or from empty, to empty from anything, or none.
pub open spec fn slot_status_moves(a: Status, b: Status) -> bool {
    ||| b == a
    ||| a == Status::Initialised && b == Status::FilledSignaling
    ||| (a == Status::FilledSignaling || a == Status::Empty) && b == Status::FilledResting
    ||| b == Status::Empty
}

/// The invariant of the shared slot.
pub open spec fn slot_inv(s: SlotView) -> bool {
    &&& s.n_tasks < usize::MAX
    &&& 0 <= s.active <= usize::MAX
    &&& s.submitted.no_duplicates()
    &&& forall|k: int| 0 <= k < s.submitted.len() ==> (#[trigger] s.submitted[k]) < s.n_tasks
    &&& s.released.no_duplicates()
    &&& s.waiters.no_duplicates()
    // Every reader's task is released, waiting, or held by its reader, and
    // only one of these.
    &&& forall|x: usize|
        #![trigger s.submitted.contains(x)]
        #![trigger s.released.contains(x)]
        #![trigger s.waiters.contains(x)]
        #![trigger in_flight(s.threads, x)]
        s.submitted.contains(x) <==> (s.released.contains(x) || s.waiters.contains(x)
            || in_flight(s.threads, x))
    &&& forall|x: usize|
        #![trigger s.released.contains(x)]
        s.released.contains(x) ==> !s.waiters.contains(x) && !in_flight(s.threads, x)
    &&& forall|x: usize|
        #![trigger s.waiters.contains(x)]
        s.waiters.contains(x) ==> !in_flight(s.threads, x)
    &&& forall|t1: int, t2: int|
        0 <= t1 < s.threads.len() && 0 <= t2 < s.threads.len() && t1 != t2 && is_pre_push(
            #[trigger] s.threads[t1],
        ) && is_pre_push(#[trigger] s.threads[t2]) ==> reader_of(s.threads[t1]) != reader_of(
            s.threads[t2],
        )
    // One writer, whose phase tells where the slot stands; before it starts
    // the slot is initialised and holds nothing, after it is done the slot
    // has been marked as resting.
    &&& forall|t1: int, t2: int|
        0 <= t1 < s.threads.len() && 0 <= t2 < s.threads.len() && is_writer(
            #[trigger] s.threads[t1],
        ) && is_writer(#[trigger] s.threads[t2]) ==> t1 == t2
    &&& forall|t: int|
        0 <= t < s.threads.len() && is_writer(#[trigger] s.threads[t]) ==> s.writer_started
            && writer_phase_ok(s.threads[t], s)
    &&& !s.writer_started ==> s.status == Status::Initialised && !s.written && !s.rested
    &&& s.writer_started && !some_writer(s.threads) ==> s.written && s.rested
    &&& !s.written ==> s.status == Status::Initialised && s.released.len() == 0
    &&& s.rested ==> s.written && (s.status == Status::FilledResting || s.status == Status::Empty)
    &&& s.status == Status::FilledResting ==> s.rested
    &&& s.status != Status::Initialised ==> s.written
    &&& forall|t: int|
        0 <= t < s.threads.len() && (#[trigger] s.threads[t]) is ReaderDrain ==> s.rested
    // Once the slot has been marked as resting, while tasks wait some thread
    // is bound to release them.
    &&& s.rested && s.waiters.len() > 0 ==> some_finisher(s.threads)
    // The readers that counted themselves, and those that are done.
    &&& s.counted.no_duplicates()
    &&& forall|x: usize| #[trigger] s.counted.contains(x) ==> s.submitted.contains(x)
    &&& forall|t: int|
        0 <= t < s.threads.len() && is_uncounted(#[trigger] s.threads[t]) ==> !s.counted.contains(
            reader_of(s.threads[t]),
        )
    &&& s.done.no_duplicates()
    &&& forall|x: usize| #[trigger] s.done.contains(x) ==> s.released.contains(x)
    &&& forall|t: int|
        0 <= t < s.threads.len() && (#[trigger] s.threads[t]) is ReaderDone ==> s.released.contains(
            done_of(s.threads[t]),
        ) && !s.done.contains(done_of(s.threads[t]))
    &&& forall|t1: int, t2: int|
        0 <= t1 < s.threads.len() && 0 <= t2 < s.threads.len() && t1 != t2 && (
        #[trigger] s.threads[t1]) is ReaderDone && (#[trigger] s.threads[t2]) is ReaderDone
            ==> done_of(s.threads[t1]) != done_of(s.threads[t2])
    // While only counted readers are done, the count is the number of
    // counted readers not yet done.
    &&& (forall|x: usize| #[trigger] s.done.contains(x) ==> s.counted.contains(x)) ==> s.active
        == s.counted.len() - s.done.len()
}

/// One atomic step of thread `tid` takes the slot from `s` to `t`.
pub open spec fn slot_step(s: SlotView, tid: int, t: SlotView) -> bool {
    match s.threads[tid] {
        SlotThread::Idle => t == s,
        SlotThread::ReaderLoad(f) => if s.status == Status::Initialised {
            t == SlotView { threads: s.threads.update(tid, SlotThread::ReaderCount(f)), ..s }
        } else if s.status == Status::Empty {
            t == s
        } else {
            t == SlotView {
                threads: s.threads.update(tid, SlotThread::Idle),
                released: s.released.push(f),
                ..s
            }
        },
        SlotThread::ReaderCount(f) => t == SlotView {
            active: incremented(s.active as usize) as int,
            threads: s.threads.update(tid, SlotThread::ReaderPush(f)),
            counted: s.counted.push(f),
            ..s
        },
        SlotThread::ReaderPush(f) => t == SlotView {
            waiters: s.waiters.push(f),
            threads: s.threads.update(tid, SlotThread::ReaderCheck),
            ..s
        },
        SlotThread::ReaderCheck => if s.status == Status::Empty {
            t == s
        } else {
            t == SlotView {
                threads: s.threads.update(
                    tid,
                    if s.status == Status::FilledResting {
                        SlotThread::ReaderDrain
                    } else {
                        SlotThread::Idle
                    },
                ),
                ..s
            }
        },
        SlotThread::ReaderDrain => drain_step(s, tid, SlotThread::Idle, t),
        SlotThread::WriterStore => t == SlotView {
            written: true,
            threads: s.threads.update(tid, SlotThread::WriterSignal),
            ..s
        },
        SlotThread::WriterSignal => t == SlotView {
            status: Status::FilledSignaling,
            threads: s.threads.update(tid, SlotThread::WriterDrain),
            ..s
        },
        SlotThread::WriterDrain => drain_step(s, tid, SlotThread::WriterRest, t),
        SlotThread::WriterRest => t == SlotView {
            status: Status::FilledResting,
            threads: s.threads.update(tid, SlotThread::WriterFinish),
            rested: true,
            ..s
        },
        SlotThread::WriterFinish => drain_step(s, tid, SlotThread::Idle, t),
        SlotThread::ReaderDone(f) => t == SlotView {
            active: decremented(s.active as usize) as int,
            status: if s.active == 1 {
                Status::Empty
            } else {
                s.status
            },
            threads: s.threads.update(tid, SlotThread::Idle),
            done: s.done.push(f),
            ..s
        },
    }
}

/// A step of a thread that releases the waiters: it pops the oldest and
/// releases its task, or, with none left, moves on to `then`.
pub open spec fn drain_step(s: SlotView, tid: int, then: SlotThread, t: SlotView) -> bool {
    if s.waiters.len() == 0 {
        t == SlotView { threads: s.threads.update(tid, then), ..s }
    } else {
        t == SlotView {
            waiters: s.waiters.drop_first(),
            released: s.released.push(s.waiters[0]),
            ..s
        }
    }
}

/// What the step of thread `tid` from `s` did.
pub open spec fn slot_outcome(s: SlotView, tid: int) -> SlotOutcome {
    match s.threads[tid] {
        SlotThread::ReaderLoad(f) => if s.status == Status::FilledSignaling || s.status
            == Status::FilledResting {
            SlotOutcome::Released(f)
        } else {
            SlotOutcome::Continues
        },
        SlotThread::ReaderDrain | SlotThread::WriterDrain | SlotThread::WriterFinish => if s.waiters.len()
            > 0 {
            SlotOutcome::Released(s.waiters[0])
        } else {
            SlotOutcome::Continues
        },
        _ => SlotOutcome::Continues,
    }
}


/// Which tasks readers hold after thread `tid` becomes `new`.
proof fn lemma_in_flight_update(ts: Seq<SlotThread>, tid: int, new: SlotThread)
    requires
        0 <= tid < ts.len(),
        forall|t1: int, t2: int|
            0 <= t1 < ts.len() && 0 <= t2 < ts.len() && t1 != t2 && is_pre_push(#[trigger] ts[t1])
                && is_pre_push(#[trigger] ts[t2]) ==> reader_of(ts[t1]) != reader_of(ts[t2]),
    ensures
        forall|x: usize|
            #[trigger] in_flight(ts.update(tid, new), x) <==> ((is_pre_push(new) && reader_of(new)
                == x) || (in_flight(ts, x) && !(is_pre_push(ts[tid]) && reader_of(ts[tid]) == x))),
{
    let u = ts.update(tid, new);
    assert forall|x: usize|
        #[trigger] in_flight(u, x) <==> ((is_pre_push(new) && reader_of(new) == x) || (in_flight(
            ts,
            x,
        ) && !(is_pre_push(ts[tid]) && reader_of(ts[tid]) == x))) by {
        if in_flight(u, x) {
            let w = choose|w: int| 0 <= w < u.len() && is_pre_push(#[trigger] u[w]) && reader_of(u[w]) == x;
            if w != tid {
                assert(ts[w] == u[w]);
            }
        }
        if is_pre_push(new) && reader_of(new) == x {
            assert(is_pre_push(u[tid]));
        }
        if in_flight(ts, x) && !(is_pre_push(ts[tid]) && reader_of(ts[tid]) == x) {
            let w = choose|w: int| 0 <= w < ts.len() && is_pre_push(#[trigger] ts[w]) && reader_of(ts[w]) == x;
            assert(u[w] == ts[w]);
        }
    }
}

/// Whether some thread writes, or is bound to release the waiters, after
/// thread `tid` becomes `new`.
proof fn lemma_some_update(ts: Seq<SlotThread>, tid: int, new: SlotThread)
    requires
        0 <= tid < ts.len(),
    ensures
        some_writer(ts.update(tid, new)) <==> (is_writer(new) || exists|t: int|
            0 <= t < ts.len() && t != tid && is_writer(#[trigger] ts[t])),
        some_finisher(ts.update(tid, new)) <==> (is_finisher(new) || exists|t: int|
            0 <= t < ts.len() && t != tid && is_finisher(#[trigger] ts[t])),
{
    let u = ts.update(tid, new);
    if some_writer(u) {
        let w = choose|w: int| 0 <= w < u.len() && is_writer(#[trigger] u[w]);
        if w != tid {
            assert(ts[w] == u[w]);
        }
    }
    if is_writer(new) {
        assert(is_writer(u[tid]));
    }
    if exists|t: int| 0 <= t < ts.len() && t != tid && is_writer(#[trigger] ts[t]) {
        let w = choose|w: int| 0 <= w < ts.len() && w != tid && is_writer(#[trigger] ts[w]);
        assert(u[w] == ts[w]);
    }
    if some_finisher(u) {
        let w = choose|w: int| 0 <= w < u.len() && is_finisher(#[trigger] u[w]);
        if w != tid {
            assert(ts[w] == u[w]);
        }
    }
    if is_finisher(new) {
        assert(is_finisher(u[tid]));
    }
    if exists|t: int| 0 <= t < ts.len() && t != tid && is_finisher(#[trigger] ts[t]) {
        let w = choose|w: int| 0 <= w < ts.len() && w != tid && is_finisher(#[trigger] ts[w]);
        assert(u[w] == ts[w]);
    }
}

/// Facts about the one writer of a state that satisfies the invariant.
proof fn lemma_writer_alone(s: SlotView, tid: int)
    requires
        slot_inv(s),
        0 <= tid < s.threads.len(),
        is_writer(s.threads[tid]),
    ensures
        !(exists|t: int| 0 <= t < s.threads.len() && t != tid && is_writer(#[trigger] s.threads[t])),
{
}


/// What a sequence holds after a push.
proof fn lemma_push_contains(q: Seq<usize>, f: usize)
    ensures
        forall|x: usize| #[trigger] q.push(f).contains(x) <==> (q.contains(x) || x == f),
{
    assert forall|x: usize| #[trigger] q.push(f).contains(x) <==> (q.contains(x) || x == f) by {
        if q.push(f).contains(x) {
            let k = choose|k: int| 0 <= k < q.push(f).len() && q.push(f)[k] == x;
            if k < q.len() {
                assert(q[k] == x);
            }
        }
        if q.contains(x) {
            let k = choose|k: int| 0 <= k < q.len() && q[k] == x;
            assert(q.push(f)[k] == x);
        }
        if x == f {
            assert(q.push(f)[q.len() as int] == x);
        }
    }
}

/// What a sequence without duplicates holds after dropping its first
/// element.
proof fn lemma_drop_first_contains(q: Seq<usize>)
    requires
        q.len() > 0,
        q.no_duplicates(),
    ensures
        forall|x: usize| #[trigger] q.drop_first().contains(x) <==> (q.contains(x) && x != q[0]),
        q.drop_first().no_duplicates(),
{
    assert forall|x: usize| #[trigger] q.drop_first().contains(x) <==> (q.contains(x) && x != q[0]) by {
        if q.drop_first().contains(x) {
            let k = choose|k: int| 0 <= k < q.drop_first().len() && q.drop_first()[k] == x;
            assert(q[k + 1] == x);
        }
        if q.contains(x) && x != q[0] {
            let k = choose|k: int| 0 <= k < q.len() && q[k] == x;
            assert(q.drop_first()[k - 1] == x);
        }
    }
    assert forall|a: int, b: int|
        0 <= a < q.drop_first().len() && 0 <= b < q.drop_first().len() && a != b implies q.drop_first()[a]
        != q.drop_first()[b] by {
        assert(q[a + 1] != q[b + 1]);
    }
}

/// A sequence without duplicates keeps none after a push of an element it
/// does not hold.
proof fn lemma_push_no_duplicates(q: Seq<usize>, f: usize)
    requires
        q.no_duplicates(),
        !q.contains(f),
    ensures
        q.push(f).no_duplicates(),
{
    assert forall|a: int, b: int|
        0 <= a < q.push(f).len() && 0 <= b < q.push(f).len() && a != b implies q.push(f)[a] != q.push(
        f,
    )[b] by {
        if a == q.len() {
            assert(q.contains(q[b]));
        } else if b == q.len() {
            assert(q.contains(q[a]));
        }
    }
}

/// A sequence without duplicates that lies within another, and lacks one of
/// its elements, is shorter.
proof fn lemma_strict_subseq_len(a: Seq<usize>, b: Seq<usize>, f: usize)
    requires
        a.no_duplicates(),
        b.no_duplicates(),
        forall|x: usize| #[trigger] a.contains(x) ==> b.contains(x),
        b.contains(f),
        !a.contains(f),
    ensures
        a.len() < b.len(),
{
    a.unique_seq_to_set();
    b.unique_seq_to_set();
    vstd::seq_lib::seq_to_set_is_finite(a);
    vstd::seq_lib::seq_to_set_is_finite(b);
    let sa = a.to_set().insert(f);
    assert forall|x: usize| sa.contains(x) implies b.to_set().contains(x) by {
        if x != f {
            assert(a.contains(x));
        }
    }
    vstd::set_lib::lemma_len_subset(sa, b.to_set());
    assert(!a.to_set().contains(f));
}

/// Counted readers are distinct tasks of the pool, so they fit the count's
/// machine word.
proof fn lemma_counted_bounded(counted: Seq<usize>, submitted: Seq<usize>, n_tasks: nat)
    requires
        counted.no_duplicates(),
        forall|x: usize| #[trigger] counted.contains(x) ==> submitted.contains(x),
        forall|k: int| 0 <= k < submitted.len() ==> (#[trigger] submitted[k]) < n_tasks,
    ensures
        counted.len() <= n_tasks,
{
    assert forall|k: int| 0 <= k < counted.len() implies (#[trigger] counted[k]) < n_tasks by {
        assert(counted.contains(counted[k]));
        assert(submitted.contains(counted[k]));
        let j = choose|j: int| 0 <= j < submitted.len() && submitted[j] == counted[k];
    }
    crate::atomic_queue::lemma_distinct_bounded(counted, n_tasks);
}

/// Every atomic step of any thread keeps the invariant of the shared slot.
pub proof fn lemma_slot_step_keeps_inv(s: SlotView, tid: int, t: SlotView)
    requires
        slot_inv(s),
        0 <= tid < s.threads.len(),
        slot_step(s, tid, t),
    ensures
        slot_inv(t),
{
    let th = s.threads[tid];
    let new = t.threads[tid];
    if t.threads != s.threads {
        assert(t.threads == s.threads.update(tid, new));
        lemma_in_flight_update(s.threads, tid, new);
        lemma_some_update(s.threads, tid, new);
        assert(forall|w: int| 0 <= w < s.threads.len() && w != tid ==> t.threads[w] == s.threads[w]);
        if is_writer(th) {
            lemma_writer_alone(s, tid);
        }
        if some_finisher(s.threads) {
            let w = choose|w: int| 0 <= w < s.threads.len() && is_finisher(#[trigger] s.threads[w]);
            if w != tid {
                assert(t.threads[w] == s.threads[w]);
            }
        }
    }
    if t.released != s.released {
        lemma_push_contains(s.released, t.released.last());
        assert(t.released == s.released.push(t.released.last()));
    }
    if t.waiters.len() > s.waiters.len() {
        lemma_push_contains(s.waiters, t.waiters.last());
        assert(t.waiters == s.waiters.push(t.waiters.last()));
    }
    if t.waiters.len() < s.waiters.len() {
        lemma_drop_first_contains(s.waiters);
        assert(s.waiters.contains(s.waiters[0]));
    }
    if t.counted != s.counted {
        lemma_push_contains(s.counted, t.counted.last());
        assert(t.counted == s.counted.push(t.counted.last()));
    }
    if t.done != s.done {
        lemma_push_contains(s.done, t.done.last());
        assert(t.done == s.done.push(t.done.last()));
    }
    match th {
        SlotThread::ReaderCount(f) => {
            assert(in_flight(s.threads, f));
            assert(!s.counted.contains(f));
            lemma_push_no_duplicates(s.counted, f);
            assert(!s.done.contains(f));
            assert forall|x: usize| #[trigger] t.counted.contains(x) implies t.submitted.contains(x) by {
                if x == f {
                    assert(s.submitted.contains(f));
                }
            }
            lemma_counted_bounded(t.counted, t.submitted, t.n_tasks);
            if forall|x: usize| #[trigger] t.done.contains(x) ==> t.counted.contains(x) {
                assert forall|x: usize| #[trigger] s.done.contains(x) implies s.counted.contains(x) by {
                    assert(t.counted.contains(x));
                    assert(x != f);
                }
                assert(s.active == s.counted.len() - s.done.len());
                assert(t.active == s.active + 1);
            }
            assert forall|w: int|
                0 <= w < t.threads.len() && is_uncounted(#[trigger] t.threads[w]) implies !t.counted.contains(
                reader_of(t.threads[w]),
            ) by {
                assert(w != tid);
                assert(s.threads[w] == t.threads[w]);
            }
        },
        SlotThread::ReaderDone(f) => {
            assert(s.released.contains(f) && !s.done.contains(f));
            lemma_push_no_duplicates(s.done, f);
            if forall|x: usize| #[trigger] t.done.contains(x) ==> t.counted.contains(x) {
                assert(t.done.contains(f));
                assert forall|x: usize| #[trigger] s.done.contains(x) implies s.counted.contains(x) by {
                    assert(t.done.contains(x));
                }
                lemma_strict_subseq_len(s.done, s.counted, f);
                assert(s.active == s.counted.len() - s.done.len());
                assert(t.active == s.active - 1);
            }
            assert forall|w: int|
                0 <= w < t.threads.len() && (#[trigger] t.threads[w]) is ReaderDone implies t.released.contains(
                done_of(t.threads[w]),
            ) && !t.done.contains(done_of(t.threads[w])) by {
                assert(w != tid);
                assert(s.threads[w] == t.threads[w]);
            }
        },
        SlotThread::ReaderLoad(f) => {
            assert(in_flight(s.threads, f));
            if s.status != Status::Initialised {
                lemma_push_no_duplicates(s.released, f);
            }
        },
        SlotThread::ReaderPush(f) => {
            assert(in_flight(s.threads, f));
            lemma_push_no_duplicates(s.waiters, f);
        },
        SlotThread::ReaderDrain | SlotThread::WriterDrain | SlotThread::WriterFinish => {
            if s.waiters.len() > 0 {
                assert(s.waiters.contains(s.waiters[0]));
                lemma_push_no_duplicates(s.released, s.waiters[0]);
            }
        },
        _ => {},
    }
    assert(slot_inv(t));
}


/// Task `f` may start to be read in `s`: it is a task of the pool whose
/// reading has not started before, and the slot is not empty.
pub open spec fn may_read(s: SlotView, f: usize) -> bool {
    &&& f < s.n_tasks
    &&& !s.submitted.contains(f)
    &&& s.status != Status::Empty
}

/// An idle thread that starts to read for a task that may be read keeps
/// the invariant.
pub proof fn lemma_start_reader_keeps_inv(s: SlotView, tid: int, f: usize)
    requires
        slot_inv(s),
        0 <= tid < s.threads.len(),
        s.threads[tid] == SlotThread::Idle,
        may_read(s, f),
    ensures
        slot_inv(
            SlotView {
                threads: s.threads.update(tid, SlotThread::ReaderLoad(f)),
                submitted: s.submitted.push(f),
                ..s
            },
        ),
{
    let t = SlotView {
        threads: s.threads.update(tid, SlotThread::ReaderLoad(f)),
        submitted: s.submitted.push(f),
        ..s
    };
    let new = SlotThread::ReaderLoad(f);
    lemma_in_flight_update(s.threads, tid, new);
    lemma_some_update(s.threads, tid, new);
    lemma_push_contains(s.submitted, f);
    lemma_push_no_duplicates(s.submitted, f);
    assert(forall|w: int| 0 <= w < s.threads.len() && w != tid ==> t.threads[w] == s.threads[w]);
    assert(!in_flight(s.threads, f));
    assert forall|t1: int, t2: int|
        0 <= t1 < t.threads.len() && 0 <= t2 < t.threads.len() && t1 != t2 && is_pre_push(
            #[trigger] t.threads[t1],
        ) && is_pre_push(#[trigger] t.threads[t2]) implies reader_of(t.threads[t1]) != reader_of(
        t.threads[t2],
    ) by {
        if t1 == tid {
            assert(in_flight(s.threads, reader_of(t.threads[t2])));
        } else if t2 == tid {
            assert(in_flight(s.threads, reader_of(t.threads[t1])));
        }
    }
    if some_finisher(s.threads) {
        let w = choose|w: int| 0 <= w < s.threads.len() && is_finisher(#[trigger] s.threads[w]);
        assert(t.threads[w] == s.threads[w]);
    }
    assert(slot_inv(t));
}

/// An idle thread that starts to write, when no writer has started, keeps
/// the invariant.
pub proof fn lemma_start_writer_keeps_inv(s: SlotView, tid: int)
    requires
        slot_inv(s),
        0 <= tid < s.threads.len(),
        s.threads[tid] == SlotThread::Idle,
        !s.writer_started,
    ensures
        slot_inv(
            SlotView {
                threads: s.threads.update(tid, SlotThread::WriterStore),
                writer_started: true,
                ..s
            },
        ),
{
    let t = SlotView {
        threads: s.threads.update(tid, SlotThread::WriterStore),
        writer_started: true,
        ..s
    };
    let new = SlotThread::WriterStore;
    lemma_in_flight_update(s.threads, tid, new);
    lemma_some_update(s.threads, tid, new);
    assert(forall|w: int| 0 <= w < s.threads.len() && w != tid ==> t.threads[w] == s.threads[w]);
    if some_finisher(s.threads) {
        let w = choose|w: int| 0 <= w < s.threads.len() && is_finisher(#[trigger] s.threads[w]);
        assert(t.threads[w] == s.threads[w]);
    }
    assert(slot_inv(t));
}

/// The reader of task `f` may be done in `s`: its task was released, and
/// no reader of it is done or about to be.
pub open spec fn may_finish(s: SlotView, f: usize) -> bool {
    &&& s.released.contains(f)
    &&& !s.done.contains(f)
    &&& forall|w: int| 0 <= w < s.threads.len() ==> #[trigger] s.threads[w] != SlotThread::ReaderDone(f)
}

/// An idle thread whose reader may be done, and starts to count down,
/// keeps the invariant.
pub proof fn lemma_start_done_keeps_inv(s: SlotView, tid: int, f: usize)
    requires
        slot_inv(s),
        0 <= tid < s.threads.len(),
        s.threads[tid] == SlotThread::Idle,
        may_finish(s, f),
    ensures
        slot_inv(SlotView { threads: s.threads.update(tid, SlotThread::ReaderDone(f)), ..s }),
{
    let t = SlotView { threads: s.threads.update(tid, SlotThread::ReaderDone(f)), ..s };
    let new = SlotThread::ReaderDone(f);
    lemma_in_flight_update(s.threads, tid, new);
    lemma_some_update(s.threads, tid, new);
    assert(forall|w: int| 0 <= w < s.threads.len() && w != tid ==> t.threads[w] == s.threads[w]);
    if some_finisher(s.threads) {
        let w = choose|w: int| 0 <= w < s.threads.len() && is_finisher(#[trigger] s.threads[w]);
        assert(t.threads[w] == s.threads[w]);
    }
    assert forall|t1: int, t2: int|
        0 <= t1 < t.threads.len() && 0 <= t2 < t.threads.len() && t1 != t2 && (
        #[trigger] t.threads[t1]) is ReaderDone && (#[trigger] t.threads[t2]) is ReaderDone implies done_of(
        t.threads[t1],
    ) != done_of(t.threads[t2]) by {
        if t1 == tid {
            assert(s.threads[t2] != SlotThread::ReaderDone(f));
        } else if t2 == tid {
            assert(s.threads[t1] != SlotThread::ReaderDone(f));
        }
    }
    assert(slot_inv(t));
}

/// The status of a slot only moves from initialised to signalling, from
/// signalling to resting, from empty to resting (when a reader released
/// while the writer signals was the last counted one and is done before the
/// writer marks the slot as resting), and to empty; and it turns empty only
/// at the step of a done reader that took the count from one to zero.
pub proof fn lemma_slot_status_moves(s: SlotView, tid: int, t: SlotView)
    requires
        slot_inv(s),
        0 <= tid < s.threads.len(),
        slot_step(s, tid, t),
    ensures
        slot_status_moves(s.status, t.status),
        t.status == Status::Empty && s.status != Status::Empty ==> s.threads[tid] is ReaderDone
            && s.active == 1,
{
    if is_writer(s.threads[tid]) {
        assert(writer_phase_ok(s.threads[tid], s));
    }
}

/// `b` is `a`, or the status that follows `a` round the cycle of a slot:
/// signalling after initialised, resting after signalling, empty after
/// resting.
pub open spec fn round_step(a: Status, b: Status) -> bool {
    ||| b == a
    ||| a == Status::Initialised && b == Status::FilledSignaling
    ||| a == Status::FilledSignaling && b == Status::FilledResting
    ||| a == Status::FilledResting && b == Status::Empty
}

/// Status lifecycle: every step keeps the status on its round, initialised,
/// signalling, resting, empty, but for the step of a reader done while the
/// writer signals that takes the count from one to zero, and the writer's
/// resting step on a slot that such a step emptied.
pub proof fn lemma_slot_status_round(s: SlotView, tid: int, t: SlotView)
    requires
        slot_inv(s),
        0 <= tid < s.threads.len(),
        slot_step(s, tid, t),
        !(s.threads[tid] is ReaderDone && s.active == 1 && s.status == Status::FilledSignaling),
        !(s.threads[tid] is WriterRest && s.status == Status::Empty),
    ensures
        round_step(s.status, t.status),
{
    if is_writer(s.threads[tid]) {
        assert(writer_phase_ok(s.threads[tid], s));
    }
}

/// Deadlock freedom: no thread waits for another; the next step of every
/// running thread moves the slot on, but for a reader that loads the status
/// of an emptied slot, which has no step (a reader must not come to a slot
/// that no writer has claimed).
pub proof fn lemma_slot_step_moves(s: SlotView, tid: int, t: SlotView)
    requires
        0 <= tid < s.threads.len(),
        s.threads[tid] != SlotThread::Idle,
        !((s.threads[tid] is ReaderLoad || s.threads[tid] is ReaderCheck) && s.status
            == Status::Empty),
        slot_step(s, tid, t),
    ensures
        t != s,
{
    match s.threads[tid] {
        SlotThread::ReaderDrain | SlotThread::WriterDrain | SlotThread::WriterFinish => {
            if s.waiters.len() > 0 {
                assert(t.waiters.len() < s.waiters.len());
            } else {
                assert(t.threads[tid] != s.threads[tid]);
            }
        },
        _ => {
            assert(t.threads[tid] != s.threads[tid]);
        },
    }
}

/// While only counted readers are done, the count of readers is the number
/// of readers that counted themselves and are not done.
pub proof fn lemma_count_tracks_counted_readers(s: SlotView)
    requires
        slot_inv(s),
        forall|x: usize| #[trigger] s.done.contains(x) ==> s.counted.contains(x),
    ensures
        s.active == s.counted.len() - s.done.len(),
{
}

/// A slot just claimed by its writer, with `n_threads` idle threads over a
/// pool of `n_tasks` tasks, satisfies the invariant.
pub proof fn lemma_init_slot_inv(n_tasks: nat, n_threads: nat)
    requires
        n_tasks < usize::MAX,
    ensures
        slot_inv(
            SlotView {
                status: Status::Initialised,
                written: false,
                waiters: Seq::empty(),
                active: 0,
                threads: Seq::new(n_threads, |i: int| SlotThread::Idle),
                submitted: Seq::empty(),
                released: Seq::empty(),
                counted: Seq::empty(),
                done: Seq::empty(),
                writer_started: false,
                rested: false,
                n_tasks,
            },
        ),
{
}

/// Every reader's task is released at most once, and only a task whose
/// reading started is released.
pub proof fn lemma_released_once(s: SlotView)
    requires
        slot_inv(s),
    ensures
        s.released.no_duplicates(),
        forall|x: usize| s.released.contains(x) ==> s.submitted.contains(x),
{
}

/// No task is released before the value is stored.
pub proof fn lemma_no_release_before_write(s: SlotView)
    requires
        slot_inv(s),
        s.released.len() > 0,
    ensures
        s.written,
{
}

/// Once the writer and every reader are done, no task waits, exactly the
/// tasks whose reading started have been released, and the slot rests
/// filled or has been emptied by its last counted reader.
pub proof fn lemma_all_released_at_rest(s: SlotView)
    requires
        slot_inv(s),
        s.writer_started,
        forall|t: int| 0 <= t < s.threads.len() ==> #[trigger] s.threads[t] == SlotThread::Idle,
    ensures
        s.status == Status::FilledResting || s.status == Status::Empty,
        s.waiters.len() == 0,
        forall|x: usize| s.released.contains(x) <==> s.submitted.contains(x),
{
    assert(!some_writer(s.threads));
    assert(!some_finisher(s.threads));
    assert forall|x: usize| !in_flight(s.threads, x) by {}
    if s.waiters.len() > 0 {
        assert(s.waiters.contains(s.waiters[0]));
    }
}


/// One data slot shared by a writer and readers, one atomic step at a time.
pub struct SlotSystem {
    status: Status,
    written: bool,
    waiters: Vec<usize>,
    active: usize,
    threads: Vec<SlotThread>,
    submitted: Ghost<Seq<usize>>,
    released: Ghost<Seq<usize>>,
    counted: Ghost<Seq<usize>>,
    done: Ghost<Seq<usize>>,
    writer_started: bool,
    rested: Ghost<bool>,
    n_tasks: usize,
}

impl View for SlotSystem {
    type V = SlotView;

    /// The shared state, the threads, and the tasks started and released.
    closed spec fn view(&self) -> SlotView {
        SlotView {
            status: self.status,
            written: self.written,
            waiters: self.waiters@,
            active: self.active as int,
            threads: self.threads@,
            submitted: self.submitted@,
            released: self.released@,
            counted: self.counted@,
            done: self.done@,
            writer_started: self.writer_started,
            rested: self.rested@,
            n_tasks: self.n_tasks as nat,
        }
    }
}

impl SlotSystem {
    /// A slot that its writer has just claimed, shared by `n_threads` idle
    /// threads over a pool of `n_tasks` tasks.
    pub fn new(n_tasks: usize, n_threads: usize) -> (sys: Self)
        requires
            n_tasks < usize::MAX,
        ensures
            sys@ == (SlotView {
                status: Status::Initialised,
                written: false,
                waiters: Seq::empty(),
                active: 0,
                threads: Seq::new(n_threads as nat, |i: int| SlotThread::Idle),
                submitted: Seq::empty(),
                released: Seq::empty(),
                counted: Seq::empty(),
                done: Seq::empty(),
                writer_started: false,
                rested: false,
                n_tasks: n_tasks as nat,
            }),
            slot_inv(sys@),
    {
        let mut threads: Vec<SlotThread> = Vec::new();
        let mut i: usize = 0;
        while i < n_threads
            invariant
                i <= n_threads,
                threads@ == Seq::new(i as nat, |j: int| SlotThread::Idle),
            decreases n_threads - i,
        {
            threads.push(SlotThread::Idle);
            i = i + 1;
        }
        proof {
            lemma_init_slot_inv(n_tasks as nat, n_threads as nat);
        }
        SlotSystem {
            status: Status::Initialised,
            written: false,
            waiters: Vec::new(),
            active: 0,
            threads,
            submitted: Ghost(Seq::empty()),
            released: Ghost(Seq::empty()),
            counted: Ghost(Seq::empty()),
            done: Ghost(Seq::empty()),
            writer_started: false,
            rested: Ghost(false),
            n_tasks,
        }
    }

    /// The number of threads.
    pub fn num_threads(&self) -> (n: usize)
        ensures
            n == self@.threads.len(),
    {
        self.threads.len()
    }

    /// Where thread `tid` stands.
    pub fn thread(&self, tid: usize) -> (t: SlotThread)
        requires
            tid < self@.threads.len(),
        ensures
            t == self@.threads[tid as int],
    {
        self.threads[tid]
    }

    /// Where the slot stands.
    pub fn status(&self) -> (st: Status)
        ensures
            st == self@.status,
    {
        self.status
    }

    /// The number of registered readers.
    pub fn active_users(&self) -> (a: usize)
        ensures
            a == self@.active,
    {
        self.active
    }

    /// Idle thread `tid` starts to read for task `f`.
    pub fn start_reader(&mut self, tid: usize, f: usize)
        requires
            slot_inv(old(self)@),
            tid < old(self)@.threads.len(),
            old(self)@.threads[tid as int] == SlotThread::Idle,
            may_read(old(self)@, f),
        ensures
            final(self)@ == (SlotView {
                threads: old(self)@.threads.update(tid as int, SlotThread::ReaderLoad(f)),
                submitted: old(self)@.submitted.push(f),
                ..old(self)@
            }),
            slot_inv(final(self)@),
    {
        proof {
            lemma_start_reader_keeps_inv(self@, tid as int, f);
        }
        self.threads.set(tid, SlotThread::ReaderLoad(f));
        self.submitted = Ghost(self.submitted@.push(f));
    }

    /// Idle thread `tid` starts to write; a slot has one writer.
    pub fn start_writer(&mut self, tid: usize)
        requires
            slot_inv(old(self)@),
            tid < old(self)@.threads.len(),
            old(self)@.threads[tid as int] == SlotThread::Idle,
            !old(self)@.writer_started,
        ensures
            final(self)@ == (SlotView {
                threads: old(self)@.threads.update(tid as int, SlotThread::WriterStore),
                writer_started: true,
                ..old(self)@
            }),
            slot_inv(final(self)@),
    {
        proof {
            lemma_start_writer_keeps_inv(self@, tid as int);
        }
        self.threads.set(tid, SlotThread::WriterStore);
        self.writer_started = true;
    }

    /// Idle thread `tid` is the reader of task `f`, whose task has run, and
    /// starts to take one from the count of readers.
    pub fn start_done(&mut self, tid: usize, f: usize)
        requires
            slot_inv(old(self)@),
            tid < old(self)@.threads.len(),
            old(self)@.threads[tid as int] == SlotThread::Idle,
            may_finish(old(self)@, f),
        ensures
            final(self)@ == (SlotView {
                threads: old(self)@.threads.update(tid as int, SlotThread::ReaderDone(f)),
                ..old(self)@
            }),
            slot_inv(final(self)@),
    {
        proof {
            lemma_start_done_keeps_inv(self@, tid as int, f);
        }
        self.threads.set(tid, SlotThread::ReaderDone(f));
    }

    /// Lets thread `tid` take its next atomic step, and reports which task
    /// it released, if any.
    pub fn step(&mut self, tid: usize) -> (r: SlotOutcome)
        requires
            slot_inv(old(self)@),
            tid < old(self)@.threads.len(),
        ensures
            slot_step(old(self)@, tid as int, final(self)@),
            r == slot_outcome(old(self)@, tid as int),
            slot_inv(final(self)@),
    {
        let ghost s0 = self@;
        let r = match self.threads[tid] {
            SlotThread::Idle => SlotOutcome::Continues,
            SlotThread::ReaderLoad(f) => {
                if self.status == Status::Initialised {
                    self.threads.set(tid, SlotThread::ReaderCount(f));
                    SlotOutcome::Continues
                } else if self.status == Status::Empty {
                    SlotOutcome::Continues
                } else {
                    self.threads.set(tid, SlotThread::Idle);
                    self.released = Ghost(self.released@.push(f));
                    SlotOutcome::Released(f)
                }
            },
            SlotThread::ReaderCount(f) => {
                let a: usize = self.active;
                self.active = if a == usize::MAX {
                    0
                } else {
                    a + 1
                };
                self.threads.set(tid, SlotThread::ReaderPush(f));
                self.counted = Ghost(self.counted@.push(f));
                SlotOutcome::Continues
            },
            SlotThread::ReaderPush(f) => {
                self.waiters.push(f);
                self.threads.set(tid, SlotThread::ReaderCheck);
                SlotOutcome::Continues
            },
            SlotThread::ReaderCheck => {
                if self.status != Status::Empty {
                    let next = if self.status == Status::FilledResting {
                        SlotThread::ReaderDrain
                    } else {
                        SlotThread::Idle
                    };
                    self.threads.set(tid, next);
                }
                SlotOutcome::Continues
            },
            SlotThread::ReaderDrain => self.drain(tid, SlotThread::Idle),
            SlotThread::WriterStore => {
                self.written = true;
                self.threads.set(tid, SlotThread::WriterSignal);
                SlotOutcome::Continues
            },
            SlotThread::WriterSignal => {
                self.status = Status::FilledSignaling;
                self.threads.set(tid, SlotThread::WriterDrain);
                SlotOutcome::Continues
            },
            SlotThread::WriterDrain => self.drain(tid, SlotThread::WriterRest),
            SlotThread::WriterRest => {
                self.status = Status::FilledResting;
                self.threads.set(tid, SlotThread::WriterFinish);
                self.rested = Ghost(true);
                SlotOutcome::Continues
            },
            SlotThread::WriterFinish => self.drain(tid, SlotThread::Idle),
            SlotThread::ReaderDone(f) => {
                let cnt: usize = self.active;
                self.active = if cnt == 0 {
                    usize::MAX
                } else {
                    cnt - 1
                };
                if cnt == 1 {
                    self.status = Status::Empty;
                }
                self.threads.set(tid, SlotThread::Idle);
                self.done = Ghost(self.done@.push(f));
                SlotOutcome::Continues
            },
        };
        proof {
            lemma_slot_step_keeps_inv(s0, tid as int, self@);
        }
        r
    }

    /// Pops the oldest waiter and releases its task, or, with none left,
    /// moves thread `tid` on to `then`.
    fn drain(&mut self, tid: usize, then: SlotThread) -> (r: SlotOutcome)
        requires
            tid < old(self)@.threads.len(),
        ensures
            drain_step(old(self)@, tid as int, then, final(self)@),
            r == (if old(self)@.waiters.len() > 0 {
                SlotOutcome::Released(old(self)@.waiters[0])
            } else {
                SlotOutcome::Continues
            }),
    {
        if self.waiters.len() == 0 {
            self.threads.set(tid, then);
            SlotOutcome::Continues
        } else {
            let g = self.waiters.remove(0);
            proof {
                assert(old(self)@.waiters.remove(0) =~= old(self)@.waiters.drop_first());
            }
            self.released = Ghost(self.released@.push(g));
            SlotOutcome::Released(g)
        }
    }
}

} // verus!
