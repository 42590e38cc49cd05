//! The queue shared between threads, one atomic step at a time.
//!
//! A push clears the link of its element, swaps the tail for that link,
//! writes the element into the slot the old tail designated, and counts one
//! more element. A pop first takes one from the count (giving it back and
//! reporting an empty queue when there was none), then takes the head by
//! swapping in nothing (retrying while the head is taken), and reads the
//! link of the element it took: when there is a successor, it becomes the
//! head; when there is none, the pop either turns the tail back to the head
//! slot, if the element is still last, or waits for the push that has taken
//! the tail to write the link.
//!
//! `QueueSystem` runs these steps for any number of threads and keeps an
//! invariant under which the elements come out in the order in which their
//! pushes took the tail, each once per push.

use vstd::prelude::*;
use crate::atomic_queue::Link;

verus! {

/// Where one thread of a `QueueSystem` stands: the next atomic step of the
/// push or pop it runs, if any.
#[derive(PartialEq, Eq, Structural, Clone, Copy, Debug)]
pub enum QueueThread {
    /// Runs no operation.
    Idle,
    /// Pushes the element; about to clear its link.
    PushClear(usize),
    /// Pushes the element; about to swap the tail for its link.
    PushSwap(usize),
    /// Pushes the element; about to write it into the slot that the old
    /// tail designated.
    PushLink(usize, Link),
    /// Pushes the element; about to count it.
    PushCount(usize),
    /// Pops; about to take one from the count.
    PopReserve,
    /// Pops and found no element; about to give the count back.
    PopRestore,
    /// Pops; about to take the head.
    PopTake,
    /// Pops and holds the element; about to read its link.
    PopRead(usize),
    /// Pops and holds the element, whose link was empty; about to turn the
    /// tail from its link back to the head slot.
    PopCas(usize),
    /// Pops and holds the element; about to make its successor the head.
    PopSetHead(usize, usize),
}

/// What a step completed.
#[derive(PartialEq, Eq, Structural, Clone, Copy, Debug)]
pub enum StepOutcome {
    /// The thread's operation goes on, or the thread runs none.
    Continues,
    /// The thread's push is complete.
    Pushed,
    /// The thread's pop is complete and returned this.
    Popped(Option<usize>),
}

/// The state of a `QueueSystem`: the shared head, tail, count and element
/// links, the threads, and the elements in the order in which their pushes
/// took the tail: all of them, those popped, and those still queued.
pub struct QueueView {
    pub head: Option<usize>,
    pub tail: Link,
    pub counter: int,
    pub links: Seq<Option<usize>>,
    pub threads: Seq<QueueThread>,
    pub order: Seq<usize>,
    pub pushed: Seq<usize>,
    pub popped: Seq<usize>,
}

/// The slot that should hold the `i`-th queued element: the head slot for
/// the first, the link of its predecessor for any other.
pub open spec fn slot_of(order: Seq<usize>, i: int) -> Link {
    if i == 0 {
        Link::Head
    } else {
        Link::Next(order[i - 1])
    }
}

/// What slot `l` holds.
pub open spec fn slot_value(s: QueueView, l: Link) -> Option<usize> {
    match l {
        Link::Head => s.head,
        Link::Next(x) => s.links[x as int],
        Link::Unset => None,
    }
}

/// The thread pushes an element whose link it has not yet swapped into the
/// tail.
pub open spec fn before_swap(t: QueueThread) -> bool {
    t is PushClear || t is PushSwap
}

/// The element that a push thread pushes.
pub open spec fn pushed_elem(t: QueueThread) -> usize {
    match t {
        QueueThread::PushClear(e) => e,
        QueueThread::PushSwap(e) => e,
        QueueThread::PushLink(e, _) => e,
        QueueThread::PushCount(e) => e,
        _ => 0,
    }
}

/// The thread pops and holds an element it took from the head.
pub open spec fn is_holder(t: QueueThread) -> bool {
    t is PopRead || t is PopCas || t is PopSetHead
}

/// The element that a holding thread holds.
pub open spec fn held_elem(t: QueueThread) -> usize {
    match t {
        QueueThread::PopRead(e) => e,
        QueueThread::PopCas(e) => e,
        QueueThread::PopSetHead(e, _) => e,
        _ => 0,
    }
}

/// The thread has swapped the tail but not yet counted its element.
pub open spec fn is_linking(t: QueueThread) -> bool {
    t is PushLink || t is PushCount
}

/// The thread holds a reservation of the count.
pub open spec fn is_reserving(t: QueueThread) -> bool {
    t is PopTake || is_holder(t)
}

/// The thread is to give back the count it took.
pub open spec fn is_restoring(t: QueueThread) -> bool {
    t is PopRestore
}

/// The number of elements of `ts` that satisfy `p`.
pub open spec fn count_where<A>(ts: Seq<A>, p: spec_fn(A) -> bool) -> nat
    decreases ts.len(),
{
    if ts.len() == 0 {
        0
    } else {
        count_where(ts.drop_last(), p) + if p(ts.last()) {
            1nat
        } else {
            0nat
        }
    }
}

/// Some thread is about to write the `i`-th queued element into its slot.
pub open spec fn link_pending(s: QueueView, i: int) -> bool {
    exists|t: int|
        0 <= t < s.threads.len() && #[trigger] s.threads[t] == QueueThread::PushLink(
            s.order[i],
            slot_of(s.order, i),
        )
}

/// Some thread holds an element it took from the head.
pub open spec fn some_holder(s: QueueView) -> bool {
    exists|t: int| 0 <= t < s.threads.len() && is_holder(#[trigger] s.threads[t])
}

/// The invariant of the shared queue.
pub open spec fn queue_inv(s: QueueView) -> bool {
    // The sizes fit the count's machine word.
    &&& s.links.len() + 3 * s.threads.len() < isize::MAX
    // Queued elements are distinct elements of the pool, and every element
    // pushed is either popped or queued, in push order.
    &&& s.order.no_duplicates()
    &&& forall|k: int| 0 <= k < s.order.len() ==> (#[trigger] s.order[k]) < s.links.len()
    &&& s.pushed == s.popped + s.order
    // The tail designates the slot after the last queued element, and that
    // slot is empty.
    &&& s.tail == (if s.order.len() == 0 {
        Link::Head
    } else {
        Link::Next(s.order.last())
    })
    &&& slot_value(s, s.tail) is None
    // Each queued element is in its slot, or its slot is still empty while
    // its push is about to write it, or, for the first, while a pop holds it.
    &&& forall|i: int|
        0 <= i < s.order.len() ==> {
            ||| slot_value(s, #[trigger] slot_of(s.order, i)) == Some(s.order[i])
            ||| slot_value(s, slot_of(s.order, i)) is None && link_pending(s, i)
            ||| slot_value(s, slot_of(s.order, i)) is None && i == 0 && some_holder(s)
        }
    // A push that has swapped the tail waits to fill the empty slot of its
    // queued element; no two threads push one element.
    &&& forall|t: int|
        0 <= t < s.threads.len() && (#[trigger] s.threads[t]) is PushLink ==> {
            let e = s.threads[t]->PushLink_0;
            let old_slot = s.threads[t]->PushLink_1;
            exists|i: int|
                0 <= i < s.order.len() && #[trigger] s.order[i] == e && old_slot == slot_of(
                    s.order,
                    i,
                ) && slot_value(s, old_slot) is None
        }
    &&& forall|t1: int, t2: int|
        0 <= t1 < s.threads.len() && 0 <= t2 < s.threads.len() && t1 != t2 && (
        #[trigger] s.threads[t1]) is PushLink && (#[trigger] s.threads[t2]) is PushLink
            ==> pushed_elem(s.threads[t1]) != pushed_elem(s.threads[t2])
    // A push that has not swapped the tail pushes an element that is not
    // queued and that no other thread pushes; once cleared, its link is
    // empty.
    &&& forall|t: int|
        0 <= t < s.threads.len() && before_swap(#[trigger] s.threads[t]) ==> {
            &&& pushed_elem(s.threads[t]) < s.links.len()
            &&& !s.order.contains(pushed_elem(s.threads[t]))
            &&& (s.threads[t] is PushSwap ==> s.links[pushed_elem(s.threads[t]) as int] is None)
        }
    &&& forall|t1: int, t2: int|
        0 <= t1 < s.threads.len() && 0 <= t2 < s.threads.len() && t1 != t2 && before_swap(
            #[trigger] s.threads[t1],
        ) && before_swap(#[trigger] s.threads[t2]) ==> pushed_elem(s.threads[t1])
            != pushed_elem(s.threads[t2])
    // At most one pop holds an element: the first queued one, taken from
    // the head, which stays empty; and then no push is about to fill the
    // head slot. A pop about to set the head holds the successor read from
    // the link.
    &&& forall|t: int|
        0 <= t < s.threads.len() && is_holder(#[trigger] s.threads[t]) ==> {
            &&& s.order.len() > 0
            &&& held_elem(s.threads[t]) == s.order[0]
            &&& s.head is None
            &&& !link_pending(s, 0)
        }
    &&& forall|t1: int, t2: int|
        0 <= t1 < s.threads.len() && 0 <= t2 < s.threads.len() && is_holder(
            #[trigger] s.threads[t1],
        ) && is_holder(#[trigger] s.threads[t2]) ==> t1 == t2
    &&& forall|t: int|
        0 <= t < s.threads.len() && (#[trigger] s.threads[t]) is PopSetHead ==> {
            &&& s.order.len() >= 2
            &&& s.threads[t]->PopSetHead_1 == s.order[1]
            &&& s.links[s.order[0] as int] == Some(s.order[1])
        }
    // The count is the number of queued elements, less those whose push has
    // not counted them yet and the reservations of the pops.
    &&& s.counter == s.order.len() - count_where(s.threads, |t: QueueThread| is_linking(t))
        - count_where(s.threads, |t: QueueThread| is_reserving(t)) - count_where(
        s.threads,
        |t: QueueThread| is_restoring(t),
    )
    // A pop reserves only while the count is positive, so the count falls
    // below zero only by the pops that are to give theirs back.
    &&& s.counter + count_where(s.threads, |t: QueueThread| is_restoring(t)) >= 0
}


/// One atomic step of thread `tid` takes the shared queue from `s` to `t`.
pub open spec fn queue_step(s: QueueView, tid: int, t: QueueView) -> bool {
    match s.threads[tid] {
        QueueThread::Idle => t == s,
        QueueThread::PushClear(e) => t == QueueView {
            links: s.links.update(e as int, None),
            threads: s.threads.update(tid, QueueThread::PushSwap(e)),
            ..s
        },
        QueueThread::PushSwap(e) => t == QueueView {
            tail: Link::Next(e),
            threads: s.threads.update(tid, QueueThread::PushLink(e, s.tail)),
            order: s.order.push(e),
            pushed: s.pushed.push(e),
            ..s
        },
        QueueThread::PushLink(e, old_slot) => match old_slot {
            Link::Next(x) => t == QueueView {
                links: s.links.update(x as int, Some(e)),
                threads: s.threads.update(tid, QueueThread::PushCount(e)),
                ..s
            },
            _ => t == QueueView {
                head: Some(e),
                threads: s.threads.update(tid, QueueThread::PushCount(e)),
                ..s
            },
        },
        QueueThread::PushCount(e) => t == QueueView {
            counter: s.counter + 1,
            threads: s.threads.update(tid, QueueThread::Idle),
            ..s
        },
        QueueThread::PopReserve => t == QueueView {
            counter: s.counter - 1,
            threads: s.threads.update(
                tid,
                if s.counter <= 0 {
                    QueueThread::PopRestore
                } else {
                    QueueThread::PopTake
                },
            ),
            ..s
        },
        QueueThread::PopRestore => t == QueueView {
            counter: s.counter + 1,
            threads: s.threads.update(tid, QueueThread::Idle),
            ..s
        },
        QueueThread::PopTake => t == QueueView {
            head: None,
            threads: s.threads.update(
                tid,
                match s.head {
                    Some(h) => QueueThread::PopRead(h),
                    None => QueueThread::PopTake,
                },
            ),
            ..s
        },
        QueueThread::PopRead(tmp) => t == QueueView {
            threads: s.threads.update(
                tid,
                match s.links[tmp as int] {
                    Some(n) => QueueThread::PopSetHead(tmp, n),
                    None => QueueThread::PopCas(tmp),
                },
            ),
            ..s
        },
        QueueThread::PopCas(tmp) => if s.tail == Link::Next(tmp) {
            t == QueueView {
                tail: Link::Head,
                threads: s.threads.update(tid, QueueThread::Idle),
                order: s.order.drop_first(),
                popped: s.popped.push(tmp),
                ..s
            }
        } else {
            t == QueueView { threads: s.threads.update(tid, QueueThread::PopRead(tmp)), ..s }
        },
        QueueThread::PopSetHead(tmp, n) => t == QueueView {
            head: Some(n),
            threads: s.threads.update(tid, QueueThread::Idle),
            order: s.order.drop_first(),
            popped: s.popped.push(tmp),
            ..s
        },
    }
}

/// What the step of thread `tid` from `s` completes.
pub open spec fn step_outcome(s: QueueView, tid: int) -> StepOutcome {
    match s.threads[tid] {
        QueueThread::PushCount(_) => StepOutcome::Pushed,
        QueueThread::PopRestore => StepOutcome::Popped(None),
        QueueThread::PopCas(tmp) => if s.tail == Link::Next(tmp) {
            StepOutcome::Popped(Some(tmp))
        } else {
            StepOutcome::Continues
        },
        QueueThread::PopSetHead(tmp, _) => StepOutcome::Popped(Some(tmp)),
        _ => StepOutcome::Continues,
    }
}

/// Changing one element changes a count by what the element leaves and
/// joins.
pub proof fn lemma_count_update<A>(ts: Seq<A>, i: int, x: A, p: spec_fn(A) -> bool)
    requires
        0 <= i < ts.len(),
    ensures
        count_where(ts.update(i, x), p) == count_where(ts, p) - (if p(ts[i]) {
            1int
        } else {
            0int
        }) + (if p(x) {
            1int
        } else {
            0int
        }),
    decreases ts.len(),
{
    let u = ts.update(i, x);
    if i == ts.len() - 1 {
        assert(u.drop_last() =~= ts.drop_last());
    } else {
        assert(u.drop_last() =~= ts.drop_last().update(i, x));
        lemma_count_update::<A>(ts.drop_last(), i, x, p);
    }
}

/// A count is at most the length.
pub proof fn lemma_count_le<A>(ts: Seq<A>, p: spec_fn(A) -> bool)
    ensures
        count_where(ts, p) <= ts.len(),
    decreases ts.len(),
{
    if ts.len() > 0 {
        lemma_count_le(ts.drop_last(), p);
    }
}

/// A count is zero when no element satisfies the predicate.
pub proof fn lemma_count_none<A>(ts: Seq<A>, p: spec_fn(A) -> bool)
    requires
        forall|i: int| 0 <= i < ts.len() ==> !p(#[trigger] ts[i]),
    ensures
        count_where(ts, p) == 0,
    decreases ts.len(),
{
    if ts.len() > 0 {
        assert(!p(ts[ts.len() - 1]));
        lemma_count_none(ts.drop_last(), p);
    }
}


/// The three counts after thread `tid` of `ts` becomes `x`.
proof fn lemma_counts_update(ts: Seq<QueueThread>, tid: int, x: QueueThread)
    requires
        0 <= tid < ts.len(),
    ensures
        count_where(ts.update(tid, x), |t: QueueThread| is_linking(t)) == count_where(
            ts,
            |t: QueueThread| is_linking(t),
        ) - (if is_linking(ts[tid]) {
            1int
        } else {
            0int
        }) + (if is_linking(x) {
            1int
        } else {
            0int
        }),
        count_where(ts.update(tid, x), |t: QueueThread| is_reserving(t)) == count_where(
            ts,
            |t: QueueThread| is_reserving(t),
        ) - (if is_reserving(ts[tid]) {
            1int
        } else {
            0int
        }) + (if is_reserving(x) {
            1int
        } else {
            0int
        }),
        count_where(ts.update(tid, x), |t: QueueThread| is_restoring(t)) == count_where(
            ts,
            |t: QueueThread| is_restoring(t),
        ) - (if is_restoring(ts[tid]) {
            1int
        } else {
            0int
        }) + (if is_restoring(x) {
            1int
        } else {
            0int
        }),
{
    lemma_count_update(ts, tid, x, |t: QueueThread| is_linking(t));
    lemma_count_update(ts, tid, x, |t: QueueThread| is_reserving(t));
    lemma_count_update(ts, tid, x, |t: QueueThread| is_restoring(t));
}

/// A step that changes one thread, which neither was nor becomes about to
/// link, leaves every pending link as it was.
proof fn lemma_pending_frame(s: QueueView, t: QueueView, tid: int)
    requires
        0 <= tid < s.threads.len(),
        t.order == s.order,
        t.threads == s.threads.update(tid, t.threads[tid]),
        !(s.threads[tid] is PushLink),
        !(t.threads[tid] is PushLink),
    ensures
        forall|i: int| 0 <= i < s.order.len() ==> (link_pending(t, i) <==> link_pending(s, i)),
{
    assert forall|i: int| 0 <= i < s.order.len() implies (link_pending(t, i) <==> link_pending(s, i)) by {
        if link_pending(s, i) {
            let w = choose|w: int|
                0 <= w < s.threads.len() && #[trigger] s.threads[w] == QueueThread::PushLink(
                    s.order[i],
                    slot_of(s.order, i),
                );
            assert(t.threads[w] == s.threads[w]);
        }
        if link_pending(t, i) {
            let w = choose|w: int|
                0 <= w < t.threads.len() && #[trigger] t.threads[w] == QueueThread::PushLink(
                    t.order[i],
                    slot_of(t.order, i),
                );
            assert(t.threads[w] == s.threads[w]);
        }
    }
}

/// Clearing the link of an element that is not queued keeps the invariant.
proof fn lemma_inv_push_clear(s: QueueView, tid: int, t: QueueView)
    requires
        queue_inv(s),
        0 <= tid < s.threads.len(),
        s.threads[tid] is PushClear,
        queue_step(s, tid, t),
    ensures
        queue_inv(t),
{
    let e = pushed_elem(s.threads[tid]);
    lemma_counts_update(s.threads, tid, QueueThread::PushSwap(e));
    assert(forall|w: int| 0 <= w < s.threads.len() && w != tid ==> t.threads[w] == s.threads[w]);
    assert(!s.order.contains(e));
    assert forall|l: Link|
        l != Link::Next(e) && (l matches Link::Next(x) ==> x < s.links.len()) implies slot_value(t, l)
        == slot_value(s, l) by {}
    assert forall|i: int| 0 <= i < s.order.len() implies slot_of(s.order, i) != Link::Next(e) by {
        if i > 0 {
            assert(s.order[i - 1] != e);
        }
    }
    if s.order.len() > 0 {
        assert(s.order.last() != e);
    }
    lemma_pending_frame(s, t, tid);
    if some_holder(s) {
        let w = choose|w: int| 0 <= w < s.threads.len() && is_holder(#[trigger] s.threads[w]);
        assert(t.threads[w] == s.threads[w]);
    }
    assert forall|w: int| 0 <= w < t.threads.len() && is_holder(#[trigger] t.threads[w]) implies !link_pending(t, 0) by {
        assert(s.threads[w] == t.threads[w]);
        if link_pending(t, 0) {
            let v = choose|v: int|
                0 <= v < t.threads.len() && #[trigger] t.threads[v] == QueueThread::PushLink(
                    t.order[0],
                    slot_of(t.order, 0),
                );
            assert(s.threads[v] == t.threads[v]);
        }
    }
    assert forall|w: int| 0 <= w < t.threads.len() && (#[trigger] t.threads[w]) is PushLink implies {
        let e2 = t.threads[w]->PushLink_0;
        let old_slot = t.threads[w]->PushLink_1;
        exists|i: int|
            0 <= i < t.order.len() && #[trigger] t.order[i] == e2 && old_slot == slot_of(t.order, i)
                && slot_value(t, old_slot) is None
    } by {
        assert(s.threads[w] == t.threads[w]);
        let i = choose|i: int|
            0 <= i < s.order.len() && #[trigger] s.order[i] == s.threads[w]->PushLink_0
                && s.threads[w]->PushLink_1 == slot_of(s.order, i) && slot_value(
                s,
                s.threads[w]->PushLink_1,
            ) is None;
        assert(t.order[i] == t.threads[w]->PushLink_0);
    }
    assert forall|w: int| 0 <= w < t.threads.len() && before_swap(#[trigger] t.threads[w]) implies {
        &&& pushed_elem(t.threads[w]) < t.links.len()
        &&& !t.order.contains(pushed_elem(t.threads[w]))
        &&& (t.threads[w] is PushSwap ==> t.links[pushed_elem(t.threads[w]) as int] is None)
    } by {
        if w != tid {
            assert(s.threads[w] == t.threads[w]);
            assert(pushed_elem(s.threads[w]) != e);
        }
    }
    assert(queue_inv(t));
}


/// Swapping the tail for the link of a cleared element queues the element,
/// with its slot still to be written, and keeps the invariant.
proof fn lemma_inv_push_swap(s: QueueView, tid: int, t: QueueView)
    requires
        queue_inv(s),
        0 <= tid < s.threads.len(),
        s.threads[tid] is PushSwap,
        queue_step(s, tid, t),
    ensures
        queue_inv(t),
{
    let e = pushed_elem(s.threads[tid]);
    let n: int = s.order.len() as int;
    lemma_counts_update(s.threads, tid, QueueThread::PushLink(e, s.tail));
    assert(forall|w: int| 0 <= w < s.threads.len() && w != tid ==> t.threads[w] == s.threads[w]);
    assert(!s.order.contains(e));
    assert(t.order[n] == e);
    assert forall|i: int| 0 <= i < n implies t.order[i] == s.order[i] && slot_of(t.order, i)
        == slot_of(s.order, i) by {}
    assert(slot_of(t.order, n) == s.tail);
    assert(t.pushed =~= t.popped + t.order);
    assert(t.order.no_duplicates()) by {
        assert forall|a: int, b: int|
            0 <= a < t.order.len() && 0 <= b < t.order.len() && a != b implies t.order[a]
            != t.order[b] by {
            if a == n {
                assert(s.order.contains(t.order[b]));
            } else if b == n {
                assert(s.order.contains(t.order[a]));
            }
        }
    }
    // Every element that a push is about to link is queued.
    assert forall|w: int| 0 <= w < s.threads.len() && (#[trigger] s.threads[w]) is PushLink implies s.order.contains(
        pushed_elem(s.threads[w]),
    ) by {
        let i = choose|i: int|
            0 <= i < s.order.len() && #[trigger] s.order[i] == s.threads[w]->PushLink_0
                && s.threads[w]->PushLink_1 == slot_of(s.order, i) && slot_value(
                s,
                s.threads[w]->PushLink_1,
            ) is None;
    }
    assert forall|i: int| 0 <= i < n && link_pending(s, i) implies link_pending(t, i) by {
        let w = choose|w: int|
            0 <= w < s.threads.len() && #[trigger] s.threads[w] == QueueThread::PushLink(
                s.order[i],
                slot_of(s.order, i),
            );
        assert(t.threads[w] == s.threads[w]);
    }
    assert(link_pending(t, n)) by {
        assert(t.threads[tid] == QueueThread::PushLink(t.order[n], slot_of(t.order, n)));
    }
    if some_holder(s) {
        let w = choose|w: int| 0 <= w < s.threads.len() && is_holder(#[trigger] s.threads[w]);
        assert(t.threads[w] == s.threads[w]);
    }
    assert forall|w: int| 0 <= w < t.threads.len() && is_holder(#[trigger] t.threads[w]) implies !link_pending(t, 0) by {
        assert(s.threads[w] == t.threads[w]);
        if link_pending(t, 0) {
            let v = choose|v: int|
                0 <= v < t.threads.len() && #[trigger] t.threads[v] == QueueThread::PushLink(
                    t.order[0],
                    slot_of(t.order, 0),
                );
            if v == tid {
                assert(s.order[0] == e);
            } else {
                assert(s.threads[v] == t.threads[v]);
                assert(link_pending(s, 0));
            }
        }
    }
    assert forall|w: int| 0 <= w < t.threads.len() && (#[trigger] t.threads[w]) is PushLink implies {
        let e2 = t.threads[w]->PushLink_0;
        let old_slot = t.threads[w]->PushLink_1;
        exists|i: int|
            0 <= i < t.order.len() && #[trigger] t.order[i] == e2 && old_slot == slot_of(t.order, i)
                && slot_value(t, old_slot) is None
    } by {
        if w == tid {
            assert(t.order[n] == e);
        } else {
            assert(s.threads[w] == t.threads[w]);
            let i = choose|i: int|
                0 <= i < s.order.len() && #[trigger] s.order[i] == s.threads[w]->PushLink_0
                    && s.threads[w]->PushLink_1 == slot_of(s.order, i) && slot_value(
                    s,
                    s.threads[w]->PushLink_1,
                ) is None;
            assert(t.order[i] == t.threads[w]->PushLink_0);
        }
    }
    assert forall|t1: int, t2: int|
        0 <= t1 < t.threads.len() && 0 <= t2 < t.threads.len() && t1 != t2 && (
        #[trigger] t.threads[t1]) is PushLink && (#[trigger] t.threads[t2]) is PushLink implies pushed_elem(
        t.threads[t1],
    ) != pushed_elem(t.threads[t2]) by {
        if t1 == tid {
            assert(s.threads[t2] == t.threads[t2]);
        } else if t2 == tid {
            assert(s.threads[t1] == t.threads[t1]);
        } else {
            assert(s.threads[t1] == t.threads[t1]);
            assert(s.threads[t2] == t.threads[t2]);
        }
    }
    assert forall|w: int| 0 <= w < t.threads.len() && before_swap(#[trigger] t.threads[w]) implies {
        &&& pushed_elem(t.threads[w]) < t.links.len()
        &&& !t.order.contains(pushed_elem(t.threads[w]))
        &&& (t.threads[w] is PushSwap ==> t.links[pushed_elem(t.threads[w]) as int] is None)
    } by {
        assert(s.threads[w] == t.threads[w]);
        assert(pushed_elem(s.threads[w]) != e);
        if t.order.contains(pushed_elem(t.threads[w])) {
            let k = choose|k: int| 0 <= k < t.order.len() && t.order[k] == pushed_elem(t.threads[w]);
            if k < n {
                assert(s.order[k] == pushed_elem(s.threads[w]));
            }
        }
    }
    assert forall|i: int| 0 <= i < t.order.len() implies {
        ||| slot_value(t, #[trigger] slot_of(t.order, i)) == Some(t.order[i])
        ||| slot_value(t, slot_of(t.order, i)) is None && link_pending(t, i)
        ||| slot_value(t, slot_of(t.order, i)) is None && i == 0 && some_holder(t)
    } by {
        if i < n {
            assert(slot_of(t.order, i) == slot_of(s.order, i));
        }
    }
    assert(queue_inv(t));
}


/// Distinct queued positions, and the position after the last, have
/// distinct slots.
proof fn lemma_slot_of_injective(order: Seq<usize>, i: int, j: int)
    requires
        order.no_duplicates(),
        0 <= i <= order.len(),
        0 <= j <= order.len(),
        i != j,
    ensures
        slot_of(order, i) != slot_of(order, j),
{
    if i > 0 && j > 0 {
        assert(order[i - 1] != order[j - 1]);
    }
}

/// The tail designates the slot after the last queued element.
proof fn lemma_tail_slot(s: QueueView)
    requires
        queue_inv(s),
    ensures
        s.tail == slot_of(s.order, s.order.len() as int),
{
}

/// Writing a queued element into its empty slot keeps the invariant.
proof fn lemma_inv_push_link(s: QueueView, tid: int, t: QueueView)
    requires
        queue_inv(s),
        0 <= tid < s.threads.len(),
        s.threads[tid] is PushLink,
        queue_step(s, tid, t),
    ensures
        queue_inv(t),
{
    let e = s.threads[tid]->PushLink_0;
    let old_slot = s.threads[tid]->PushLink_1;
    let n: int = s.order.len() as int;
    lemma_counts_update(s.threads, tid, QueueThread::PushCount(e));
    assert(forall|w: int| 0 <= w < s.threads.len() && w != tid ==> t.threads[w] == s.threads[w]);
    let i0 = choose|i: int|
        0 <= i < s.order.len() && #[trigger] s.order[i] == e && old_slot == slot_of(s.order, i)
            && slot_value(s, old_slot) is None;
    lemma_tail_slot(s);
    lemma_slot_of_injective(s.order, i0, n);
    if i0 > 0 {
        assert(s.order[i0 - 1] < s.links.len());
    }
    // Every other slot keeps its content.
    assert forall|i: int| 0 <= i <= n && i != i0 implies slot_value(t, slot_of(s.order, i))
        == slot_value(s, slot_of(s.order, i)) by {
        lemma_slot_of_injective(s.order, i0, i);
        if i > 0 {
            assert(s.order[i - 1] < s.links.len());
        }
    }
    assert(slot_value(t, old_slot) == Some(e));
    assert forall|i: int| 0 <= i < n && i != i0 && link_pending(s, i) implies link_pending(t, i) by {
        let w = choose|w: int|
            0 <= w < s.threads.len() && #[trigger] s.threads[w] == QueueThread::PushLink(
                s.order[i],
                slot_of(s.order, i),
            );
        if w == tid {
            assert(s.order[i] == s.order[i0]);
        }
        assert(t.threads[w] == s.threads[w]);
    }
    if some_holder(s) {
        let w = choose|w: int| 0 <= w < s.threads.len() && is_holder(#[trigger] s.threads[w]);
        assert(t.threads[w] == s.threads[w]);
        if old_slot == Link::Head {
            assert(i0 == 0) by {
                if i0 != 0 {
                    lemma_slot_of_injective(s.order, i0, 0);
                }
            }
            assert(link_pending(s, 0));
        }
    }
    assert forall|w: int| 0 <= w < t.threads.len() && is_holder(#[trigger] t.threads[w]) implies !link_pending(t, 0) by {
        assert(s.threads[w] == t.threads[w]);
        if link_pending(t, 0) {
            let v = choose|v: int|
                0 <= v < t.threads.len() && #[trigger] t.threads[v] == QueueThread::PushLink(
                    t.order[0],
                    slot_of(t.order, 0),
                );
            assert(s.threads[v] == t.threads[v]);
            assert(link_pending(s, 0));
        }
    }
    assert forall|w: int| 0 <= w < t.threads.len() && (#[trigger] t.threads[w]) is PushLink implies {
        let e2 = t.threads[w]->PushLink_0;
        let o2 = t.threads[w]->PushLink_1;
        exists|i: int|
            0 <= i < t.order.len() && #[trigger] t.order[i] == e2 && o2 == slot_of(t.order, i)
                && slot_value(t, o2) is None
    } by {
        assert(s.threads[w] == t.threads[w]);
        let i = choose|i: int|
            0 <= i < s.order.len() && #[trigger] s.order[i] == s.threads[w]->PushLink_0
                && s.threads[w]->PushLink_1 == slot_of(s.order, i) && slot_value(
                s,
                s.threads[w]->PushLink_1,
            ) is None;
        assert(i != i0);
    }
    assert forall|w: int| 0 <= w < t.threads.len() && before_swap(#[trigger] t.threads[w]) implies {
        &&& pushed_elem(t.threads[w]) < t.links.len()
        &&& !t.order.contains(pushed_elem(t.threads[w]))
        &&& (t.threads[w] is PushSwap ==> t.links[pushed_elem(t.threads[w]) as int] is None)
    } by {
        assert(s.threads[w] == t.threads[w]);
        if i0 > 0 {
            assert(s.order.contains(s.order[i0 - 1]));
        }
    }
    assert forall|w: int| 0 <= w < t.threads.len() && (#[trigger] t.threads[w]) is PopSetHead implies {
        &&& t.order.len() >= 2
        &&& t.threads[w]->PopSetHead_1 == t.order[1]
        &&& t.links[t.order[0] as int] == Some(t.order[1])
    } by {
        assert(s.threads[w] == t.threads[w]);
        assert(slot_value(s, slot_of(s.order, 1)) == Some(s.order[1]));
        assert(i0 != 1);
        assert(slot_value(t, slot_of(s.order, 1)) == slot_value(s, slot_of(s.order, 1)));
    }
    assert forall|i: int| 0 <= i < t.order.len() implies {
        ||| slot_value(t, #[trigger] slot_of(t.order, i)) == Some(t.order[i])
        ||| slot_value(t, slot_of(t.order, i)) is None && link_pending(t, i)
        ||| slot_value(t, slot_of(t.order, i)) is None && i == 0 && some_holder(t)
    } by {
        if i != i0 {
            assert(slot_value(t, slot_of(s.order, i)) == slot_value(s, slot_of(s.order, i)));
        }
    }
    assert(queue_inv(t));
}


/// The thread takes part in none of the invariant's clauses but the count.
spec fn passive(t: QueueThread) -> bool {
    !(t is PushLink) && !before_swap(t) && !is_holder(t)
}

/// A step that only moves a passive thread to another passive state, and
/// moves the count along with the thread's counted role, keeps the
/// invariant.
proof fn lemma_inv_passive(s: QueueView, tid: int, x: QueueThread, c: int, t: QueueView)
    requires
        queue_inv(s),
        0 <= tid < s.threads.len(),
        passive(s.threads[tid]),
        passive(x),
        !is_linking(x),
        is_reserving(x) && !is_reserving(s.threads[tid]) ==> s.counter > 0,
        t == (QueueView { counter: c, threads: s.threads.update(tid, x), ..s }),
        c == s.counter + (if is_linking(s.threads[tid]) {
            1int
        } else {
            0int
        }) - (if is_linking(x) {
            1int
        } else {
            0int
        }) + (if is_reserving(s.threads[tid]) {
            1int
        } else {
            0int
        }) - (if is_reserving(x) {
            1int
        } else {
            0int
        }) + (if is_restoring(s.threads[tid]) {
            1int
        } else {
            0int
        }) - (if is_restoring(x) {
            1int
        } else {
            0int
        }),
    ensures
        queue_inv(t),
{
    lemma_counts_update(s.threads, tid, x);
    assert(forall|w: int| 0 <= w < s.threads.len() && w != tid ==> t.threads[w] == s.threads[w]);
    lemma_pending_frame(s, t, tid);
    if some_holder(s) {
        let w = choose|w: int| 0 <= w < s.threads.len() && is_holder(#[trigger] s.threads[w]);
        assert(t.threads[w] == s.threads[w]);
    }
    assert forall|w: int| 0 <= w < t.threads.len() && is_holder(#[trigger] t.threads[w]) implies !link_pending(t, 0) by {
        assert(s.threads[w] == t.threads[w]);
    }
    assert forall|w: int| 0 <= w < t.threads.len() && (#[trigger] t.threads[w]) is PushLink implies {
        let e2 = t.threads[w]->PushLink_0;
        let o2 = t.threads[w]->PushLink_1;
        exists|i: int|
            0 <= i < t.order.len() && #[trigger] t.order[i] == e2 && o2 == slot_of(t.order, i)
                && slot_value(t, o2) is None
    } by {
        assert(s.threads[w] == t.threads[w]);
    }
    assert forall|i: int| 0 <= i < t.order.len() implies {
        ||| slot_value(t, #[trigger] slot_of(t.order, i)) == Some(t.order[i])
        ||| slot_value(t, slot_of(t.order, i)) is None && link_pending(t, i)
        ||| slot_value(t, slot_of(t.order, i)) is None && i == 0 && some_holder(t)
    } by {
        assert(slot_value(t, slot_of(s.order, i)) == slot_value(s, slot_of(s.order, i)));
    }
    assert(queue_inv(t));
}


/// Taking the head keeps the invariant: a pop that finds it filled holds the
/// first queued element.
proof fn lemma_inv_pop_take(s: QueueView, tid: int, t: QueueView)
    requires
        queue_inv(s),
        0 <= tid < s.threads.len(),
        s.threads[tid] is PopTake,
        queue_step(s, tid, t),
    ensures
        queue_inv(t),
{
    if s.head is None {
        assert(t.threads =~= s.threads);
        assert(t == s);
    } else {
        let h = s.head->Some_0;
        let x = QueueThread::PopRead(h);
        lemma_counts_update(s.threads, tid, x);
        assert(forall|w: int| 0 <= w < s.threads.len() && w != tid ==> t.threads[w] == s.threads[w]);
        assert(s.order.len() > 0);
        assert(slot_of(s.order, 0) == Link::Head);
        assert(slot_value(s, slot_of(s.order, 0)) == Some(s.order[0]));
        assert(h == s.order[0]);
        assert(!some_holder(s)) by {
            if some_holder(s) {
                let w = choose|w: int| 0 <= w < s.threads.len() && is_holder(#[trigger] s.threads[w]);
            }
        }
        // No push is about to fill the head slot, which was filled.
        assert forall|w: int| 0 <= w < s.threads.len() && (#[trigger] s.threads[w]) is PushLink implies s.threads[w]->PushLink_1
            != Link::Head by {
            let i = choose|i: int|
                0 <= i < s.order.len() && #[trigger] s.order[i] == s.threads[w]->PushLink_0
                    && s.threads[w]->PushLink_1 == slot_of(s.order, i) && slot_value(
                    s,
                    s.threads[w]->PushLink_1,
                ) is None;
        }
        assert(!link_pending(s, 0)) by {
            if link_pending(s, 0) {
                let v = choose|v: int|
                    0 <= v < s.threads.len() && #[trigger] s.threads[v] == QueueThread::PushLink(
                        s.order[0],
                        slot_of(s.order, 0),
                    );
            }
        }
        assert(!link_pending(t, 0)) by {
            if link_pending(t, 0) {
                let v = choose|v: int|
                    0 <= v < t.threads.len() && #[trigger] t.threads[v] == QueueThread::PushLink(
                        t.order[0],
                        slot_of(t.order, 0),
                    );
                assert(s.threads[v] == t.threads[v]);
            }
        }
        assert(some_holder(t)) by {
            assert(is_holder(t.threads[tid]));
        }
        assert forall|i: int| 1 <= i < s.order.len() && link_pending(s, i) implies link_pending(t, i) by {
            let w = choose|w: int|
                0 <= w < s.threads.len() && #[trigger] s.threads[w] == QueueThread::PushLink(
                    s.order[i],
                    slot_of(s.order, i),
                );
            assert(t.threads[w] == s.threads[w]);
        }
        assert forall|w: int| 0 <= w < t.threads.len() && (#[trigger] t.threads[w]) is PushLink implies {
            let e2 = t.threads[w]->PushLink_0;
            let o2 = t.threads[w]->PushLink_1;
            exists|i: int|
                0 <= i < t.order.len() && #[trigger] t.order[i] == e2 && o2 == slot_of(t.order, i)
                    && slot_value(t, o2) is None
        } by {
            assert(s.threads[w] == t.threads[w]);
            let i = choose|i: int|
                0 <= i < s.order.len() && #[trigger] s.order[i] == s.threads[w]->PushLink_0
                    && s.threads[w]->PushLink_1 == slot_of(s.order, i) && slot_value(
                    s,
                    s.threads[w]->PushLink_1,
                ) is None;
            assert(t.order[i] == t.threads[w]->PushLink_0);
        }
        assert forall|t1: int, t2: int|
            0 <= t1 < t.threads.len() && 0 <= t2 < t.threads.len() && is_holder(
                #[trigger] t.threads[t1],
            ) && is_holder(#[trigger] t.threads[t2]) implies t1 == t2 by {
            if t1 != tid {
                assert(s.threads[t1] == t.threads[t1]);
            }
            if t2 != tid {
                assert(s.threads[t2] == t.threads[t2]);
            }
        }
        assert forall|w: int| 0 <= w < t.threads.len() && is_holder(#[trigger] t.threads[w]) implies {
            &&& t.order.len() > 0
            &&& held_elem(t.threads[w]) == t.order[0]
            &&& t.head is None
            &&& !link_pending(t, 0)
        } by {
            if w != tid {
                assert(s.threads[w] == t.threads[w]);
            }
        }
        assert forall|w: int| 0 <= w < t.threads.len() && (#[trigger] t.threads[w]) is PopSetHead implies {
            &&& t.order.len() >= 2
            &&& t.threads[w]->PopSetHead_1 == t.order[1]
            &&& t.links[t.order[0] as int] == Some(t.order[1])
        } by {
            assert(s.threads[w] == t.threads[w]);
        }
        assert forall|w: int| 0 <= w < t.threads.len() && before_swap(#[trigger] t.threads[w]) implies {
            &&& pushed_elem(t.threads[w]) < t.links.len()
            &&& !t.order.contains(pushed_elem(t.threads[w]))
            &&& (t.threads[w] is PushSwap ==> t.links[pushed_elem(t.threads[w]) as int] is None)
        } by {
            assert(s.threads[w] == t.threads[w]);
        }
        assert forall|i: int| 0 <= i < t.order.len() implies {
            ||| slot_value(t, #[trigger] slot_of(t.order, i)) == Some(t.order[i])
            ||| slot_value(t, slot_of(t.order, i)) is None && link_pending(t, i)
            ||| slot_value(t, slot_of(t.order, i)) is None && i == 0 && some_holder(t)
        } by {
            if i > 0 {
                assert(slot_value(t, slot_of(s.order, i)) == slot_value(s, slot_of(s.order, i)));
            }
        }
        assert(queue_inv(t));
    }
}


/// A step that only moves the holding pop to another holding state for the
/// same element keeps the invariant, provided that a pop about to set the
/// head has read the successor of the first queued element.
proof fn lemma_inv_holder_move(s: QueueView, tid: int, x: QueueThread, t: QueueView)
    requires
        queue_inv(s),
        0 <= tid < s.threads.len(),
        is_holder(s.threads[tid]),
        is_holder(x),
        held_elem(x) == held_elem(s.threads[tid]),
        x is PopSetHead ==> {
            &&& s.order.len() >= 2
            &&& x->PopSetHead_1 == s.order[1]
            &&& s.links[s.order[0] as int] == Some(s.order[1])
        },
        t == (QueueView { threads: s.threads.update(tid, x), ..s }),
    ensures
        queue_inv(t),
{
    lemma_counts_update(s.threads, tid, x);
    assert(forall|w: int| 0 <= w < s.threads.len() && w != tid ==> t.threads[w] == s.threads[w]);
    lemma_pending_frame(s, t, tid);
    assert(some_holder(t)) by {
        assert(is_holder(t.threads[tid]));
    }
    assert(!link_pending(t, 0)) by {
        if link_pending(t, 0) {
            let v = choose|v: int|
                0 <= v < t.threads.len() && #[trigger] t.threads[v] == QueueThread::PushLink(
                    t.order[0],
                    slot_of(t.order, 0),
                );
            assert(s.threads[v] == t.threads[v]);
            assert(link_pending(s, 0));
        }
    }
    assert forall|w: int| 0 <= w < t.threads.len() && (#[trigger] t.threads[w]) is PushLink implies {
        let e2 = t.threads[w]->PushLink_0;
        let o2 = t.threads[w]->PushLink_1;
        exists|i: int|
            0 <= i < t.order.len() && #[trigger] t.order[i] == e2 && o2 == slot_of(t.order, i)
                && slot_value(t, o2) is None
    } by {
        assert(s.threads[w] == t.threads[w]);
    }
    assert forall|t1: int, t2: int|
        0 <= t1 < t.threads.len() && 0 <= t2 < t.threads.len() && is_holder(
            #[trigger] t.threads[t1],
        ) && is_holder(#[trigger] t.threads[t2]) implies t1 == t2 by {
        assert(is_holder(s.threads[t1]));
        assert(is_holder(s.threads[t2]));
    }
    assert forall|w: int| 0 <= w < t.threads.len() && is_holder(#[trigger] t.threads[w]) implies {
        &&& t.order.len() > 0
        &&& held_elem(t.threads[w]) == t.order[0]
        &&& t.head is None
        &&& !link_pending(t, 0)
    } by {
        assert(is_holder(s.threads[w]));
    }
    assert forall|w: int| 0 <= w < t.threads.len() && (#[trigger] t.threads[w]) is PopSetHead implies {
        &&& t.order.len() >= 2
        &&& t.threads[w]->PopSetHead_1 == t.order[1]
        &&& t.links[t.order[0] as int] == Some(t.order[1])
    } by {
        if w != tid {
            assert(s.threads[w] == t.threads[w]);
        }
    }
    assert forall|w: int| 0 <= w < t.threads.len() && before_swap(#[trigger] t.threads[w]) implies {
        &&& pushed_elem(t.threads[w]) < t.links.len()
        &&& !t.order.contains(pushed_elem(t.threads[w]))
        &&& (t.threads[w] is PushSwap ==> t.links[pushed_elem(t.threads[w]) as int] is None)
    } by {
        assert(s.threads[w] == t.threads[w]);
    }
    assert forall|i: int| 0 <= i < t.order.len() implies {
        ||| slot_value(t, #[trigger] slot_of(t.order, i)) == Some(t.order[i])
        ||| slot_value(t, slot_of(t.order, i)) is None && link_pending(t, i)
        ||| slot_value(t, slot_of(t.order, i)) is None && i == 0 && some_holder(t)
    } by {
        assert(slot_value(t, slot_of(s.order, i)) == slot_value(s, slot_of(s.order, i)));
    }
    assert(queue_inv(t));
}

/// Reading the link of the held element keeps the invariant: a filled link
/// holds the second queued element.
proof fn lemma_inv_pop_read(s: QueueView, tid: int, t: QueueView)
    requires
        queue_inv(s),
        0 <= tid < s.threads.len(),
        s.threads[tid] is PopRead,
        queue_step(s, tid, t),
    ensures
        queue_inv(t),
{
    let tmp = s.threads[tid]->PopRead_0;
    assert(is_holder(s.threads[tid]));
    assert(tmp == s.order[0]);
    match s.links[tmp as int] {
        Some(n) => {
            lemma_tail_slot(s);
            if s.order.len() == 1 {
                assert(s.order.last() == tmp);
            }
            assert(s.order.len() >= 2);
            assert(slot_of(s.order, 1) == Link::Next(tmp));
            assert(slot_value(s, slot_of(s.order, 1)) == Some(n));
            lemma_inv_holder_move(s, tid, QueueThread::PopSetHead(tmp, n), t);
        },
        None => {
            lemma_inv_holder_move(s, tid, QueueThread::PopCas(tmp), t);
        },
    }
}


/// Facts about the holding pop of a state that satisfies the invariant: it
/// is the only holder, and no push is about to fill the head slot.
proof fn lemma_holder_facts(s: QueueView, tid: int)
    requires
        queue_inv(s),
        0 <= tid < s.threads.len(),
        is_holder(s.threads[tid]),
    ensures
        forall|w: int| 0 <= w < s.threads.len() && w != tid ==> !is_holder(#[trigger] s.threads[w]),
        forall|w: int|
            0 <= w < s.threads.len() && (#[trigger] s.threads[w]) is PushLink ==> s.threads[w]->PushLink_1
                != Link::Head,
{
    assert forall|w: int|
        0 <= w < s.threads.len() && (#[trigger] s.threads[w]) is PushLink implies s.threads[w]->PushLink_1
        != Link::Head by {
        let i = choose|i: int|
            0 <= i < s.order.len() && #[trigger] s.order[i] == s.threads[w]->PushLink_0
                && s.threads[w]->PushLink_1 == slot_of(s.order, i) && slot_value(
                s,
                s.threads[w]->PushLink_1,
            ) is None;
        if s.threads[w]->PushLink_1 == Link::Head {
            assert(i == 0);
            assert(s.threads[w] == QueueThread::PushLink(s.order[0], slot_of(s.order, 0)));
            assert(link_pending(s, 0));
        }
    }
}

/// Turning the tail back to the head slot when the held element is the only
/// one queued removes it and keeps the invariant.
proof fn lemma_inv_pop_cas(s: QueueView, tid: int, t: QueueView)
    requires
        queue_inv(s),
        0 <= tid < s.threads.len(),
        s.threads[tid] is PopCas,
        queue_step(s, tid, t),
    ensures
        queue_inv(t),
{
    let tmp = s.threads[tid]->PopCas_0;
    assert(is_holder(s.threads[tid]));
    if s.tail == Link::Next(tmp) {
        lemma_holder_facts(s, tid);
        lemma_counts_update(s.threads, tid, QueueThread::Idle);
        assert(forall|w: int| 0 <= w < s.threads.len() && w != tid ==> t.threads[w] == s.threads[w]);
        assert(s.order.len() == 1) by {
            if s.order.len() > 1 {
                assert(s.order[s.order.len() - 1] == s.order[0]);
            }
        }
        assert(t.order =~= Seq::<usize>::empty());
        assert(t.pushed =~= t.popped + t.order);
        assert forall|w: int| 0 <= w < t.threads.len() implies !((#[trigger] t.threads[w]) is PushLink) by {
            if w != tid && s.threads[w] is PushLink {
                let i = choose|i: int|
                    0 <= i < s.order.len() && #[trigger] s.order[i] == s.threads[w]->PushLink_0
                        && s.threads[w]->PushLink_1 == slot_of(s.order, i) && slot_value(
                        s,
                        s.threads[w]->PushLink_1,
                    ) is None;
            }
        }
        assert forall|w: int| 0 <= w < t.threads.len() implies !is_holder(#[trigger] t.threads[w]) by {}
        assert forall|w: int| 0 <= w < t.threads.len() && before_swap(#[trigger] t.threads[w]) implies {
            &&& pushed_elem(t.threads[w]) < t.links.len()
            &&& !t.order.contains(pushed_elem(t.threads[w]))
            &&& (t.threads[w] is PushSwap ==> t.links[pushed_elem(t.threads[w]) as int] is None)
        } by {
            assert(s.threads[w] == t.threads[w]);
        }
        assert(queue_inv(t));
    } else {
        lemma_inv_holder_move(s, tid, QueueThread::PopRead(tmp), t);
    }
}

/// Making the successor of the held element the head removes the held
/// element and keeps the invariant.
proof fn lemma_inv_pop_set_head(s: QueueView, tid: int, t: QueueView)
    requires
        queue_inv(s),
        0 <= tid < s.threads.len(),
        s.threads[tid] is PopSetHead,
        queue_step(s, tid, t),
    ensures
        queue_inv(t),
{
    let tmp = s.threads[tid]->PopSetHead_0;
    let n = s.threads[tid]->PopSetHead_1;
    assert(is_holder(s.threads[tid]));
    lemma_holder_facts(s, tid);
    lemma_counts_update(s.threads, tid, QueueThread::Idle);
    assert(forall|w: int| 0 <= w < s.threads.len() && w != tid ==> t.threads[w] == s.threads[w]);
    let o = s.order;
    let o2 = t.order;
    assert(o.len() >= 2 && n == o[1] && tmp == o[0]);
    assert forall|i: int| 0 <= i < o2.len() implies #[trigger] o2[i] == o[i + 1] by {}
    assert forall|i: int| 1 <= i < o2.len() implies #[trigger] slot_of(o2, i) == slot_of(o, i + 1) by {}
    assert(t.pushed =~= t.popped + t.order) by {
        assert(s.popped + s.order =~= s.popped.push(tmp) + o2);
    }
    assert(o2.no_duplicates()) by {
        assert forall|a: int, b: int| 0 <= a < o2.len() && 0 <= b < o2.len() && a != b implies o2[a]
            != o2[b] by {
            assert(o[a + 1] != o[b + 1]);
        }
    }
    lemma_tail_slot(s);
    assert(o2.last() == o.last());
    // A push about to link writes a slot past the second queued element.
    assert forall|w: int| 0 <= w < s.threads.len() && (#[trigger] s.threads[w]) is PushLink implies exists|i: int|
        2 <= i < o.len() && #[trigger] o[i] == s.threads[w]->PushLink_0 && s.threads[w]->PushLink_1
            == slot_of(o, i) && slot_value(s, s.threads[w]->PushLink_1) is None by {
        let i = choose|i: int|
            0 <= i < o.len() && #[trigger] o[i] == s.threads[w]->PushLink_0 && s.threads[w]->PushLink_1
                == slot_of(o, i) && slot_value(s, s.threads[w]->PushLink_1) is None;
        if i == 1 {
            assert(slot_value(s, slot_of(o, 1)) == Some(o[1]));
        }
        assert(i >= 2);
    }
    assert forall|w: int| 0 <= w < t.threads.len() && (#[trigger] t.threads[w]) is PushLink implies {
        let e2 = t.threads[w]->PushLink_0;
        let old_slot = t.threads[w]->PushLink_1;
        exists|i: int|
            0 <= i < t.order.len() && #[trigger] t.order[i] == e2 && old_slot == slot_of(t.order, i)
                && slot_value(t, old_slot) is None
    } by {
        assert(s.threads[w] == t.threads[w]);
        let i = choose|i: int|
            2 <= i < o.len() && #[trigger] o[i] == s.threads[w]->PushLink_0 && s.threads[w]->PushLink_1
                == slot_of(o, i) && slot_value(s, s.threads[w]->PushLink_1) is None;
        assert(o2[i - 1] == o[i]);
        assert(slot_of(o2, i - 1) == slot_of(o, i));
        assert(o[i - 1] < s.links.len());
    }
    assert forall|i: int| 1 <= i < o2.len() && link_pending(s, i + 1) implies link_pending(t, i) by {
        let w = choose|w: int|
            0 <= w < s.threads.len() && #[trigger] s.threads[w] == QueueThread::PushLink(
                o[i + 1],
                slot_of(o, i + 1),
            );
        assert(t.threads[w] == s.threads[w]);
    }
    assert forall|i: int| 0 <= i < o2.len() implies {
        ||| slot_value(t, #[trigger] slot_of(t.order, i)) == Some(t.order[i])
        ||| slot_value(t, slot_of(t.order, i)) is None && link_pending(t, i)
        ||| slot_value(t, slot_of(t.order, i)) is None && i == 0 && some_holder(t)
    } by {
        if i > 0 {
            assert(o[i] < s.links.len());
            assert(slot_value(t, slot_of(o, i + 1)) == slot_value(s, slot_of(o, i + 1)));
            assert(slot_of(o, i + 1) != Link::Head);
        }
    }
    assert forall|w: int| 0 <= w < t.threads.len() implies !is_holder(#[trigger] t.threads[w]) by {}
    assert forall|w: int| 0 <= w < t.threads.len() && before_swap(#[trigger] t.threads[w]) implies {
        &&& pushed_elem(t.threads[w]) < t.links.len()
        &&& !t.order.contains(pushed_elem(t.threads[w]))
        &&& (t.threads[w] is PushSwap ==> t.links[pushed_elem(t.threads[w]) as int] is None)
    } by {
        assert(s.threads[w] == t.threads[w]);
        if t.order.contains(pushed_elem(t.threads[w])) {
            let k = choose|k: int| 0 <= k < o2.len() && o2[k] == pushed_elem(t.threads[w]);
            assert(o[k + 1] == pushed_elem(s.threads[w]));
        }
    }
    assert(queue_inv(t));
}


/// Every atomic step of any thread keeps the invariant of the shared queue.
pub proof fn lemma_queue_step_keeps_inv(s: QueueView, tid: int, t: QueueView)
    requires
        queue_inv(s),
        0 <= tid < s.threads.len(),
        queue_step(s, tid, t),
    ensures
        queue_inv(t),
{
    match s.threads[tid] {
        QueueThread::Idle => {},
        QueueThread::PushClear(_) => lemma_inv_push_clear(s, tid, t),
        QueueThread::PushSwap(_) => lemma_inv_push_swap(s, tid, t),
        QueueThread::PushLink(_, _) => lemma_inv_push_link(s, tid, t),
        QueueThread::PushCount(_) => {
            lemma_inv_passive(s, tid, QueueThread::Idle, s.counter + 1, t);
        },
        QueueThread::PopReserve => {
            let x = if s.counter <= 0 {
                QueueThread::PopRestore
            } else {
                QueueThread::PopTake
            };
            lemma_inv_passive(s, tid, x, s.counter - 1, t);
        },
        QueueThread::PopRestore => {
            lemma_inv_passive(s, tid, QueueThread::Idle, s.counter + 1, t);
        },
        QueueThread::PopTake => lemma_inv_pop_take(s, tid, t),
        QueueThread::PopRead(_) => lemma_inv_pop_read(s, tid, t),
        QueueThread::PopCas(_) => lemma_inv_pop_cas(s, tid, t),
        QueueThread::PopSetHead(_, _) => lemma_inv_pop_set_head(s, tid, t),
    }
}

/// Element `e` may be pushed in `s`: it is an element of the pool, it is
/// not queued, and no other push that has not swapped the tail pushes it.
pub open spec fn may_push(s: QueueView, e: usize) -> bool {
    &&& e < s.links.len()
    &&& !s.order.contains(e)
    &&& forall|w: int|
        0 <= w < s.threads.len() && before_swap(#[trigger] s.threads[w]) ==> pushed_elem(
            s.threads[w],
        ) != e
}

/// An idle thread that starts to push an element that may be pushed keeps
/// the invariant.
pub proof fn lemma_start_push_keeps_inv(s: QueueView, tid: int, e: usize)
    requires
        queue_inv(s),
        0 <= tid < s.threads.len(),
        s.threads[tid] == QueueThread::Idle,
        may_push(s, e),
    ensures
        queue_inv(QueueView { threads: s.threads.update(tid, QueueThread::PushClear(e)), ..s }),
{
    let t = QueueView { threads: s.threads.update(tid, QueueThread::PushClear(e)), ..s };
    lemma_counts_update(s.threads, tid, QueueThread::PushClear(e));
    assert(forall|w: int| 0 <= w < s.threads.len() && w != tid ==> t.threads[w] == s.threads[w]);
    lemma_pending_frame(s, t, tid);
    if some_holder(s) {
        let w = choose|w: int| 0 <= w < s.threads.len() && is_holder(#[trigger] s.threads[w]);
        assert(t.threads[w] == s.threads[w]);
    }
    assert forall|w: int| 0 <= w < t.threads.len() && is_holder(#[trigger] t.threads[w]) implies !link_pending(t, 0) by {
        assert(s.threads[w] == t.threads[w]);
    }
    assert forall|w: int| 0 <= w < t.threads.len() && (#[trigger] t.threads[w]) is PushLink implies {
        let e2 = t.threads[w]->PushLink_0;
        let o2 = t.threads[w]->PushLink_1;
        exists|i: int|
            0 <= i < t.order.len() && #[trigger] t.order[i] == e2 && o2 == slot_of(t.order, i)
                && slot_value(t, o2) is None
    } by {
        assert(s.threads[w] == t.threads[w]);
    }
    assert forall|i: int| 0 <= i < t.order.len() implies {
        ||| slot_value(t, #[trigger] slot_of(t.order, i)) == Some(t.order[i])
        ||| slot_value(t, slot_of(t.order, i)) is None && link_pending(t, i)
        ||| slot_value(t, slot_of(t.order, i)) is None && i == 0 && some_holder(t)
    } by {
        assert(slot_value(t, slot_of(s.order, i)) == slot_value(s, slot_of(s.order, i)));
    }
    assert forall|t1: int, t2: int|
        0 <= t1 < t.threads.len() && 0 <= t2 < t.threads.len() && t1 != t2 && before_swap(
            #[trigger] t.threads[t1],
        ) && before_swap(#[trigger] t.threads[t2]) implies pushed_elem(t.threads[t1])
        != pushed_elem(t.threads[t2]) by {
        if t1 != tid {
            assert(s.threads[t1] == t.threads[t1]);
        }
        if t2 != tid {
            assert(s.threads[t2] == t.threads[t2]);
        }
    }
    assert(queue_inv(t));
}

/// An idle thread that starts to pop keeps the invariant.
pub proof fn lemma_start_pop_keeps_inv(s: QueueView, tid: int)
    requires
        queue_inv(s),
        0 <= tid < s.threads.len(),
        s.threads[tid] == QueueThread::Idle,
    ensures
        queue_inv(QueueView { threads: s.threads.update(tid, QueueThread::PopReserve), ..s }),
{
    lemma_inv_passive(
        s,
        tid,
        QueueThread::PopReserve,
        s.counter,
        QueueView { threads: s.threads.update(tid, QueueThread::PopReserve), ..s },
    );
}

/// The empty queue over `n_elems` elements, with `n_threads` idle threads,
/// satisfies the invariant.
pub proof fn lemma_init_queue_inv(n_elems: nat, n_threads: nat)
    requires
        n_elems + 3 * n_threads < isize::MAX,
    ensures
        queue_inv(
            QueueView {
                head: None,
                tail: Link::Head,
                counter: 0,
                links: Seq::new(n_elems, |i: int| None::<usize>),
                threads: Seq::new(n_threads, |i: int| QueueThread::Idle),
                order: Seq::empty(),
                pushed: Seq::empty(),
                popped: Seq::empty(),
            },
        ),
{
    let ts = Seq::new(n_threads, |i: int| QueueThread::Idle);
    lemma_count_none(ts, |t: QueueThread| is_linking(t));
    lemma_count_none(ts, |t: QueueThread| is_reserving(t));
    lemma_count_none(ts, |t: QueueThread| is_restoring(t));
    assert(Seq::<usize>::empty() + Seq::<usize>::empty() =~= Seq::<usize>::empty());
}

/// First in, first out: under the invariant, the elements popped so far are
/// the first of those whose pushes took the tail, in that order, and the
/// rest are queued, each once.
pub proof fn lemma_fifo(s: QueueView)
    requires
        queue_inv(s),
    ensures
        s.popped == s.pushed.take(s.popped.len() as int),
        s.order == s.pushed.skip(s.popped.len() as int),
        s.order.no_duplicates(),
{
    assert(s.popped =~= s.pushed.take(s.popped.len() as int));
    assert(s.order =~= s.pushed.skip(s.popped.len() as int));
}

/// The reservations that pops hold never outnumber the queued elements.
pub proof fn lemma_reservations_bounded(s: QueueView)
    requires
        queue_inv(s),
    ensures
        s.counter + count_where(s.threads, |t: QueueThread| is_reserving(t)) <= s.order.len(),
{
}

/// A count is positive when some element satisfies the predicate.
proof fn lemma_count_some<A>(ts: Seq<A>, p: spec_fn(A) -> bool, i: int)
    requires
        0 <= i < ts.len(),
        p(ts[i]),
    ensures
        count_where(ts, p) >= 1,
    decreases ts.len(),
{
    if i < ts.len() - 1 {
        assert(ts.drop_last()[i] == ts[i]);
        lemma_count_some(ts.drop_last(), p, i);
    }
}

/// The step of thread `tid` in `s` waits for another thread: a pop that
/// finds the head slot empty, or that holds an element whose link is still
/// empty although the tail has moved past it.
pub open spec fn waits_for_other(s: QueueView, tid: int) -> bool {
    match s.threads[tid] {
        QueueThread::PopTake => s.head is None,
        QueueThread::PopRead(tmp) => s.links[tmp as int] is None && s.tail != Link::Next(tmp),
        QueueThread::PopCas(tmp) => s.links[tmp as int] is None && s.tail != Link::Next(tmp),
        _ => false,
    }
}

/// A thread about to fill a slot moves on at its next step, and waits for
/// no other thread.
proof fn lemma_linker_moves(s: QueueView, w: int)
    requires
        0 <= w < s.threads.len(),
        s.threads[w] is PushLink,
    ensures
        !waits_for_other(s, w),
        forall|t: QueueView| #[trigger] queue_step(s, w, t) ==> t.threads[w] != s.threads[w],
{
}

/// A holding pop that waits for the link of its element waits for a push
/// that is about to fill it.
proof fn lemma_waiting_holder(s: QueueView, h: int)
    requires
        queue_inv(s),
        0 <= h < s.threads.len(),
        is_holder(s.threads[h]),
        waits_for_other(s, h),
    ensures
        s.order.len() >= 2,
        link_pending(s, 1),
{
    let tmp = held_elem(s.threads[h]);
    assert(tmp == s.order[0]);
    assert(s.order.len() >= 2);
    assert(slot_of(s.order, 1) == Link::Next(tmp));
}

/// Deadlock freedom: while some thread runs an operation, some running
/// thread's next step waits for no other thread and moves that thread on.
pub proof fn lemma_queue_progress(s: QueueView, busy: int)
    requires
        queue_inv(s),
        0 <= busy < s.threads.len(),
        s.threads[busy] != QueueThread::Idle,
    ensures
        exists|tid: int|
            0 <= tid < s.threads.len() && s.threads[tid] != QueueThread::Idle && !waits_for_other(
                s,
                tid,
            ) && forall|t: QueueView| #[trigger]
                queue_step(s, tid, t) ==> t.threads[tid] != s.threads[tid],
{
    // A pop that waits holds the head, or waits for it: then a push is
    // about to fill the slot it waits for, or another pop holds the head.
    let h: int = if !waits_for_other(s, busy) || is_holder(s.threads[busy]) {
        busy
    } else {
        lemma_count_some(s.threads, |t: QueueThread| is_reserving(t), busy);
        assert(s.order.len() > 0);
        assert(slot_of(s.order, 0) == Link::Head);
        if link_pending(s, 0) {
            choose|w: int|
                0 <= w < s.threads.len() && #[trigger] s.threads[w] == QueueThread::PushLink(
                    s.order[0],
                    slot_of(s.order, 0),
                )
        } else {
            choose|w: int| 0 <= w < s.threads.len() && is_holder(#[trigger] s.threads[w])
        }
    };
    assert(0 <= h < s.threads.len() && s.threads[h] != QueueThread::Idle);
    let w: int = if !waits_for_other(s, h) {
        h
    } else {
        lemma_waiting_holder(s, h);
        choose|w: int|
            0 <= w < s.threads.len() && #[trigger] s.threads[w] == QueueThread::PushLink(
                s.order[1],
                slot_of(s.order, 1),
            )
    };
    if s.threads[w] is PushLink {
        lemma_linker_moves(s, w);
    }
    assert(0 <= w < s.threads.len() && s.threads[w] != QueueThread::Idle && !waits_for_other(s, w));
    assert forall|t: QueueView| #[trigger] queue_step(s, w, t) implies t.threads[w] != s.threads[w] by {
    }
}

/// The queue shared by threads that push and pop elements of a pool, one
/// atomic step at a time.
pub struct QueueSystem {
    head: Option<usize>,
    tail: Link,
    counter: isize,
    links: Vec<Option<usize>>,
    threads: Vec<QueueThread>,
    order: Ghost<Seq<usize>>,
    pushed: Ghost<Seq<usize>>,
    popped: Ghost<Seq<usize>>,
}

impl View for QueueSystem {
    type V = QueueView;

    /// The shared state, the threads, and the elements in push order.
    closed spec fn view(&self) -> QueueView {
        QueueView {
            head: self.head,
            tail: self.tail,
            counter: self.counter as int,
            links: self.links@,
            threads: self.threads@,
            order: self.order@,
            pushed: self.pushed@,
            popped: self.popped@,
        }
    }
}

impl QueueSystem {
    /// An empty queue over a pool of `n_elems` elements, shared by
    /// `n_threads` idle threads.
    pub fn new(n_elems: usize, n_threads: usize) -> (q: Self)
        requires
            n_elems + 3 * n_threads < isize::MAX,
        ensures
            q@ == (QueueView {
                head: None,
                tail: Link::Head,
                counter: 0,
                links: Seq::new(n_elems as nat, |i: int| None::<usize>),
                threads: Seq::new(n_threads as nat, |i: int| QueueThread::Idle),
                order: Seq::empty(),
                pushed: Seq::empty(),
                popped: Seq::empty(),
            }),
            queue_inv(q@),
    {
        let mut links: Vec<Option<usize>> = Vec::new();
        let mut i: usize = 0;
        while i < n_elems
            invariant
                i <= n_elems,
                links@ == Seq::new(i as nat, |j: int| None::<usize>),
            decreases n_elems - i,
        {
            links.push(None);
            i = i + 1;
        }
        let mut threads: Vec<QueueThread> = Vec::new();
        let mut j: usize = 0;
        while j < n_threads
            invariant
                j <= n_threads,
                threads@ == Seq::new(j as nat, |k: int| QueueThread::Idle),
            decreases n_threads - j,
        {
            threads.push(QueueThread::Idle);
            j = j + 1;
        }
        proof {
            lemma_init_queue_inv(n_elems as nat, n_threads as nat);
        }
        QueueSystem {
            head: None,
            tail: Link::Head,
            counter: 0,
            links,
            threads,
            order: Ghost(Seq::empty()),
            pushed: Ghost(Seq::empty()),
            popped: Ghost(Seq::empty()),
        }
    }

    /// The number of threads.
    pub fn num_threads(&self) -> (n: usize)
        ensures
            n == self@.threads.len(),
    {
        self.threads.len()
    }

    /// Where thread `tid` stands.
    pub fn thread(&self, tid: usize) -> (t: QueueThread)
        requires
            tid < self@.threads.len(),
        ensures
            t == self@.threads[tid as int],
    {
        self.threads[tid]
    }

    /// The count of available elements.
    pub fn counter(&self) -> (c: isize)
        ensures
            c == self@.counter,
    {
        self.counter
    }

    /// Idle thread `tid` starts to push element `e`.
    pub fn start_push(&mut self, tid: usize, e: usize)
        requires
            queue_inv(old(self)@),
            tid < old(self)@.threads.len(),
            old(self)@.threads[tid as int] == QueueThread::Idle,
            may_push(old(self)@, e),
        ensures
            final(self)@ == (QueueView {
                threads: old(self)@.threads.update(tid as int, QueueThread::PushClear(e)),
                ..old(self)@
            }),
            queue_inv(final(self)@),
    {
        proof {
            lemma_start_push_keeps_inv(self@, tid as int, e);
        }
        self.threads.set(tid, QueueThread::PushClear(e));
    }

    /// Idle thread `tid` starts to pop.
    pub fn start_pop(&mut self, tid: usize)
        requires
            queue_inv(old(self)@),
            tid < old(self)@.threads.len(),
            old(self)@.threads[tid as int] == QueueThread::Idle,
        ensures
            final(self)@ == (QueueView {
                threads: old(self)@.threads.update(tid as int, QueueThread::PopReserve),
                ..old(self)@
            }),
            queue_inv(final(self)@),
    {
        proof {
            lemma_start_pop_keeps_inv(self@, tid as int);
        }
        self.threads.set(tid, QueueThread::PopReserve);
    }

    /// Lets thread `tid` take its next atomic step, and reports what the
    /// step completed.
    pub fn step(&mut self, tid: usize) -> (r: StepOutcome)
        requires
            queue_inv(old(self)@),
            tid < old(self)@.threads.len(),
        ensures
            queue_step(old(self)@, tid as int, final(self)@),
            r == step_outcome(old(self)@, tid as int),
            queue_inv(final(self)@),
    {
        let ghost s0 = self@;
        proof {
            crate::atomic_queue::lemma_distinct_bounded(s0.order, s0.links.len());
            lemma_count_le(s0.threads, |t: QueueThread| is_linking(t));
            lemma_count_le(s0.threads, |t: QueueThread| is_reserving(t));
            lemma_count_le(s0.threads, |t: QueueThread| is_restoring(t));
        }
        let r = match self.threads[tid] {
            QueueThread::Idle => StepOutcome::Continues,
            QueueThread::PushClear(e) => {
                proof {
                    assert(before_swap(s0.threads[tid as int]));
                }
                self.links.set(e, None);
                self.threads.set(tid, QueueThread::PushSwap(e));
                StepOutcome::Continues
            },
            QueueThread::PushSwap(e) => {
                let old_tail = self.tail;
                self.tail = Link::Next(e);
                self.threads.set(tid, QueueThread::PushLink(e, old_tail));
                self.order = Ghost(self.order@.push(e));
                self.pushed = Ghost(self.pushed@.push(e));
                StepOutcome::Continues
            },
            QueueThread::PushLink(e, old_slot) => {
                match old_slot {
                    Link::Next(x) => {
                        proof {
                            let i = choose|i: int|
                                0 <= i < s0.order.len() && #[trigger] s0.order[i] == e && old_slot
                                    == slot_of(s0.order, i) && slot_value(s0, old_slot) is None;
                            assert(s0.order[i - 1] < s0.links.len());
                        }
                        self.links.set(x, Some(e));
                    },
                    _ => {
                        self.head = Some(e);
                    },
                }
                self.threads.set(tid, QueueThread::PushCount(e));
                StepOutcome::Continues
            },
            QueueThread::PushCount(_) => {
                self.counter = self.counter + 1;
                self.threads.set(tid, QueueThread::Idle);
                StepOutcome::Pushed
            },
            QueueThread::PopReserve => {
                let c: isize = self.counter;
                self.counter = c - 1;
                let next = if c <= 0 {
                    QueueThread::PopRestore
                } else {
                    QueueThread::PopTake
                };
                self.threads.set(tid, next);
                StepOutcome::Continues
            },
            QueueThread::PopRestore => {
                self.counter = self.counter + 1;
                self.threads.set(tid, QueueThread::Idle);
                StepOutcome::Popped(None)
            },
            QueueThread::PopTake => {
                let taken = self.head.take();
                let next = match taken {
                    Some(h) => QueueThread::PopRead(h),
                    None => QueueThread::PopTake,
                };
                self.threads.set(tid, next);
                StepOutcome::Continues
            },
            QueueThread::PopRead(tmp) => {
                proof {
                    assert(is_holder(s0.threads[tid as int]));
                }
                let next = match self.links[tmp] {
                    Some(n) => QueueThread::PopSetHead(tmp, n),
                    None => QueueThread::PopCas(tmp),
                };
                self.threads.set(tid, next);
                StepOutcome::Continues
            },
            QueueThread::PopCas(tmp) => {
                if self.tail == Link::Next(tmp) {
                    self.tail = Link::Head;
                    self.threads.set(tid, QueueThread::Idle);
                    self.order = Ghost(self.order@.drop_first());
                    self.popped = Ghost(self.popped@.push(tmp));
                    StepOutcome::Popped(Some(tmp))
                } else {
                    self.threads.set(tid, QueueThread::PopRead(tmp));
                    StepOutcome::Continues
                }
            },
            QueueThread::PopSetHead(tmp, n) => {
                self.head = Some(n);
                self.threads.set(tid, QueueThread::Idle);
                self.order = Ghost(self.order@.drop_first());
                self.popped = Ghost(self.popped@.push(tmp));
                StepOutcome::Popped(Some(tmp))
            },
        };
        proof {
            assert(self@.threads =~= s0.threads.update(tid as int, self@.threads[tid as int]));
            lemma_queue_step_keeps_inv(s0, tid as int, self@);
        }
        r
    }
}

} // verus!
