//! An intrusive first-in first-out queue.
//!
//! The elements live in a pool owned by the caller; the queue only links
//! them through the `next` slot that every element carries. The tail of the
//! queue designates the slot that the next `push` fills: the queue's own
//! head slot when the queue is empty, else the `next` slot of its last
//! element.

use vstd::prelude::*;

verus! {

/// The slot that the tail of a queue designates.
#[derive(PartialEq, Eq, Structural, Clone, Copy, Debug)]
pub enum Link {
    /// The tail has not been set yet (a queue made by `new_uninit`).
    Unset,
    /// The queue's own head slot.
    Head,
    /// The `next` slot of the pool element with this index.
    Next(usize),
}

/// A single element of the queue, holding data and the link to the next
/// element.
pub struct QueueElem<T> {
    pub next: Option<usize>,
    pub data: T,
}

impl<T> QueueElem<T> {
    /// Creates a new queue element wrapping the provided data.
    pub fn new(elem: T) -> (e: QueueElem<T>)
        ensures
            e.data == elem,
            e.next is None,
    {
        QueueElem { next: None, data: elem }
    }
}

/// A queue of pool elements, first in first out.
pub struct AtomicQueue<T> {
    head: Option<usize>,
    tail: Link,
    counter: isize,
    order: Ghost<Seq<usize>>,
    marker: core::marker::PhantomData<T>,
}

impl<T> View for AtomicQueue<T> {
    type V = Seq<usize>;

    /// The indices of the queued pool elements, oldest first.
    closed spec fn view(&self) -> Seq<usize> {
        self.order@
    }
}

/// Distinct indices below `n` number at most `n`.
pub(crate) proof fn lemma_distinct_bounded(order: Seq<usize>, n: nat)
    requires
        order.no_duplicates(),
        forall|k: int| 0 <= k < order.len() ==> (#[trigger] order[k]) < n,
    ensures
        order.len() <= n,
{
    let si = order.map_values(|i: usize| i as int);
    assert(si.no_duplicates()) by {
        assert forall|a: int, b: int| 0 <= a < si.len() && 0 <= b < si.len() && a != b implies si[a]
            != si[b] by {
            assert(order[a] != order[b]);
        }
    }
    si.unique_seq_to_set();
    vstd::set_lib::lemma_int_range(0, n as int);
    assert forall|x: int| si.to_set().contains(x) implies vstd::set_lib::set_int_range(
        0,
        n as int,
    ).contains(x) by {
        let k = choose|k: int| 0 <= k < si.len() && si[k] == x;
        assert(order[k] < n);
    }
    vstd::set_lib::lemma_len_subset(si.to_set(), vstd::set_lib::set_int_range(0, n as int));
}

impl<T> AtomicQueue<T> {
    /// The queue is well formed over `pool`: its elements are distinct
    /// elements of the pool, each links to its successor, the last links to
    /// nothing, and head, tail and counter agree with the sequence.
    pub closed spec fn wf(&self, pool: Seq<QueueElem<T>>) -> bool {
        let s = self.order@;
        &&& s.no_duplicates()
        &&& forall|k: int| 0 <= k < s.len() ==> (#[trigger] s[k]) < pool.len()
        &&& forall|k: int|
            0 <= k < s.len() - 1 ==> pool[#[trigger] s[k] as int].next == Some(s[k + 1])
        &&& s.len() > 0 ==> pool[s.last() as int].next is None
        &&& self.head == (if s.len() == 0 { None } else { Some(s[0]) })
        &&& self.tail == (if s.len() == 0 { Link::Head } else { Link::Next(s.last()) })
        &&& self.counter == s.len()
    }

    /// The queue is empty and nothing has been linked into it yet; its tail
    /// may still be unset.
    pub closed spec fn is_blank(&self) -> bool {
        &&& self.head is None
        &&& self.counter == 0
        &&& self.order@.len() == 0
    }

    /// The queue's tail designates a slot.
    pub closed spec fn tail_is_set(&self) -> bool {
        self.tail != Link::Unset
    }

    /// The queue depends on the pool only through the links of its own
    /// elements: a pool that agrees with `p1` on those links keeps it well
    /// formed.
    pub proof fn lemma_wf_frame(&self, p1: Seq<QueueElem<T>>, p2: Seq<QueueElem<T>>)
        requires
            self.wf(p1),
            p1.len() == p2.len(),
            forall|k: int|
                0 <= k < self@.len() ==> (#[trigger] p2[self@[k] as int]).next == p1[self@[k] as int].next,
        ensures
            self.wf(p2),
    {
        let s = self.order@;
        assert forall|k: int| 0 <= k < s.len() - 1 implies p2[#[trigger] s[k] as int].next == Some(
            s[k + 1],
        ) by {
            assert(p2[self@[k] as int].next == p1[self@[k] as int].next);
        }
        if s.len() > 0 {
            assert(p2[self@[s.len() - 1] as int].next == p1[self@[s.len() - 1] as int].next);
        }
    }

    /// A well-formed queue holds distinct elements of its pool.
    pub proof fn lemma_wf_elements(&self, pool: Seq<QueueElem<T>>)
        requires
            self.wf(pool),
        ensures
            self@.no_duplicates(),
            forall|k: int| 0 <= k < self@.len() ==> (#[trigger] self@[k]) < pool.len(),
    {
    }

    /// A well-formed queue holds no more elements than its pool.
    pub proof fn lemma_len_bound(&self, pool: Seq<QueueElem<T>>)
        requires
            self.wf(pool),
        ensures
            self@.len() <= pool.len(),
    {
        lemma_distinct_bounded(self.order@, pool.len());
    }

    /// Constructs a new, empty queue.
    pub fn new() -> (q: Self)
        ensures
            q@ == Seq::<usize>::empty(),
            forall|pool: Seq<QueueElem<T>>| q.wf(pool),
    {
        AtomicQueue {
            head: None,
            tail: Link::Head,
            counter: 0,
            order: Ghost(Seq::empty()),
            marker: core::marker::PhantomData,
        }
    }

    /// Initializes a queue in place: it becomes the empty queue.
    pub fn init(&mut self)
        ensures
            final(self)@ == Seq::<usize>::empty(),
            forall|pool: Seq<QueueElem<T>>| final(self).wf(pool),
    {
        self.head = None;
        self.tail = Link::Head;
        self.counter = 0;
        self.order = Ghost(Seq::empty());
    }

    /// Constructs an empty queue whose tail is not set yet; `init_valid`
    /// must be called before the queue is used.
    pub fn new_uninit() -> (q: Self)
        ensures
            q@ == Seq::<usize>::empty(),
            q.is_blank(),
            !q.tail_is_set(),
    {
        AtomicQueue {
            head: None,
            tail: Link::Unset,
            counter: 0,
            order: Ghost(Seq::empty()),
            marker: core::marker::PhantomData,
        }
    }

    /// Points the tail of a blank queue at its own head slot, which makes
    /// it a valid empty queue.
    pub fn init_valid(&mut self)
        requires
            old(self).is_blank(),
        ensures
            final(self)@ == Seq::<usize>::empty(),
            final(self).tail_is_set(),
            forall|pool: Seq<QueueElem<T>>| final(self).wf(pool),
    {
        self.tail = Link::Head;
    }

    /// Links the pool element `element` at the end of the queue.
    pub fn push(&mut self, pool: &mut Vec<QueueElem<T>>, element: usize)
        requires
            old(self).wf(old(pool)@),
            element < old(pool).len(),
            !old(self)@.contains(element),
            old(self)@.len() < isize::MAX,
        ensures
            final(self).wf(final(pool)@),
            final(self)@ == old(self)@.push(element),
            final(pool)@.len() == old(pool)@.len(),
            forall|i: int|
                0 <= i < old(pool)@.len() ==> (#[trigger] final(pool)@[i]).data == old(pool)@[i].data,
            final(pool)@[element as int].next is None,
            old(self)@.len() > 0 ==> final(pool)@[old(self)@.last() as int].next == Some(element),
            forall|i: int|
                0 <= i < old(pool)@.len() && i != element && (old(self)@.len() == 0 || i
                    != old(self)@.last()) ==> (#[trigger] final(pool)@[i]).next == old(
                    pool,
                )@[i].next,
    {
        let ghost s = self.order@;
        let ghost p0 = pool@;
        pool[element].next = None;
        let old_tail = self.tail;
        self.tail = Link::Next(element);
        match old_tail {
            Link::Next(last) => {
                pool[last].next = Some(element);
            },
            _ => {
                self.head = Some(element);
            },
        }
        self.counter = self.counter + 1;
        self.order = Ghost(s.push(element));
        proof {
            let s2 = self.order@;
            let p = pool@;
            assert forall|k: int| 0 <= k < s2.len() - 1 implies p[#[trigger] s2[k] as int].next
                == Some(s2[k + 1]) by {
                if k < s.len() - 1 {
                    assert(s[k] != element);
                    assert(s[k] != s.last()) by {
                        assert(s.last() == s[s.len() - 1]);
                    }
                }
            }
            assert(s2.no_duplicates()) by {
                assert forall|i: int, j: int|
                    0 <= i < s2.len() && 0 <= j < s2.len() && i != j implies s2[i] != s2[j] by {
                    if i < s.len() && j < s.len() {
                    } else if i == s.len() {
                        assert(s.contains(s2[j]));
                    } else {
                        assert(s.contains(s2[i]));
                    }
                }
            }
        }
    }

    /// Unlinks and returns the oldest element of the queue, or `None` when
    /// the queue is empty.
    pub fn pop(&mut self, pool: &Vec<QueueElem<T>>) -> (r: Option<usize>)
        requires
            old(self).wf(pool@),
        ensures
            final(self).wf(pool@),
            old(self)@.len() == 0 ==> r is None && final(self)@ == old(self)@,
            old(self)@.len() > 0 ==> r == Some(old(self)@[0]) && final(self)@ == old(
                self,
            )@.drop_first(),
    {
        let ghost s = self.order@;
        let before: isize = self.counter;
        self.counter = before - 1;
        if before <= 0 {
            self.counter = self.counter + 1;
            return None;
        }
        let tmp: usize = match self.head.take() {
            Some(h) => h,
            None => {
                return None;
            },
        };
        self.order = Ghost(s.drop_first());
        match pool[tmp].next {
            None => {
                if self.tail == Link::Next(tmp) {
                    self.tail = Link::Head;
                }
                Some(tmp)
            },
            Some(next) => {
                self.head = Some(next);
                proof {
                    assert(s[1] == next);
                    assert(s.drop_first().last() == s.last());
                }
                Some(tmp)
            },
        }
    }
}

} // verus!
