//! A three-state futex mutex.
//!
//! The mutex is one 32-bit word: 0 when unlocked, 1 when locked with no
//! thread waiting, 2 when locked and some thread may be waiting. Locking
//! first tries to move the word from 0 to 1; if that fails, the locker
//! repeatedly swaps in 2 and, unless the old value was 0, sleeps on the word
//! while it still reads 2. Unlocking swaps in 0 and wakes one sleeper unless
//! the old value was 1.
//!
//! The decisions of both procedures are functions of the value that the
//! atomic operation returned. `MutexSystem` runs those decisions for any
//! number of threads, one atomic step at a time, and keeps an invariant that
//! gives mutual exclusion and rules out a lost wake-up.

use vstd::prelude::*;

verus! {

/// The word of an unlocked mutex.
pub const UNLOCKED: u32 = 0;

/// The word of a mutex that is locked and that no thread waits for.
pub const LOCKED: u32 = 1;

/// The word of a mutex that is locked and that threads may wait for.
pub const CONTENDED: u32 = 2;

/// Where a thread stands in the locking procedure after an atomic step.
#[derive(PartialEq, Eq, Structural, Clone, Copy, Debug)]
pub enum LockPhase {
    /// The thread holds the mutex.
    Acquired,
    /// The thread is to swap `CONTENDED` into the word.
    Contend,
    /// The thread is to sleep on the word while it reads `CONTENDED`.
    Wait,
}

/// The phase after the first attempt, a compare-exchange of `UNLOCKED` for
/// `LOCKED`, has returned `r`.
pub fn after_fast_path(r: Result<u32, u32>) -> (p: LockPhase)
    ensures
        p == (if r is Ok { LockPhase::Acquired } else { LockPhase::Contend }),
{
    match r {
        Ok(_) => LockPhase::Acquired,
        Err(_) => LockPhase::Contend,
    }
}

/// The phase after a swap of `CONTENDED` into the word returned `old`.
pub fn after_contended_swap(old: u32) -> (p: LockPhase)
    ensures
        p == (if old == UNLOCKED { LockPhase::Acquired } else { LockPhase::Wait }),
{
    if old == UNLOCKED {
        LockPhase::Acquired
    } else {
        LockPhase::Wait
    }
}

/// Whether a thread that asks to sleep on the word while it reads
/// `CONTENDED` goes to sleep, the word reading `current`. Either way it
/// contends again once it runs.
pub fn sleeps_on(current: u32) -> (b: bool)
    ensures
        b == (current == CONTENDED),
{
    current == CONTENDED
}

/// Whether unlocking must wake a sleeper, after the swap of `UNLOCKED` into
/// the word returned `old`.
pub fn unlock_needs_wake(old: u32) -> (b: bool)
    ensures
        b == (old != LOCKED),
{
    old != LOCKED
}

/// The word of a mutex, with the atomic operations that the protocol
/// performs on it.
pub struct SimpleMutex {
    state: u32,
}

impl SimpleMutex {
    /// The current value of the word.
    pub closed spec fn word(&self) -> u32 {
        self.state
    }

    /// An unlocked mutex.
    pub fn init() -> (m: Self)
        ensures
            m.word() == UNLOCKED,
    {
        SimpleMutex { state: UNLOCKED }
    }

    /// The current value of the word.
    pub fn load(&self) -> (v: u32)
        ensures
            v == self.word(),
    {
        self.state
    }

    /// Stores `new` if the word equals `current`; returns the old value, as
    /// `Ok` when it was stored and `Err` otherwise.
    pub fn compare_exchange(&mut self, current: u32, new: u32) -> (r: Result<u32, u32>)
        ensures
            old(self).word() == current ==> r == Ok::<u32, u32>(current) && final(self).word()
                == new,
            old(self).word() != current ==> r == Err::<u32, u32>(old(self).word())
                && final(self).word() == old(self).word(),
    {
        if self.state == current {
            self.state = new;
            Ok(current)
        } else {
            Err(self.state)
        }
    }

    /// Stores `val` and returns the old value.
    pub fn swap(&mut self, val: u32) -> (prev: u32)
        ensures
            prev == old(self).word(),
            final(self).word() == val,
    {
        let prev: u32 = self.state;
        self.state = val;
        prev
    }
}


/// Where one thread of a `MutexSystem` stands: the next atomic step that it
/// takes, or that it sleeps.
#[derive(PartialEq, Eq, Structural, Clone, Copy, Debug)]
pub enum ThreadState {
    /// Outside the mutex; its next step starts locking.
    Idle,
    /// About to compare-exchange `UNLOCKED` for `LOCKED`.
    TryFast,
    /// About to swap `CONTENDED` into the word.
    Contend,
    /// About to sleep on the word while it reads `CONTENDED`.
    Wait,
    /// Sleeping on the word until woken.
    Asleep,
    /// Holds the mutex; its next step starts unlocking.
    Critical,
    /// Holds the mutex and is about to swap `UNLOCKED` into the word.
    Release,
    /// Has released the mutex and is about to wake one sleeper.
    Wake,
}

/// The thread holds the mutex.
pub open spec fn holds(t: ThreadState) -> bool {
    t == ThreadState::Critical || t == ThreadState::Release
}

/// The thread is bound to store `CONTENDED` or to wake a sleeper before it
/// can sleep or leave.
pub open spec fn pending_contender(t: ThreadState) -> bool {
    t == ThreadState::Contend || t == ThreadState::Wait || t == ThreadState::Wake
}

/// Some thread holds the mutex.
pub open spec fn some_holder(ts: Seq<ThreadState>) -> bool {
    exists|i: int| 0 <= i < ts.len() && holds(#[trigger] ts[i])
}

/// Some thread sleeps.
pub open spec fn some_asleep(ts: Seq<ThreadState>) -> bool {
    exists|i: int| 0 <= i < ts.len() && #[trigger] ts[i] == ThreadState::Asleep
}

/// Some thread is a pending contender.
pub open spec fn some_pending(ts: Seq<ThreadState>) -> bool {
    exists|i: int| 0 <= i < ts.len() && pending_contender(#[trigger] ts[i])
}

/// The invariant of the protocol: the word is one of its three values; at
/// most one thread holds the mutex; the word is non-zero exactly when one
/// does; and while a thread sleeps, the word reads `CONTENDED` or another
/// thread is bound to store it or to wake a sleeper.
pub open spec fn protocol_inv(word: u32, ts: Seq<ThreadState>) -> bool {
    &&& word <= CONTENDED
    &&& forall|i: int, j: int|
        0 <= i < ts.len() && 0 <= j < ts.len() && holds(#[trigger] ts[i]) && holds(
            #[trigger] ts[j],
        ) ==> i == j
    &&& (word != UNLOCKED <==> some_holder(ts))
    &&& some_asleep(ts) ==> (word == CONTENDED || some_pending(ts))
}

/// One atomic step of thread `tid` takes the word and the threads from
/// (`word`, `ts`) to (`post_word`, `post_ts`).
pub open spec fn protocol_step(
    word: u32,
    ts: Seq<ThreadState>,
    tid: int,
    post_word: u32,
    post_ts: Seq<ThreadState>,
) -> bool {
    match ts[tid] {
        ThreadState::Idle => post_word == word && post_ts == ts.update(tid, ThreadState::TryFast),
        ThreadState::TryFast => if word == UNLOCKED {
            post_word == LOCKED && post_ts == ts.update(tid, ThreadState::Critical)
        } else {
            post_word == word && post_ts == ts.update(tid, ThreadState::Contend)
        },
        ThreadState::Contend => post_word == CONTENDED && post_ts == ts.update(
            tid,
            if word == UNLOCKED {
                ThreadState::Critical
            } else {
                ThreadState::Wait
            },
        ),
        ThreadState::Wait => post_word == word && post_ts == ts.update(
            tid,
            if word == CONTENDED {
                ThreadState::Asleep
            } else {
                ThreadState::Contend
            },
        ),
        ThreadState::Asleep => post_word == word && post_ts == ts,
        ThreadState::Critical => post_word == word && post_ts == ts.update(
            tid,
            ThreadState::Release,
        ),
        ThreadState::Release => post_word == UNLOCKED && post_ts == ts.update(
            tid,
            if word != LOCKED {
                ThreadState::Wake
            } else {
                ThreadState::Idle
            },
        ),
        ThreadState::Wake => post_word == word && ({
            ||| exists|k: int|
                0 <= k < ts.len() && #[trigger] ts[k] == ThreadState::Asleep && post_ts == ts.update(
                    tid,
                    ThreadState::Idle,
                ).update(k, ThreadState::Contend)
            ||| !some_asleep(ts) && post_ts == ts.update(tid, ThreadState::Idle)
        }),
    }
}

/// The initial configuration, unlocked with every thread idle, satisfies
/// the protocol invariant.
pub proof fn lemma_init_inv(n: nat)
    ensures
        protocol_inv(UNLOCKED, Seq::new(n, |i: int| ThreadState::Idle)),
{
}

/// Every atomic step of any thread keeps the protocol invariant.
pub proof fn lemma_step_keeps_inv(
    word: u32,
    ts: Seq<ThreadState>,
    tid: int,
    post_word: u32,
    post_ts: Seq<ThreadState>,
)
    requires
        protocol_inv(word, ts),
        0 <= tid < ts.len(),
        protocol_step(word, ts, tid, post_word, post_ts),
    ensures
        protocol_inv(post_word, post_ts),
{
    let n = ts.len();
    // A step changes the state of `tid` and, for a wake, of the woken
    // thread `k`, which goes from asleep to contending.
    let k: int = if ts[tid] == ThreadState::Wake && some_asleep(ts) {
        choose|k: int|
            0 <= k < ts.len() && #[trigger] ts[k] == ThreadState::Asleep && post_ts == ts.update(
                tid,
                ThreadState::Idle,
            ).update(k, ThreadState::Contend)
    } else {
        tid
    };
    assert(post_ts.len() == n);
    assert(forall|i: int| 0 <= i < n && i != tid && i != k ==> post_ts[i] == ts[i]);
    assert(k != tid ==> ts[k] == ThreadState::Asleep && post_ts[k] == ThreadState::Contend);
    if some_holder(ts) {
        let h = choose|i: int| 0 <= i < n && holds(#[trigger] ts[i]);
        if h != tid {
            assert(post_ts[h] == ts[h]);
        }
    }
    if some_holder(post_ts) {
        let h = choose|i: int| 0 <= i < n && holds(#[trigger] post_ts[i]);
        if h != tid {
            assert(ts[h] == post_ts[h]);
        }
    }
    if holds(post_ts[tid]) {
        assert(some_holder(post_ts));
    }
    if pending_contender(post_ts[tid]) {
        assert(some_pending(post_ts));
    }
    if k != tid {
        assert(pending_contender(post_ts[k]));
    }
    if some_asleep(post_ts) {
        let a = choose|i: int| 0 <= i < n && #[trigger] post_ts[i] == ThreadState::Asleep;
        if a != tid {
            assert(ts[a] == ThreadState::Asleep);
        }
    }
    if some_pending(ts) {
        let c = choose|i: int| 0 <= i < n && pending_contender(#[trigger] ts[i]);
        if c != tid {
            assert(post_ts[c] == ts[c]);
        }
    }
    assert(post_word <= CONTENDED);
    assert(forall|i: int, j: int|
        0 <= i < post_ts.len() && 0 <= j < post_ts.len() && holds(#[trigger] post_ts[i]) && holds(
            #[trigger] post_ts[j],
        ) ==> i == j);
    assert(post_word != UNLOCKED <==> some_holder(post_ts));
    assert(some_asleep(post_ts) ==> (post_word == CONTENDED || some_pending(post_ts)));
}


/// A thread that sleeps may return from its sleep without being woken; it
/// then contends again.
pub open spec fn protocol_spurious_wake(
    word: u32,
    ts: Seq<ThreadState>,
    tid: int,
    post_word: u32,
    post_ts: Seq<ThreadState>,
) -> bool {
    &&& ts[tid] == ThreadState::Asleep
    &&& post_word == word
    &&& post_ts == ts.update(tid, ThreadState::Contend)
}

/// A spurious return from sleep keeps the protocol invariant.
pub proof fn lemma_spurious_wake_keeps_inv(
    word: u32,
    ts: Seq<ThreadState>,
    tid: int,
    post_word: u32,
    post_ts: Seq<ThreadState>,
)
    requires
        protocol_inv(word, ts),
        0 <= tid < ts.len(),
        protocol_spurious_wake(word, ts, tid, post_word, post_ts),
    ensures
        protocol_inv(post_word, post_ts),
{
    let n = ts.len();
    assert(pending_contender(post_ts[tid]));
    if some_holder(ts) {
        let h = choose|i: int| 0 <= i < n && holds(#[trigger] ts[i]);
        assert(post_ts[h] == ts[h]);
    }
    if some_holder(post_ts) {
        let h = choose|i: int| 0 <= i < n && holds(#[trigger] post_ts[i]);
        assert(ts[h] == post_ts[h]);
    }
}

/// Mutual exclusion: under the protocol invariant, no two threads hold the
/// mutex at once.
pub proof fn lemma_mutual_exclusion(word: u32, ts: Seq<ThreadState>, i: int, j: int)
    requires
        protocol_inv(word, ts),
        0 <= i < ts.len(),
        0 <= j < ts.len(),
        holds(ts[i]),
        holds(ts[j]),
    ensures
        i == j,
{
}

/// No lost wake-up: under the protocol invariant, while a thread sleeps the
/// word reads `CONTENDED`, so that the holder's unlock will wake a sleeper,
/// or some thread is bound to store `CONTENDED` or to wake a sleeper.
pub proof fn lemma_no_lost_wakeup(word: u32, ts: Seq<ThreadState>, a: int)
    requires
        protocol_inv(word, ts),
        0 <= a < ts.len(),
        ts[a] == ThreadState::Asleep,
    ensures
        word == CONTENDED || some_pending(ts),
{
}

/// Deadlock freedom: under the protocol invariant, while a thread sleeps
/// some other thread is awake in the middle of locking or unlocking: it
/// holds the mutex or is bound to store `CONTENDED` or to wake a sleeper,
/// and its next step moves it on.
pub proof fn lemma_sleeper_not_alone(word: u32, ts: Seq<ThreadState>, a: int)
    requires
        protocol_inv(word, ts),
        0 <= a < ts.len(),
        ts[a] == ThreadState::Asleep,
    ensures
        exists|w: int|
            0 <= w < ts.len() && (holds(#[trigger] ts[w]) || pending_contender(ts[w])) && forall|
                post_word: u32,
                post_ts: Seq<ThreadState>,
            |
                #[trigger] protocol_step(word, ts, w, post_word, post_ts) ==> post_ts[w] != ts[w],
{
    let w = if word == CONTENDED {
        choose|i: int| 0 <= i < ts.len() && holds(#[trigger] ts[i])
    } else {
        choose|i: int| 0 <= i < ts.len() && pending_contender(#[trigger] ts[i])
    };
    assert(0 <= w < ts.len() && (holds(ts[w]) || pending_contender(ts[w])));
    assert forall|post_word: u32, post_ts: Seq<ThreadState>|
        #[trigger] protocol_step(word, ts, w, post_word, post_ts) implies post_ts[w] != ts[w] by {
        if ts[w] == ThreadState::Wake && some_asleep(ts) {
            let k = choose|k: int|
                0 <= k < ts.len() && #[trigger] ts[k] == ThreadState::Asleep && post_ts == ts.update(
                    w,
                    ThreadState::Idle,
                ).update(k, ThreadState::Contend);
            assert(k != w);
        }
    }
}

/// Any number of threads sharing one mutex word, each at some point of the
/// lock and unlock procedures.
pub struct MutexSystem {
    word: SimpleMutex,
    threads: Vec<ThreadState>,
}

impl View for MutexSystem {
    type V = (u32, Seq<ThreadState>);

    /// The word and the state of every thread.
    closed spec fn view(&self) -> (u32, Seq<ThreadState>) {
        (self.word.word(), self.threads@)
    }
}

impl MutexSystem {
    /// An unlocked mutex shared by `n` idle threads.
    pub fn new(n: usize) -> (sys: Self)
        ensures
            sys@.0 == UNLOCKED,
            sys@.1 == Seq::new(n as nat, |i: int| ThreadState::Idle),
            protocol_inv(sys@.0, sys@.1),
    {
        let mut threads: Vec<ThreadState> = Vec::new();
        let mut i: usize = 0;
        while i < n
            invariant
                i <= n,
                threads@ == Seq::new(i as nat, |j: int| ThreadState::Idle),
            decreases n - i,
        {
            threads.push(ThreadState::Idle);
            i = i + 1;
        }
        proof {
            lemma_init_inv(n as nat);
        }
        MutexSystem { word: SimpleMutex::init(), threads }
    }

    /// The number of threads.
    pub fn num_threads(&self) -> (n: usize)
        ensures
            n == self@.1.len(),
    {
        self.threads.len()
    }

    /// The current value of the word.
    pub fn word(&self) -> (w: u32)
        ensures
            w == self@.0,
    {
        self.word.load()
    }

    /// The state of thread `tid`.
    pub fn thread(&self, tid: usize) -> (t: ThreadState)
        requires
            tid < self@.1.len(),
        ensures
            t == self@.1[tid as int],
    {
        self.threads[tid]
    }

    /// Lets thread `tid` take its next atomic step; a sleeping thread does
    /// not move.
    pub fn step(&mut self, tid: usize)
        requires
            protocol_inv(old(self)@.0, old(self)@.1),
            tid < old(self)@.1.len(),
        ensures
            protocol_step(old(self)@.0, old(self)@.1, tid as int, final(self)@.0, final(self)@.1),
            protocol_inv(final(self)@.0, final(self)@.1),
    {
        let ghost w0 = self@.0;
        let ghost ts0 = self@.1;
        match self.threads[tid] {
            ThreadState::Idle => {
                self.threads.set(tid, ThreadState::TryFast);
            },
            ThreadState::TryFast => {
                let r = self.word.compare_exchange(UNLOCKED, LOCKED);
                let next = if after_fast_path(r) == LockPhase::Acquired {
                    ThreadState::Critical
                } else {
                    ThreadState::Contend
                };
                self.threads.set(tid, next);
            },
            ThreadState::Contend => {
                let prev: u32 = self.word.swap(CONTENDED);
                let next = if after_contended_swap(prev) == LockPhase::Acquired {
                    ThreadState::Critical
                } else {
                    ThreadState::Wait
                };
                self.threads.set(tid, next);
            },
            ThreadState::Wait => {
                let current: u32 = self.word.load();
                let next = if sleeps_on(current) {
                    ThreadState::Asleep
                } else {
                    ThreadState::Contend
                };
                self.threads.set(tid, next);
            },
            ThreadState::Asleep => {},
            ThreadState::Critical => {
                self.threads.set(tid, ThreadState::Release);
            },
            ThreadState::Release => {
                let prev: u32 = self.word.swap(UNLOCKED);
                let next = if unlock_needs_wake(prev) {
                    ThreadState::Wake
                } else {
                    ThreadState::Idle
                };
                self.threads.set(tid, next);
            },
            ThreadState::Wake => {
                self.threads.set(tid, ThreadState::Idle);
                self.wake_one(Ghost(ts0), tid);
            },
        }
        proof {
            lemma_step_keeps_inv(w0, ts0, tid as int, self@.0, self@.1);
        }
    }

    /// Wakes the first sleeping thread, if any; `ts0` is the configuration
    /// before thread `waker` left its wake state.
    fn wake_one(&mut self, Ghost(ts0): Ghost<Seq<ThreadState>>, waker: usize)
        requires
            waker < ts0.len(),
            ts0[waker as int] == ThreadState::Wake,
            old(self)@.1 == ts0.update(waker as int, ThreadState::Idle),
        ensures
            final(self)@.0 == old(self)@.0,
            (exists|k: int|
                0 <= k < ts0.len() && #[trigger] ts0[k] == ThreadState::Asleep && final(self)@.1
                    == ts0.update(waker as int, ThreadState::Idle).update(k, ThreadState::Contend))
                || (!some_asleep(ts0) && final(self)@.1 == ts0.update(
                waker as int,
                ThreadState::Idle,
            )),
    {
        let n: usize = self.threads.len();
        let mut i: usize = 0;
        while i < n
            invariant
                n == self.threads@.len(),
                self@.0 == old(self)@.0,
                self@.1 == ts0.update(waker as int, ThreadState::Idle),
                waker < ts0.len(),
                ts0[waker as int] == ThreadState::Wake,
                i <= n,
                forall|j: int| 0 <= j < i ==> ts0[j] != ThreadState::Asleep,
            decreases n - i,
        {
            if self.threads[i] == ThreadState::Asleep {
                self.threads.set(i, ThreadState::Contend);
                assert(ts0[i as int] == ThreadState::Asleep);
                return;
            }
            i = i + 1;
        }
    }

    /// Thread `tid`, asleep, returns from its sleep without being woken.
    pub fn spurious_wake(&mut self, tid: usize)
        requires
            protocol_inv(old(self)@.0, old(self)@.1),
            tid < old(self)@.1.len(),
            old(self)@.1[tid as int] == ThreadState::Asleep,
        ensures
            protocol_spurious_wake(
                old(self)@.0,
                old(self)@.1,
                tid as int,
                final(self)@.0,
                final(self)@.1,
            ),
            protocol_inv(final(self)@.0, final(self)@.1),
    {
        let ghost w0 = self@.0;
        let ghost ts0 = self@.1;
        self.threads.set(tid, ThreadState::Contend);
        proof {
            lemma_spurious_wake_keeps_inv(w0, ts0, tid as int, self@.0, self@.1);
        }
    }
}


/// A mutex that one thread at a time locks and unlocks, through the same
/// atomic operations as the shared protocol.
pub struct Mutex {
    word: SimpleMutex,
}

impl Mutex {
    /// The mutex is locked.
    pub closed spec fn is_locked(&self) -> bool {
        self.word.word() != UNLOCKED
    }

    /// The word of the mutex.
    pub closed spec fn word(&self) -> u32 {
        self.word.word()
    }

    /// The mutex is locked exactly when its word is not `UNLOCKED`.
    pub proof fn lemma_locked_iff_word(&self)
        ensures
            self.is_locked() <==> self.word() != UNLOCKED,
    {
    }

    /// A mutex is nothing but its word.
    pub proof fn lemma_word_determines(a: Mutex, b: Mutex)
        requires
            a.word() == b.word(),
        ensures
            a == b,
    {
    }

    /// Locking an unlocked mutex and unlocking it again leaves it exactly
    /// as it was: `m0` before the lock, `m1` after it, `m2` after the unlock.
    pub proof fn lemma_lock_unlock_restores(m0: Mutex, m1: Mutex, m2: Mutex)
        requires
            !m0.is_locked(),
            m1.is_locked(),
            m1.word() == LOCKED,
            !m2.is_locked(),
            m2.word() == UNLOCKED,
        ensures
            m2 == m0,
    {
    }

    /// An unlocked mutex.
    pub fn init() -> (m: Mutex)
        ensures
            !m.is_locked(),
            m.word() == UNLOCKED,
    {
        Mutex { word: SimpleMutex::init() }
    }

    /// Locks the mutex. Locking a mutex that is already locked would wait
    /// for an unlock that no other thread can make.
    pub fn lock(mutex: &mut Mutex)
        requires
            !old(mutex).is_locked(),
        ensures
            final(mutex).is_locked(),
            final(mutex).word() == LOCKED,
    {
        let r = mutex.word.compare_exchange(UNLOCKED, LOCKED);
        let phase = after_fast_path(r);
        assert(phase == LockPhase::Acquired);
    }

    /// Unlocks the mutex.
    pub fn unlock(mutex: &mut Mutex)
        ensures
            !final(mutex).is_locked(),
            final(mutex).word() == UNLOCKED,
    {
        let _prev: u32 = mutex.word.swap(UNLOCKED);
    }
}

/// A mutex that owns the value it protects.
pub struct SimpleMutexRust<T> {
    word: SimpleMutex,
    value: T,
}

impl<T> SimpleMutexRust<T> {
    /// The mutex is locked.
    pub closed spec fn is_locked(&self) -> bool {
        self.word.word() != UNLOCKED
    }

    /// The word of the mutex.
    pub closed spec fn word(&self) -> u32 {
        self.word.word()
    }

    /// The protected value.
    pub closed spec fn value(&self) -> T {
        self.value
    }

    /// The mutex is locked exactly when its word is not `UNLOCKED`.
    pub proof fn lemma_locked_iff_word(&self)
        ensures
            self.is_locked() <==> self.word() != UNLOCKED,
    {
    }

    /// A mutex is nothing but its word and its value.
    pub proof fn lemma_word_and_value_determine(a: Self, b: Self)
        requires
            a.word() == b.word(),
            a.value() == b.value(),
        ensures
            a == b,
    {
    }

    /// An unlocked mutex that protects `value`.
    pub fn init(value: T) -> (m: Self)
        ensures
            !m.is_locked(),
            m.word() == UNLOCKED,
            m.value() == value,
    {
        SimpleMutexRust { word: SimpleMutex::init(), value }
    }

    /// Locks the mutex and hands out a guard through which the value is
    /// reached; the mutex is unlocked through the guard. Locking a mutex
    /// that is already locked would wait for an unlock that no other thread
    /// can make.
    pub fn lock(&mut self) -> (g: SimpleMutexRustGuard<'_, T>)
        requires
            !old(self).is_locked(),
        ensures
            g.mutex.is_locked(),
            g.mutex.word() == LOCKED,
            g.mutex.value() == old(self).value(),
            *final(self) == *final(g.mutex),
    {
        let r = self.word.compare_exchange(UNLOCKED, LOCKED);
        let phase = after_fast_path(r);
        assert(phase == LockPhase::Acquired);
        SimpleMutexRustGuard::new(self)
    }

    fn unlock(&mut self)
        ensures
            !final(self).is_locked(),
            final(self).word() == UNLOCKED,
            final(self).value() == old(self).value(),
    {
        let _prev: u32 = self.word.swap(UNLOCKED);
    }
}

/// Access to the value of a locked `SimpleMutexRust`.
pub struct SimpleMutexRustGuard<'a, T> {
    pub mutex: &'a mut SimpleMutexRust<T>,
}

impl<'a, T> SimpleMutexRustGuard<'a, T> {
    /// A guard over `mutex`, which the caller has locked.
    pub fn new(mutex: &'a mut SimpleMutexRust<T>) -> (g: Self)
        ensures
            *g.mutex == *old(mutex),
            *final(mutex) == *final(g.mutex),
    {
        Self { mutex }
    }

    /// The protected value.
    pub fn deref(&self) -> (r: &T)
        ensures
            *r == old(self.mutex).value(),
    {
        &self.mutex.value
    }

    /// The protected value, for writing.
    pub fn deref_mut(&mut self) -> (r: &mut T)
        ensures
            *r == old(self).mutex.value(),
            final(self).mutex.value() == *final(r),
            final(self).mutex.word() == old(self).mutex.word(),
            *final(final(self).mutex) == *final(old(self).mutex),
    {
        &mut self.mutex.value
    }

    /// Unlocks the mutex; the value stays as the guard left it.
    pub fn drop(self)
        ensures
            !final(self.mutex).is_locked(),
            final(self.mutex).word() == UNLOCKED,
            final(self.mutex).value() == old(self.mutex).value(),
    {
        self.mutex.unlock();
    }
}

} // verus!
