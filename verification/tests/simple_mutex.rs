use tomasulo_parrallel::simple_mutex::{
    after_contended_swap, after_fast_path, sleeps_on, unlock_needs_wake, LockPhase, Mutex,
    MutexSystem, SimpleMutex, ThreadState, CONTENDED, LOCKED, UNLOCKED,
};

const NUM_THREAD: usize = 10;
const NUM_ITERATION: i64 = 1000;

#[test]
fn decisions_follow_the_returned_value() {
    assert_eq!(after_fast_path(Ok(0)), LockPhase::Acquired);
    assert_eq!(after_fast_path(Err(1)), LockPhase::Contend);
    assert_eq!(after_fast_path(Err(2)), LockPhase::Contend);
    assert_eq!(after_contended_swap(UNLOCKED), LockPhase::Acquired);
    assert_eq!(after_contended_swap(LOCKED), LockPhase::Wait);
    assert_eq!(after_contended_swap(CONTENDED), LockPhase::Wait);
    assert!(sleeps_on(CONTENDED));
    assert!(!sleeps_on(LOCKED));
    assert!(!sleeps_on(UNLOCKED));
    assert!(!unlock_needs_wake(LOCKED));
    assert!(unlock_needs_wake(CONTENDED));
    assert!(unlock_needs_wake(UNLOCKED));
}

#[test]
fn word_operations() {
    let mut m = SimpleMutex::init();
    assert_eq!(m.load(), 0);
    assert_eq!(m.compare_exchange(0, 1), Ok(0));
    assert_eq!(m.load(), 1);
    assert_eq!(m.compare_exchange(0, 1), Err(1));
    assert_eq!(m.swap(2), 1);
    assert_eq!(m.swap(0), 2);
    assert_eq!(m.load(), 0);
}

#[test]
fn sequential_mutex_lock_unlock() {
    let mut m = Mutex::init();
    Mutex::lock(&mut m);
    Mutex::unlock(&mut m);
    Mutex::lock(&mut m);
    Mutex::unlock(&mut m);
    Mutex::unlock(&mut m);
}

fn holders(sys: &MutexSystem) -> usize {
    (0..sys.num_threads())
        .filter(|&i| matches!(sys.thread(i), ThreadState::Critical | ThreadState::Release))
        .count()
}

#[test]
fn contended_lock_sleeps_and_is_woken() {
    let mut sys = MutexSystem::new(2);
    sys.step(0);
    sys.step(0);
    assert_eq!(sys.thread(0), ThreadState::Critical);
    assert_eq!(sys.word(), LOCKED);
    sys.step(1);
    sys.step(1);
    assert_eq!(sys.thread(1), ThreadState::Contend);
    sys.step(1);
    assert_eq!(sys.word(), CONTENDED);
    assert_eq!(sys.thread(1), ThreadState::Wait);
    sys.step(1);
    assert_eq!(sys.thread(1), ThreadState::Asleep);
    sys.step(1);
    assert_eq!(sys.thread(1), ThreadState::Asleep);
    sys.step(0);
    sys.step(0);
    assert_eq!(sys.word(), UNLOCKED);
    assert_eq!(sys.thread(0), ThreadState::Wake);
    sys.step(0);
    assert_eq!(sys.thread(0), ThreadState::Idle);
    assert_eq!(sys.thread(1), ThreadState::Contend);
    sys.step(1);
    assert_eq!(sys.thread(1), ThreadState::Critical);
    assert_eq!(sys.word(), CONTENDED);
}

#[test]
fn spurious_wake_contends_again() {
    let mut sys = MutexSystem::new(2);
    for _ in 0..2 {
        sys.step(0);
    }
    for _ in 0..4 {
        sys.step(1);
    }
    assert_eq!(sys.thread(1), ThreadState::Asleep);
    sys.spurious_wake(1);
    assert_eq!(sys.thread(1), ThreadState::Contend);
}

#[test]
fn simple_mutex_increment_protected() {
    // Threads interleaved step by step: each counts its critical sections,
    // and no two hold the mutex at once.
    let mut sys = MutexSystem::new(NUM_THREAD);
    let mut done = vec![0i64; NUM_THREAD];
    let mut counter: i64 = 0;
    let mut turn: usize = 0;
    let mut rounds: usize = 0;
    while done.iter().any(|&d| d < NUM_ITERATION) {
        rounds += 1;
        turn = (turn * 7 + rounds) % NUM_THREAD;
        let t = turn;
        if sys.thread(t) == ThreadState::Idle && done[t] >= NUM_ITERATION {
            continue;
        }
        if sys.thread(t) == ThreadState::Asleep {
            if rounds % 97 == 0 {
                sys.spurious_wake(t);
            }
            continue;
        }
        sys.step(t);
        if sys.thread(t) == ThreadState::Critical {
            counter += 1;
            done[t] += 1;
        }
        assert!(holders(&sys) <= 1);
        assert_eq!(sys.word() != UNLOCKED, holders(&sys) == 1);
    }
    assert_eq!(counter, NUM_ITERATION * NUM_THREAD as i64);
}

#[test]
fn sleeper_is_never_alone() {
    let mut sys = MutexSystem::new(3);
    sys.step(0);
    sys.step(0);
    for _ in 0..4 {
        sys.step(1);
    }
    assert_eq!(sys.thread(1), ThreadState::Asleep);
    // The holder is awake and moves on.
    assert_eq!(sys.thread(0), ThreadState::Critical);
    sys.step(0);
    assert_eq!(sys.thread(0), ThreadState::Release);
    sys.step(0);
    assert_eq!(sys.thread(0), ThreadState::Wake);
    assert_eq!(sys.thread(1), ThreadState::Asleep);
    sys.step(0);
    assert_eq!(sys.thread(1), ThreadState::Contend);
    assert_eq!(holders(&sys), 0);
}
