use tomasulo_parrallel::atomic_queue::Link;
use tomasulo_parrallel::queue_system::{QueueSystem, QueueThread, StepOutcome};

fn run_until_done(q: &mut QueueSystem, tid: usize) -> StepOutcome {
    loop {
        let r = q.step(tid);
        if r != StepOutcome::Continues {
            return r;
        }
    }
}

fn push(q: &mut QueueSystem, tid: usize, e: usize) {
    q.start_push(tid, e);
    assert_eq!(run_until_done(q, tid), StepOutcome::Pushed);
}

fn pop(q: &mut QueueSystem, tid: usize) -> Option<usize> {
    q.start_pop(tid);
    match run_until_done(q, tid) {
        StepOutcome::Popped(r) => r,
        other => panic!("unexpected {:?}", other),
    }
}

#[test]
fn single_thread_fifo() {
    let mut q = QueueSystem::new(5, 1);
    assert_eq!(pop(&mut q, 0), None);
    push(&mut q, 0, 3);
    push(&mut q, 0, 1);
    push(&mut q, 0, 4);
    assert_eq!(q.counter(), 3);
    assert_eq!(pop(&mut q, 0), Some(3));
    push(&mut q, 0, 3);
    assert_eq!(pop(&mut q, 0), Some(1));
    assert_eq!(pop(&mut q, 0), Some(4));
    assert_eq!(pop(&mut q, 0), Some(3));
    assert_eq!(pop(&mut q, 0), None);
    assert_eq!(q.counter(), 0);
}

#[test]
fn pop_waits_for_a_pending_link() {
    let mut q = QueueSystem::new(2, 3);
    push(&mut q, 0, 0);
    q.start_push(1, 1);
    assert_eq!(q.step(1), StepOutcome::Continues);
    assert_eq!(q.step(1), StepOutcome::Continues);
    assert_eq!(q.thread(1), QueueThread::PushLink(1, Link::Next(0)));
    q.start_pop(2);
    assert_eq!(q.step(2), StepOutcome::Continues);
    assert_eq!(q.thread(2), QueueThread::PopTake);
    q.step(2);
    assert_eq!(q.thread(2), QueueThread::PopRead(0));
    q.step(2);
    assert_eq!(q.thread(2), QueueThread::PopCas(0));
    // The tail has moved on: the pop must wait for the link.
    q.step(2);
    assert_eq!(q.thread(2), QueueThread::PopRead(0));
    assert_eq!(q.step(1), StepOutcome::Continues);
    q.step(2);
    assert_eq!(q.thread(2), QueueThread::PopSetHead(0, 1));
    assert_eq!(q.step(2), StepOutcome::Popped(Some(0)));
    assert_eq!(q.step(1), StepOutcome::Pushed);
    assert_eq!(pop(&mut q, 2), Some(1));
    assert_eq!(pop(&mut q, 0), None);
}

#[test]
fn last_element_pop_turns_tail_back() {
    let mut q = QueueSystem::new(1, 2);
    push(&mut q, 0, 0);
    q.start_pop(1);
    q.step(1);
    q.step(1);
    q.step(1);
    assert_eq!(q.thread(1), QueueThread::PopCas(0));
    assert_eq!(q.step(1), StepOutcome::Popped(Some(0)));
    push(&mut q, 0, 0);
    assert_eq!(pop(&mut q, 1), Some(0));
}

#[test]
fn second_pop_waits_while_head_is_taken() {
    let mut q = QueueSystem::new(2, 3);
    push(&mut q, 0, 0);
    push(&mut q, 0, 1);
    q.start_pop(1);
    q.start_pop(2);
    q.step(1);
    q.step(2);
    q.step(1);
    assert_eq!(q.thread(1), QueueThread::PopRead(0));
    q.step(2);
    assert_eq!(q.thread(2), QueueThread::PopTake);
    assert_eq!(run_until_done(&mut q, 1), StepOutcome::Popped(Some(0)));
    assert_eq!(run_until_done(&mut q, 2), StepOutcome::Popped(Some(1)));
}

#[derive(Clone, Copy, PartialEq)]
enum Plan {
    Pushing(usize),
    Popping,
}

#[test]
fn interleaved_threads_pop_every_element_once() {
    const THREADS: usize = 4;
    const PER_THREAD: usize = 6;
    let n = THREADS * PER_THREAD;
    let mut q = QueueSystem::new(n, THREADS);
    let mut plan = vec![Plan::Pushing(0); THREADS];
    let mut seen = vec![false; n];
    let mut popped = 0;
    let mut seed: u64 = 12345;
    while popped < n {
        seed = seed.wrapping_mul(6364136223846793005).wrapping_add(1442695040888963407);
        let tid = ((seed >> 33) as usize) % THREADS;
        if q.thread(tid) == QueueThread::Idle {
            match plan[tid] {
                Plan::Pushing(k) if k < PER_THREAD => {
                    q.start_push(tid, tid * PER_THREAD + k);
                    plan[tid] = Plan::Pushing(k + 1);
                }
                _ => {
                    plan[tid] = Plan::Popping;
                    q.start_pop(tid);
                }
            }
            continue;
        }
        if let StepOutcome::Popped(Some(e)) = q.step(tid) {
            assert!(!seen[e]);
            seen[e] = true;
            popped += 1;
        }
    }
    assert!(seen.iter().all(|&s| s));
}

#[test]
fn interleaved_pops_follow_push_order() {
    // One thread pushes 0..n in order while three others pop, interleaved:
    // the elements come out in push order.
    let n = 12;
    let mut q = QueueSystem::new(n, 4);
    let mut next_push = 0;
    let mut out: Vec<usize> = Vec::new();
    let mut seed: u64 = 99;
    while out.len() < n {
        seed = seed.wrapping_mul(6364136223846793005).wrapping_add(1442695040888963407);
        let tid = ((seed >> 33) as usize) % 4;
        if q.thread(tid) == QueueThread::Idle {
            if tid == 0 {
                if next_push < n {
                    q.start_push(0, next_push);
                    next_push += 1;
                }
            } else {
                q.start_pop(tid);
            }
            continue;
        }
        if let StepOutcome::Popped(Some(e)) = q.step(tid) {
            out.push(e);
        }
    }
    assert_eq!(out, (0..n).collect::<Vec<usize>>());
}

#[test]
fn pop_spinning_on_taken_head_leaves_the_holder_a_step() {
    let mut q = QueueSystem::new(2, 2);
    push(&mut q, 0, 0);
    push(&mut q, 0, 1);
    q.start_pop(0);
    q.start_pop(1);
    q.step(0);
    q.step(1);
    q.step(0);
    assert_eq!(q.thread(0), QueueThread::PopRead(0));
    // The second pop spins on the empty head slot and stays where it is.
    q.step(1);
    q.step(1);
    assert_eq!(q.thread(1), QueueThread::PopTake);
    // The holder moves on.
    q.step(0);
    assert_eq!(q.thread(0), QueueThread::PopSetHead(0, 1));
    assert_eq!(q.step(0), StepOutcome::Popped(Some(0)));
    q.step(1);
    assert_eq!(q.thread(1), QueueThread::PopRead(1));
}
