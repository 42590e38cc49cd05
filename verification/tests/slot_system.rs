use tomasulo_parrallel::slot_system::{SlotOutcome, SlotSystem, SlotThread};
use tomasulo_parrallel::wrapper::Status;

fn run(sys: &mut SlotSystem, tid: usize, released: &mut Vec<usize>) {
    while sys.thread(tid) != SlotThread::Idle {
        if let SlotOutcome::Released(f) = sys.step(tid) {
            released.push(f);
        }
    }
}

#[test]
fn reader_pushing_while_writer_signals_is_released_by_writer() {
    let mut sys = SlotSystem::new(4, 2);
    let mut released = Vec::new();
    sys.start_reader(1, 3);
    sys.step(1);
    sys.step(1);
    assert_eq!(sys.thread(1), SlotThread::ReaderPush(3));
    assert_eq!(sys.active_users(), 1);
    sys.start_writer(0);
    sys.step(0);
    sys.step(0);
    assert_eq!(sys.status(), Status::FilledSignaling);
    assert_eq!(sys.step(0), SlotOutcome::Continues);
    assert_eq!(sys.thread(0), SlotThread::WriterRest);
    sys.step(1);
    sys.step(1);
    assert_eq!(sys.thread(1), SlotThread::Idle);
    sys.step(0);
    assert_eq!(sys.status(), Status::FilledResting);
    run(&mut sys, 0, &mut released);
    assert_eq!(released, vec![3]);
}

#[test]
fn late_reader_releases_itself_at_rest() {
    let mut sys = SlotSystem::new(4, 2);
    let mut released = Vec::new();
    sys.start_reader(1, 2);
    sys.step(1);
    sys.start_writer(0);
    run(&mut sys, 0, &mut released);
    assert!(released.is_empty());
    run(&mut sys, 1, &mut released);
    assert_eq!(released, vec![2]);
}

#[test]
fn reader_of_filled_slot_is_released_at_once() {
    let mut sys = SlotSystem::new(4, 2);
    let mut released = Vec::new();
    sys.start_writer(0);
    run(&mut sys, 0, &mut released);
    sys.start_reader(1, 0);
    assert_eq!(sys.step(1), SlotOutcome::Released(0));
    assert_eq!(sys.active_users(), 0);
}

#[test]
fn interleaved_readers_are_each_released_once_after_the_write() {
    const READERS: usize = 5;
    const TASKS: usize = 20;
    let mut sys = SlotSystem::new(TASKS, READERS + 1);
    let mut next_task = 0;
    let mut writer_started = false;
    let mut released = vec![false; TASKS];
    let mut seed: u64 = 7;
    let mut steps = 0;
    loop {
        steps += 1;
        seed = seed.wrapping_mul(6364136223846793005).wrapping_add(1442695040888963407);
        let tid = ((seed >> 33) as usize) % (READERS + 1);
        if sys.thread(tid) == SlotThread::Idle {
            if tid == 0 {
                if !writer_started && steps > 30 {
                    sys.start_writer(0);
                    writer_started = true;
                }
            } else if next_task < TASKS {
                sys.start_reader(tid, next_task);
                next_task += 1;
            }
        } else if let SlotOutcome::Released(f) = sys.step(tid) {
            assert_ne!(sys.status(), Status::Initialised);
            assert!(!released[f]);
            released[f] = true;
        }
        let all_idle = (0..READERS + 1).all(|t| sys.thread(t) == SlotThread::Idle);
        if writer_started && next_task == TASKS && all_idle {
            break;
        }
    }
    assert!(released.iter().all(|&r| r));
}

#[test]
fn last_counted_reader_empties_the_slot() {
    let mut sys = SlotSystem::new(4, 3);
    let mut released = Vec::new();
    sys.start_reader(1, 0);
    run(&mut sys, 1, &mut released);
    sys.start_reader(2, 1);
    run(&mut sys, 2, &mut released);
    assert_eq!(sys.active_users(), 2);
    sys.start_writer(0);
    run(&mut sys, 0, &mut released);
    assert_eq!(released, vec![0, 1]);
    assert_eq!(sys.status(), Status::FilledResting);
    sys.start_done(1, 0);
    sys.step(1);
    assert_eq!(sys.active_users(), 1);
    assert_eq!(sys.status(), Status::FilledResting);
    sys.start_done(2, 1);
    sys.step(2);
    assert_eq!(sys.active_users(), 0);
    assert_eq!(sys.status(), Status::Empty);
}

#[test]
fn reader_done_while_writer_signals_empties_then_writer_rests() {
    let mut sys = SlotSystem::new(4, 2);
    let mut released = Vec::new();
    sys.start_reader(1, 0);
    run(&mut sys, 1, &mut released);
    sys.start_writer(0);
    sys.step(0);
    sys.step(0);
    assert_eq!(sys.step(0), SlotOutcome::Released(0));
    assert_eq!(sys.thread(0), SlotThread::WriterDrain);
    sys.start_done(1, 0);
    sys.step(1);
    assert_eq!(sys.status(), Status::Empty);
    run(&mut sys, 0, &mut released);
    // The writer marks the slot as resting over the empty status.
    assert_eq!(sys.status(), Status::FilledResting);
    assert_eq!(sys.active_users(), 0);
}

#[test]
fn reader_released_at_once_counts_down_past_zero() {
    let mut sys = SlotSystem::new(4, 2);
    let mut released = Vec::new();
    sys.start_writer(0);
    run(&mut sys, 0, &mut released);
    sys.start_reader(1, 2);
    assert_eq!(sys.step(1), SlotOutcome::Released(2));
    sys.start_done(1, 2);
    sys.step(1);
    assert_eq!(sys.active_users(), usize::MAX);
    assert_eq!(sys.status(), Status::FilledResting);
}

#[test]
fn reader_finding_the_slot_empty_has_no_step() {
    let mut sys = SlotSystem::new(4, 3);
    let mut released = Vec::new();
    sys.start_reader(1, 0);
    run(&mut sys, 1, &mut released);
    sys.start_writer(0);
    run(&mut sys, 0, &mut released);
    sys.start_done(1, 0);
    sys.step(1);
    assert_eq!(sys.status(), Status::Empty);
    sys.start_reader(2, 1);
    assert_eq!(sys.step(2), SlotOutcome::Continues);
    assert_eq!(sys.thread(2), SlotThread::ReaderLoad(1));
}

#[test]
fn status_goes_round_in_atomic_steps() {
    let mut sys = SlotSystem::new(4, 2);
    let mut released = Vec::new();
    let mut seen = vec![sys.status()];
    sys.start_reader(1, 0);
    run(&mut sys, 1, &mut released);
    sys.start_writer(0);
    while sys.thread(0) != SlotThread::Idle {
        if let SlotOutcome::Released(f) = sys.step(0) {
            released.push(f);
        }
        if *seen.last().unwrap() != sys.status() {
            seen.push(sys.status());
        }
    }
    sys.start_done(1, 0);
    sys.step(1);
    seen.push(sys.status());
    assert_eq!(released, vec![0]);
    assert_eq!(
        seen,
        vec![
            Status::Initialised,
            Status::FilledSignaling,
            Status::FilledResting,
            Status::Empty
        ]
    );
}

#[test]
fn every_running_thread_moves_the_slot_on() {
    let mut sys = SlotSystem::new(4, 2);
    sys.start_reader(1, 0);
    sys.start_writer(0);
    let mut steps = 0;
    while sys.thread(0) != SlotThread::Idle || sys.thread(1) != SlotThread::Idle {
        for tid in 0..2 {
            if sys.thread(tid) != SlotThread::Idle {
                let before = (sys.thread(tid), sys.status(), sys.active_users());
                sys.step(tid);
                steps += 1;
                let after = (sys.thread(tid), sys.status(), sys.active_users());
                // Only a drain step that pops keeps these three as they were.
                assert!(before != after || matches!(before.0, SlotThread::WriterDrain | SlotThread::WriterFinish | SlotThread::ReaderDrain));
            }
        }
    }
    assert!(steps <= 12);
    assert_eq!(sys.status(), Status::FilledResting);
}
