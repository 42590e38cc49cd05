use tomasulo_parrallel::atomic_queue::QueueElem;
use tomasulo_parrallel::sheduler::{Scheduler, VirtualTask};
use tomasulo_parrallel::wrapper::{SingleDataWrapper, Status, Wrapper};

fn task(callback: usize, counter: usize) -> QueueElem<VirtualTask> {
    QueueElem::new(VirtualTask { callback, counter })
}

#[test]
fn slot_life_cycle() {
    let mut s = Scheduler::new(vec![task(0, 1), task(1, 2), task(2, 1)]);
    let mut w: SingleDataWrapper<u64> = SingleDataWrapper::new();
    w.init_assuming_empty();
    w.submit_reader(&mut s, 0);
    w.submit_reader(&mut s, 1);
    assert_eq!(s.work_once(), None);
    w.effective_write(&mut s, 42);
    assert_eq!(*w.read(), 42);
    assert_eq!(s.task(0).data.counter, 0);
    assert_eq!(s.task(1).data.counter, 1);
    assert_eq!(s.work_once(), Some(0));
    assert_eq!(s.work_once(), None);
    // A reader after the write gets its argument at once.
    w.submit_reader(&mut s, 2);
    assert_eq!(s.work_once(), Some(2));
    w.signal_read_done();
    w.signal_read_done();
    assert_eq!(w.load_status(), Status::Empty);
}

#[test]
fn last_reader_empties_slot() {
    let mut s = Scheduler::new(vec![task(0, 1), task(1, 1)]);
    let mut w = Wrapper::<u64>::new_empty();
    let slot = w.deffered_write();
    assert_eq!(slot, 1);
    assert_eq!(w.submit_reader(&mut s, 0), 1);
    assert_eq!(w.submit_reader(&mut s, 1), 1);
    w.effective_write(slot, &mut s, 7);
    assert_eq!(*w.read(slot), 7);
    assert_eq!(s.work_once(), Some(0));
    assert_eq!(s.work_once(), Some(1));
    w.liberate(slot);
    w.liberate(slot);
    // The slot is empty again: four more writes cycle back to it.
    assert_eq!(w.deffered_write(), 2);
    assert_eq!(w.deffered_write(), 3);
    assert_eq!(w.deffered_write(), 0);
    assert_eq!(w.deffered_write(), 1);
}

#[test]
fn registrations_and_reads_done_balance() {
    let mut s = Scheduler::new(vec![task(0, 2), task(1, 2), task(2, 2)]);
    let mut w: SingleDataWrapper<u64> = SingleDataWrapper::new();
    w.init_assuming_empty();
    for t in 0..3 {
        w.submit_reader(&mut s, t);
    }
    w.effective_write(&mut s, 1);
    assert_eq!(s.work_once(), None);
    for t in 0..3 {
        assert_eq!(s.task(t).data.counter, 1);
    }
    assert_eq!(w.load_status(), Status::FilledResting);
    w.signal_read_done();
    w.signal_read_done();
    assert_eq!(w.load_status(), Status::FilledResting);
    w.signal_read_done();
    assert_eq!(w.load_status(), Status::Empty);
    w.init_assuming_empty();
    assert_eq!(w.load_status(), Status::Initialised);
}

#[test]
fn init_empty_resets_wrapper() {
    let mut w = Wrapper::<u64>::new_empty();
    w.deffered_write();
    w.init_empty();
    assert_eq!(w.deffered_write(), 1);
}

#[test]
fn status_goes_round_through_whole_operations() {
    let mut s = Scheduler::new(vec![task(0, 1), task(1, 1)]);
    let mut w: SingleDataWrapper<u64> = SingleDataWrapper::new();
    assert_eq!(w.load_status(), Status::Empty);
    w.init_assuming_empty();
    assert_eq!(w.load_status(), Status::Initialised);
    w.submit_reader(&mut s, 0);
    assert_eq!(w.load_status(), Status::Initialised);
    w.effective_write(&mut s, 5);
    assert_eq!(w.load_status(), Status::FilledResting);
    w.submit_reader(&mut s, 1);
    assert_eq!(w.load_status(), Status::FilledResting);
    w.signal_read_done();
    assert_eq!(w.load_status(), Status::Empty);
    w.init_assuming_empty();
    assert_eq!(w.load_status(), Status::Initialised);
}

#[test]
fn write_to_unclaimed_slot_leaves_the_round() {
    let mut s = Scheduler::new(vec![task(0, 1)]);
    let mut w: SingleDataWrapper<u64> = SingleDataWrapper::new();
    w.effective_write(&mut s, 3);
    assert_eq!(w.load_status(), Status::FilledResting);
    assert_eq!(*w.read(), 3);
}

#[test]
fn last_reader_done_before_the_write_empties_a_claimed_slot() {
    let mut s = Scheduler::new(vec![task(0, 1)]);
    let mut w: SingleDataWrapper<u64> = SingleDataWrapper::new();
    w.init_assuming_empty();
    w.submit_reader(&mut s, 0);
    w.signal_read_done();
    assert_eq!(w.load_status(), Status::Empty);
}
