use tomasulo_parrallel::atomic_queue::QueueElem;
use tomasulo_parrallel::sheduler::{Scheduler, VirtualTask};

fn task(callback: usize, counter: usize) -> QueueElem<VirtualTask> {
    QueueElem::new(VirtualTask { callback, counter })
}

#[test]
fn work_once_on_idle_scheduler() {
    let mut s = Scheduler::new(vec![task(0, 1)]);
    assert_eq!(s.work_once(), None);
    assert_eq!(s.num_tasks(), 1);
}

#[test]
fn task_is_ready_after_its_last_argument() {
    let mut s = Scheduler::new(vec![task(10, 2), task(11, 1), task(12, 3)]);
    s.one_arg_ready(0);
    assert_eq!(s.task(0).data.counter, 1);
    assert_eq!(s.work_once(), None);
    s.one_arg_ready(1);
    assert_eq!(s.task(1).data.counter, 0);
    s.one_arg_ready(0);
    assert_eq!(s.task(0).data.counter, 0);
    assert_eq!(s.task(0).data.callback, 10);
    assert_eq!(s.work_once(), Some(1));
    assert_eq!(s.work_once(), Some(0));
    assert_eq!(s.work_once(), None);
    assert_eq!(s.task(2).data.counter, 3);
}

#[test]
fn count_wraps_below_zero() {
    let mut s = Scheduler::new(vec![task(0, 0)]);
    s.one_arg_ready(0);
    assert_eq!(s.task(0).data.counter, usize::MAX);
    assert_eq!(s.work_once(), None);
}

#[test]
fn ready_task_may_lose_further_arguments() {
    let mut s = Scheduler::new(vec![task(0, 1)]);
    s.one_arg_ready(0);
    // The task is on the work queue; a count that is not one does not
    // queue it again.
    s.one_arg_ready(0);
    assert_eq!(s.task(0).data.counter, usize::MAX);
    assert_eq!(s.work_once(), Some(0));
    assert_eq!(s.work_once(), None);
}
