use tomasulo_parrallel::atomic_queue::{AtomicQueue, QueueElem};

const NUM_ELT: usize = 4;
const NUM_ITERATION: usize = 5000;

fn pool_of(n: usize, value: i64) -> Vec<QueueElem<i64>> {
    (0..n).map(|_| QueueElem::new(value)).collect()
}

#[test]
fn queue_elem_new_holds_data_and_no_link() {
    let e = QueueElem::new(7i64);
    assert_eq!(e.data, 7);
    assert!(e.next.is_none());
}

#[test]
fn pop_on_empty_queue_is_none() {
    let pool = pool_of(2, 1);
    let mut q = AtomicQueue::<i64>::new();
    assert_eq!(q.pop(&pool), None);
    assert_eq!(q.pop(&pool), None);
}

#[test]
fn elements_come_out_in_push_order() {
    let mut pool: Vec<QueueElem<i64>> = (0..5).map(|i| QueueElem::new(i as i64 * 10)).collect();
    let mut q = AtomicQueue::<i64>::new();
    q.push(&mut pool, 3);
    q.push(&mut pool, 0);
    q.push(&mut pool, 4);
    assert_eq!(pool[3].next, Some(0));
    assert_eq!(pool[0].next, Some(4));
    assert_eq!(pool[4].next, None);
    assert_eq!(q.pop(&pool), Some(3));
    assert_eq!(pool[3].data, 30);
    q.push(&mut pool, 3);
    assert_eq!(q.pop(&pool), Some(0));
    assert_eq!(q.pop(&pool), Some(4));
    assert_eq!(q.pop(&pool), Some(3));
    assert_eq!(q.pop(&pool), None);
}

#[test]
fn uninit_queue_becomes_valid() {
    let mut pool = pool_of(1, 5);
    let mut q = AtomicQueue::<i64>::new_uninit();
    q.init_valid();
    q.push(&mut pool, 0);
    assert_eq!(q.pop(&pool), Some(0));
    assert_eq!(q.pop(&pool), None);
}

#[test]
fn init_empties_a_queue() {
    let mut pool = pool_of(2, 5);
    let mut q = AtomicQueue::<i64>::new();
    q.push(&mut pool, 0);
    q.init();
    assert_eq!(q.pop(&pool), None);
    q.push(&mut pool, 1);
    assert_eq!(q.pop(&pool), Some(1));
}

#[test]
fn concurent_usage() {
    // Every pushed element is popped exactly once.
    let n = NUM_ELT * 50;
    let mut pool = pool_of(n, 1);
    let mut q = AtomicQueue::<i64>::new();
    let mut next = 0;
    let mut popped = 0;
    while popped < n {
        if next < n {
            q.push(&mut pool, next);
            next += 1;
        }
        if next % 3 == 0 || next == n {
            if let Some(i) = q.pop(&pool) {
                assert_ne!(pool[i].data, -1);
                pool[i].data = -1;
                popped += 1;
            }
        }
    }
    assert_eq!(q.pop(&pool), None);
    for e in pool.iter() {
        assert_eq!(-1, e.data);
    }
}

#[test]
fn few_elems_check() {
    let mut pool = pool_of(NUM_ELT, 1);
    let mut q = AtomicQueue::<i64>::new();
    for i in 0..NUM_ELT {
        q.push(&mut pool, i);
    }
    for _ in 0..NUM_ITERATION {
        let elem = q.pop(&pool).expect("queue cannot run dry");
        q.push(&mut pool, elem);
    }
    for _ in 0..NUM_ELT {
        let next = q.pop(&pool).expect("Not enough elements got out");
        assert_eq!(1, pool[next].data);
        pool[next].data = -1;
    }
    assert_eq!(q.pop(&pool), None);
}
