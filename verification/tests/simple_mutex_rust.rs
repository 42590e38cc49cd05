use tomasulo_parrallel::simple_mutex::SimpleMutexRust;

const NUM_ITERATION: i64 = 100000;

#[test]
fn simple_mutex_rust_increment_protected() {
    let mut m: SimpleMutexRust<i64> = SimpleMutexRust::init(0);
    let mut i = 0;
    while i < NUM_ITERATION {
        let mut g = m.lock();
        *g.deref_mut() += 1;
        g.drop();
        i += 1;
    }
    let g = m.lock();
    assert_eq!(*g.deref(), NUM_ITERATION);
    g.drop();
}

#[test]
fn guard_over_locked_mutex_reads_value() {
    let mut m: SimpleMutexRust<String> = SimpleMutexRust::init(String::from("abc"));
    let mut g = m.lock();
    g.deref_mut().push('d');
    assert_eq!(g.deref().as_str(), "abcd");
    g.drop();
    let g = m.lock();
    assert_eq!(g.deref().as_str(), "abcd");
    g.drop();
}
