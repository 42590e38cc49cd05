# tomasulo_parrallel

A runtime for data-flow tasks, verified with Verus.

- `src/atomic_queue.rs`: an intrusive FIFO queue that links the elements of
  a caller's pool through their `next` slots.
- `src/queue_system.rs`: the same queue run by many threads, one atomic step
  at a time; its invariant gives first-in first-out order, that every
  element pushed is popped at most once per push, and that while an
  operation runs some running thread has a step that waits for no other.
- `src/simple_mutex.rs`: the three-state futex mutex: the decisions of the
  lock and unlock procedures, a model of any number of threads running them
  (mutual exclusion, no lost wake-up, a sleeper is never the only thread
  left running), and single-threaded mutexes.
- `src/slot_system.rs`: one data slot shared by its writer and any number of
  readers, one atomic step at a time, including readers that are done and
  count down; its invariant gives that every reader's task is released
  exactly once, none before the value is stored, none is left waiting once
  all threads are done, and that the count of readers tracks the counted
  readers not yet done; lemmas give the moves of the status and where they
  leave its round.
- `src/sheduler.rs`: tasks that count their missing arguments, and the work
  queue of ready tasks.
- `src/wrapper.rs`: single-assignment data slots; writing a slot releases the
  tasks that wait for it; a lemma gives the round of a slot's status under
  whole operations.
- `app/lib.rs`: the parts that need the operating system: the futex calls on
  a shared atomic word (`SharedMutex`), a mutex over shared data
  (`SharedMutexRust`), and the worker loop.
- `tests/`: scenarios run against the library.

The `tomasulo` attribute macro, which rewrites a function into a task and its
body, is not part of this crate: it is a procedural macro in a crate of its
own (built on `proc_macro`, `syn` and `quote`), and a macro is compile-time
code generation that neither the verified library nor `app/` can hold.
