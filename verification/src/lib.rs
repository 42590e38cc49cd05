//! A data-flow task runtime: an intrusive first-in first-out queue and a
//! model of its lock-free use by many threads, a futex mutex protocol with
//! its model, the queue of tasks ready to run, and the single-assignment data
//! slots that release the tasks waiting for them, with a model of one slot
//! shared by its writer and its readers.

pub mod atomic_queue;
pub mod queue_system;
pub mod simple_mutex;
pub mod slot_system;
pub mod sheduler;
pub mod wrapper;
