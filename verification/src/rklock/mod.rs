//! Locks for threads of the scheduler: a counting semaphore and a
//! recursive mutex.
pub mod semaphore;
pub mod mutex;
