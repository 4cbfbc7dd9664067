//! Kernel bookkeeping of a small teaching operating system: system-call
//! decoding and counting, a stride scheduler's ready queue, blocking and
//! spinning mutexes, counting semaphores, banker's-style deadlock
//! detection over them, and the directory logic of a simple file system.

pub mod syscall;
pub mod stat;
pub mod deadlock;
pub mod sync;
pub mod mutex;
pub mod semaphore;
pub mod manager;
pub mod vfs;
