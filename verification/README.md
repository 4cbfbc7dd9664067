# rcore_os

Verified kernel bookkeeping of a small teaching operating system, written in
Verus.

- `src/deadlock.rs`: deadlock detection in the style of the banker's safety
  check, with proofs that the check is sound and, for non-negative holdings,
  complete with respect to the existence of a safe order.
- `src/sync.rs`: what deadlock detection reads from a synchronization
  resource, and the detection over a list of resources.
- `src/mutex.rs`, `src/semaphore.rs`: spin and blocking mutexes, counting
  semaphores.
- `src/manager.rs`: the stride scheduler's ready queue.
- `src/stat.rs`, `src/syscall.rs`: system-call counting and decoding.
- `src/vfs.rs`: directory entries of the file system and the link counts
  of the inodes they name: lookup, create, hard links, unlink (freeing an
  inode with its last link), listing.
- `app/`: glue that Verus does not check: the global ready queue, inode mode
  flags, mutexes and semaphores shared between tasks and driving the
  scheduler, and system-call dispatch.
