//! Per-task counters of selected system calls.

use vstd::prelude::*;
use crate::syscall::{SYSCALL_EXIT, SYSCALL_GET_TIME, SYSCALL_TRACE, SYSCALL_WRITE, SYSCALL_YIELD};

verus! {

/// Number of system calls whose invocations are counted.
pub const SYSCALL_NUM: usize = 5;

/// The counter slot of a system call, if it is one of the counted ones.
pub open spec fn counted_slot(syscall_id: usize) -> Option<int> {
    if syscall_id == SYSCALL_EXIT {
        Some(0)
    } else if syscall_id == SYSCALL_GET_TIME {
        Some(1)
    } else if syscall_id == SYSCALL_TRACE {
        Some(2)
    } else if syscall_id == SYSCALL_WRITE {
        Some(3)
    } else if syscall_id == SYSCALL_YIELD {
        Some(4)
    } else {
        None
    }
}

/// What `get_count` reports for `syscall_id` when the counters are `counts`.
pub open spec fn count_of(counts: Seq<usize>, syscall_id: usize) -> usize {
    match counted_slot(syscall_id) {
        Some(slot) => counts[slot],
        None => 0,
    }
}

/// task statistics structure containing
/// syscall counts
#[derive(Copy, Clone)]
pub struct TaskStatistics {
    /// Syscall counting, indexed by counter slot
    syscall_count: [usize; 5],
}

impl View for TaskStatistics {
    type V = Seq<usize>;

    closed spec fn view(&self) -> Seq<usize> {
        self.syscall_count@
    }
}

impl TaskStatistics {
    /// There is one counter per counted system call.
    pub proof fn lemma_len(&self)
        ensures
            self@.len() == SYSCALL_NUM,
    {
    }

    /// A syscall with `syscall_id` happened
    pub fn count(&mut self, syscall_id: usize)
        requires
            counted_slot(syscall_id) is Some,
            old(self)@[counted_slot(syscall_id)->0] < usize::MAX,
        ensures
            final(self)@ == old(self)@.update(
                counted_slot(syscall_id)->0,
                (old(self)@[counted_slot(syscall_id)->0] + 1) as usize,
            ),
    {
        let slot: usize = if syscall_id == SYSCALL_EXIT {
            0
        } else if syscall_id == SYSCALL_GET_TIME {
            1
        } else if syscall_id == SYSCALL_TRACE {
            2
        } else if syscall_id == SYSCALL_WRITE {
            3
        } else {
            4
        };
        let v = self.syscall_count[slot];
        self.syscall_count[slot] = v + 1;
    }

    /// Get count of syscall `syscall_id`
    pub fn get_count(&self, syscall_id: usize) -> (r: usize)
        ensures
            r == count_of(self@, syscall_id),
    {
        if syscall_id == SYSCALL_EXIT {
            self.syscall_count[0]
        } else if syscall_id == SYSCALL_GET_TIME {
            self.syscall_count[1]
        } else if syscall_id == SYSCALL_TRACE {
            self.syscall_count[2]
        } else if syscall_id == SYSCALL_WRITE {
            self.syscall_count[3]
        } else if syscall_id == SYSCALL_YIELD {
            self.syscall_count[4]
        } else {
            0
        }
    }

    /// Create a new empty task statistics structure
    pub fn zero_init() -> (r: Self)
        ensures
            r@ == Seq::new(SYSCALL_NUM as nat, |i: int| 0usize),
    {
        let r = Self { syscall_count: [0; 5] };
        assert(r@ =~= Seq::new(SYSCALL_NUM as nat, |i: int| 0usize));
        r
    }
}

/// Counting a system call raises what `get_count` reports for it by one
/// and leaves what it reports for every other system call unchanged.
pub proof fn lemma_count_then_get(counts: Seq<usize>, syscall_id: usize, other_id: usize)
    requires
        counts.len() == SYSCALL_NUM,
        counted_slot(syscall_id) is Some,
        counts[counted_slot(syscall_id)->0] < usize::MAX,
    ensures
        count_of(
            counts.update(
                counted_slot(syscall_id)->0,
                (counts[counted_slot(syscall_id)->0] + 1) as usize,
            ),
            syscall_id,
        ) == count_of(counts, syscall_id) + 1,
        other_id != syscall_id ==> count_of(
            counts.update(
                counted_slot(syscall_id)->0,
                (counts[counted_slot(syscall_id)->0] + 1) as usize,
            ),
            other_id,
        ) == count_of(counts, other_id),
{
}

/// Fresh statistics report zero for every system call.
pub proof fn lemma_zero_init_counts(syscall_id: usize)
    ensures
        count_of(Seq::new(SYSCALL_NUM as nat, |i: int| 0usize), syscall_id) == 0,
{
}

} // verus!
