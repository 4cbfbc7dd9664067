//! Semaphore
//!
//! A counting semaphore that also records how many units each task holds,
//! for deadlock detection. It never blocks or wakes a task itself: `down`
//! reports whether the caller has to block, and `up` names the task to
//! wake, if any.

use vstd::prelude::*;
use std::collections::{BTreeMap, VecDeque};
use crate::sync::{
    SyncResource, count_tid, count_in_queue, lemma_count_tid_push, resource_deadlock, res_views,
    marked, needs_fit, resource_claims, fits_marked, lemma_claims_nonneg,
};

verus! {

/// The observable state of a semaphore: the counter (negative while tasks
/// wait), the units each task holds, the initial number of units, and the
/// waiting tasks, oldest first.
pub struct SemaphoreState {
    pub count: isize,
    pub using: Map<usize, isize>,
    pub total: isize,
    pub wait_queue: Seq<usize>,
}

/// Units of the semaphore that task `tid` holds.
pub open spec fn held(using: Map<usize, isize>, tid: usize) -> int {
    if using.contains_key(tid) {
        using[tid] as int
    } else {
        0
    }
}

/// The holdings once task `tid` returns one unit; a holding that drops to
/// zero is forgotten.
pub open spec fn released(using: Map<usize, isize>, tid: usize) -> Map<usize, isize> {
    if using.contains_key(tid) {
        let left = (using[tid] - 1) as isize;
        if left == 0 {
            using.remove(tid)
        } else {
            using.insert(tid, left)
        }
    } else {
        using
    }
}

/// `up` can run without overflow.
pub open spec fn can_up(v: SemaphoreState, tid: usize) -> bool {
    &&& v.count < isize::MAX
    &&& v.using.contains_key(tid) ==> v.using[tid] > isize::MIN
    &&& v.count + 1 <= 0 && v.wait_queue.len() > 0 ==> held(released(v.using, tid), v.wait_queue[0])
        < isize::MAX
}

/// `down` can run without overflow.
pub open spec fn can_down(v: SemaphoreState, tid: usize) -> bool {
    &&& v.count > isize::MIN
    &&& v.count - 1 >= 0 ==> held(v.using, tid) < isize::MAX
}

/// The semaphore after task `tid` returns a unit, and the task to wake.
/// The unit leaves the holdings of `tid`; when a waiter is woken, the unit
/// passes to it.
pub open spec fn sem_up(v: SemaphoreState, tid: usize) -> (SemaphoreState, Option<usize>) {
    let count = (v.count + 1) as isize;
    let using = released(v.using, tid);
    if count <= 0 && v.wait_queue.len() > 0 {
        let w = v.wait_queue[0];
        (
            SemaphoreState {
                count,
                using: using.insert(w, (held(using, w) + 1) as isize),
                wait_queue: v.wait_queue.drop_first(),
                ..v
            },
            Some(w),
        )
    } else {
        (SemaphoreState { count, using, ..v }, None)
    }
}

/// The semaphore after task `tid` asks for a unit, and whether it has to
/// block.
pub open spec fn sem_down(v: SemaphoreState, tid: usize) -> (SemaphoreState, bool) {
    let count = (v.count - 1) as isize;
    if count < 0 {
        (SemaphoreState { count, wait_queue: v.wait_queue.push(tid), ..v }, true)
    } else {
        (
            SemaphoreState {
                count,
                using: v.using.insert(tid, (held(v.using, tid) + 1) as isize),
                ..v
            },
            false,
        )
    }
}

/// Every recorded holding is at least one unit, and exactly as many tasks
/// wait as the counter is below zero.
pub open spec fn sem_wf(v: SemaphoreState) -> bool {
    &&& forall|t: usize| #[trigger] v.using.contains_key(t) ==> v.using[t] >= 1
    &&& v.wait_queue.len() == if v.count < 0 {
        -v.count
    } else {
        0
    }
}

/// semaphore structure
pub struct Semaphore {
    /// semaphore inner
    pub inner: SemaphoreInner,
}

/// State of the semaphore
pub struct SemaphoreInner {
    pub count: isize,
    pub using: BTreeMap<usize, isize>,
    pub total: isize,
    pub wait_queue: VecDeque<usize>,
}

impl View for Semaphore {
    type V = SemaphoreState;

    open spec fn view(&self) -> SemaphoreState {
        SemaphoreState {
            count: self.inner.count,
            using: self.inner.using@,
            total: self.inner.total,
            wait_queue: self.inner.wait_queue@,
        }
    }
}

impl Semaphore {
    /// Create a new semaphore
    pub fn new(res_count: usize) -> (r: Self)
        ensures
            r@ == (SemaphoreState {
                count: res_count as isize,
                using: Map::empty(),
                total: res_count as isize,
                wait_queue: Seq::empty(),
            }),
    {
        Self {
            inner: SemaphoreInner {
                count: res_count as isize,
                wait_queue: VecDeque::new(),
                using: BTreeMap::new(),
                total: res_count as isize,
            },
        }
    }

    /// up operation of semaphore, by task `curr_tid`: its unit goes back,
    /// to the oldest waiter if there is one, who is then to be woken
    pub fn up(&mut self, curr_tid: usize) -> (wake: Option<usize>)
        requires
            can_up(old(self)@, curr_tid),
        ensures
            (final(self)@, wake) == sem_up(old(self)@, curr_tid),
    {
        self.inner.count = self.inner.count + 1;
        let mine: Option<isize> = match self.inner.using.get(&curr_tid) {
            Some(h) => Some(*h),
            None => None,
        };
        match mine {
            Some(h) => {
                let left = h - 1;
                if left == 0 {
                    self.inner.using.remove(&curr_tid);
                } else {
                    self.inner.using.insert(curr_tid, left);
                }
            },
            None => {},
        }
        assert(self.inner.using@ == released(old(self)@.using, curr_tid));
        if self.inner.count <= 0 {
            let wake = self.inner.wait_queue.pop_front();
            match wake {
                Some(w) => {
                    let h: isize = match self.inner.using.get(&w) {
                        Some(v) => *v,
                        None => 0,
                    };
                    self.inner.using.insert(w, h + 1);
                    assert(self.inner.wait_queue@ =~= old(self)@.wait_queue.drop_first());
                },
                None => {},
            }
            wake
        } else {
            None
        }
    }

    /// down operation of semaphore, by task `curr_tid`; `true` when the
    /// caller has to block
    pub fn down(&mut self, curr_tid: usize) -> (must_block: bool)
        requires
            can_down(old(self)@, curr_tid),
        ensures
            (final(self)@, must_block) == sem_down(old(self)@, curr_tid),
    {
        self.inner.count = self.inner.count - 1;
        if self.inner.count < 0 {
            self.inner.wait_queue.push_back(curr_tid);
            true
        } else {
            let held: isize = match self.inner.using.get(&curr_tid) {
                Some(v) => *v,
                None => 0,
            };
            self.inner.using.insert(curr_tid, held + 1);
            false
        }
    }
}

impl SyncResource for Semaphore {
    open spec fn spec_available(v: SemaphoreState) -> int {
        if v.count > 0 {
            v.count as int
        } else {
            0
        }
    }

    open spec fn spec_allocation(v: SemaphoreState, tid: usize) -> int {
        held(v.using, tid)
    }

    open spec fn spec_need(v: SemaphoreState, tid: usize) -> int {
        count_tid(v.wait_queue, tid)
    }

    open spec fn need_fits(v: SemaphoreState, tid: usize) -> bool {
        count_tid(v.wait_queue, tid) <= isize::MAX
    }

    open spec fn spec_mark(v: SemaphoreState, tid: usize) -> SemaphoreState {
        SemaphoreState { wait_queue: v.wait_queue.push(tid), ..v }
    }

    open spec fn spec_unmark(v: SemaphoreState) -> SemaphoreState {
        if v.wait_queue.len() > 0 {
            SemaphoreState { wait_queue: v.wait_queue.drop_last(), ..v }
        } else {
            v
        }
    }

    proof fn lemma_mark(v: SemaphoreState, tid: usize) {
        assert(v.wait_queue.push(tid).drop_last() =~= v.wait_queue);
        assert forall|t: usize|
            #[trigger] Self::spec_need(Self::spec_mark(v, tid), t) == Self::spec_need(v, t)
                + if t == tid {
                1int
            } else {
                0int
            } by {
            lemma_count_tid_push(v.wait_queue, tid, t);
        }
    }

    fn get_available(&self) -> (r: isize) {
        if self.inner.count > 0 {
            self.inner.count
        } else {
            0
        }
    }

    fn get_allocation(&self, tid: usize) -> (r: isize) {
        match self.inner.using.get(&tid) {
            Some(v) => *v,
            None => 0,
        }
    }

    fn get_need(&self, tid: usize) -> (r: isize) {
        count_in_queue(&self.inner.wait_queue, tid)
    }

    fn mark_need(&mut self, curr_tid: usize) {
        self.inner.wait_queue.push_back(curr_tid);
    }

    fn unmark_need(&mut self) {
        self.inner.wait_queue.pop_back();
        assert(self@ == Self::spec_unmark(old(self)@));
    }
}

/// `up` and `down` keep the semaphore well formed; in particular `up` never
/// leaves a waiter behind while the counter says one should run.
pub proof fn lemma_sem_wf_preserved(v: SemaphoreState, tid: usize)
    requires
        sem_wf(v),
    ensures
        can_up(v, tid) ==> sem_wf(sem_up(v, tid).0),
        can_down(v, tid) ==> sem_wf(sem_down(v, tid).0),
{
    if can_down(v, tid) {
        let w = sem_down(v, tid).0;
        assert forall|t: usize| #[trigger] w.using.contains_key(t) implies w.using[t] >= 1 by {
            if t != tid {
                assert(v.using.contains_key(t));
            }
        }
    }
}

/// A new semaphore with no more units than an `isize` holds is well formed.
pub proof fn lemma_sem_new_wf(res_count: usize)
    requires
        res_count <= isize::MAX,
    ensures
        sem_wf(
            SemaphoreState {
                count: res_count as isize,
                using: Map::empty(),
                total: res_count as isize,
                wait_queue: Seq::empty(),
            },
        ),
{
}

/// With waiters queued, `up` always wakes the oldest one.
pub proof fn lemma_sem_up_wakes(v: SemaphoreState, tid: usize)
    requires
        sem_wf(v),
        v.count < 0,
    ensures
        sem_up(v, tid).1 == Some(v.wait_queue[0]),
{
}

/// When `up` wakes a waiter, the unit passes from the task returning it to
/// the woken task.
pub proof fn lemma_sem_up_hands_over(v: SemaphoreState, tid: usize)
    requires
        sem_wf(v),
        v.count < 0,
        v.wait_queue[0] != tid,
        held(v.using, tid) >= 1,
        can_up(v, tid),
    ensures
        held(sem_up(v, tid).0.using, v.wait_queue[0]) == held(v.using, v.wait_queue[0]) + 1,
        held(sem_up(v, tid).0.using, tid) == held(v.using, tid) - 1,
{
}

/// A `down` that gets a unit at once, followed by an `up` of the same task,
/// leaves the semaphore as it was.
pub proof fn lemma_sem_down_up(v: SemaphoreState, tid: usize)
    requires
        sem_wf(v),
        v.count > 0,
        can_down(v, tid),
    ensures
        !sem_down(v, tid).1,
        can_up(sem_down(v, tid).0, tid),
        sem_up(sem_down(v, tid).0, tid) == (v, None::<usize>),
{
    let w = sem_down(v, tid).0;
    let u = sem_up(w, tid).0;
    if v.using.contains_key(tid) {
        assert(u.using =~= v.using);
    } else {
        assert(u.using =~= v.using);
    }
}

/// detect deadlock: whether task `curr_tid` waiting on semaphore `sem_id`
/// of `semaphore_list` would leave the tasks in `tasks` (by id, `None` for
/// a slot without one) deadlocked. The semaphores are left as they were.
pub fn have_deadlock_semaphore(
    semaphore_list: &mut Vec<Option<Semaphore>>,
    tasks: &Vec<Option<usize>>,
    sem_id: usize,
    curr_tid: usize,
) -> (deadlock: bool)
    requires
        sem_id < old(semaphore_list).len(),
        old(semaphore_list)[sem_id as int] is Some,
        needs_fit::<Semaphore>(
            marked::<Semaphore>(res_views(old(semaphore_list)@), sem_id as int, curr_tid),
            tasks@),
        fits_marked::<Semaphore>(res_views(old(semaphore_list)@), tasks@, sem_id as int, curr_tid),
    ensures
        res_views(final(semaphore_list)@) == res_views(old(semaphore_list)@),
        deadlock == !resource_claims::<Semaphore>(
            marked::<Semaphore>(res_views(old(semaphore_list)@), sem_id as int, curr_tid),
            tasks@).greedy_completes(),
        (forall|k: int|
            0 <= k < old(semaphore_list).len() && #[trigger] old(semaphore_list)[k] is Some
                ==> sem_wf(old(semaphore_list)[k]->0@)) ==> (deadlock <==> !resource_claims::<Semaphore>(
            marked::<Semaphore>(res_views(old(semaphore_list)@), sem_id as int, curr_tid),
            tasks@).safe()),
{
    let ghost vs = marked::<Semaphore>(res_views(semaphore_list@), sem_id as int, curr_tid);
    proof {
        if forall|k: int|
            0 <= k < semaphore_list.len() && #[trigger] semaphore_list[k] is Some ==> sem_wf(
                semaphore_list[k]->0@,
            ) {
            assert forall|k: int, t: usize| 0 <= k < vs.len() && vs[k] is Some implies #[trigger] Semaphore::spec_allocation(
                vs[k]->0,
                t,
            ) >= 0 by {
                assert(semaphore_list[k] is Some);
                let v = semaphore_list[k]->0@;
                assert(sem_wf(v));
                if v.using.contains_key(t) {
                    assert(v.using[t] >= 1);
                }
            }
            lemma_claims_nonneg::<Semaphore>(vs, tasks@);
        }
    }
    resource_deadlock(semaphore_list, tasks, sem_id, curr_tid)
}

/// The free units a semaphore reports to deadlock detection are never
/// negative: the counter while it is positive, and none otherwise. The
/// units a task holds are its recorded holding, and the units it waits for
/// are the number of times it waits in the queue.
pub proof fn lemma_sem_reports(v: SemaphoreState, tid: usize)
    ensures
        Semaphore::spec_available(v) >= 0,
        v.count > 0 ==> Semaphore::spec_available(v) == v.count,
        v.count <= 0 ==> Semaphore::spec_available(v) == 0,
        v.using.contains_key(tid) ==> Semaphore::spec_allocation(v, tid) == v.using[tid],
        !v.using.contains_key(tid) ==> Semaphore::spec_allocation(v, tid) == 0,
        Semaphore::spec_need(v, tid) == count_tid(v.wait_queue, tid),
{
}

/// What `down` does: the counter drops by one; the caller blocks exactly
/// when it goes below zero, and is then queued last; otherwise the caller
/// holds one more unit and nothing else changes.
pub proof fn lemma_sem_down_law(v: SemaphoreState, tid: usize)
    requires
        can_down(v, tid),
    ensures
        sem_down(v, tid).0.count == v.count - 1,
        sem_down(v, tid).0.total == v.total,
        sem_down(v, tid).1 <==> v.count - 1 < 0,
        sem_down(v, tid).1 ==> sem_down(v, tid).0.wait_queue == v.wait_queue.push(tid)
            && sem_down(v, tid).0.using == v.using,
        !sem_down(v, tid).1 ==> sem_down(v, tid).0.wait_queue == v.wait_queue && held(
            sem_down(v, tid).0.using,
            tid,
        ) == held(v.using, tid) + 1 && forall|t: usize|
            t != tid ==> #[trigger] held(sem_down(v, tid).0.using, t) == held(v.using, t),
{
}

/// What `up` does: the counter rises by one; the oldest waiter is woken
/// exactly when the counter is still not positive and someone waits; the
/// caller's holding drops by one, and the woken task's rises by one.
pub proof fn lemma_sem_up_law(v: SemaphoreState, tid: usize)
    requires
        can_up(v, tid),
    ensures
        sem_up(v, tid).0.count == v.count + 1,
        sem_up(v, tid).0.total == v.total,
        sem_up(v, tid).1 is Some <==> v.count + 1 <= 0 && v.wait_queue.len() > 0,
        sem_up(v, tid).1 is Some ==> sem_up(v, tid).1 == Some(v.wait_queue[0])
            && sem_up(v, tid).0.wait_queue == v.wait_queue.drop_first(),
        sem_up(v, tid).1 is None ==> sem_up(v, tid).0.wait_queue == v.wait_queue,
        forall|t: usize|
            #[trigger] held(sem_up(v, tid).0.using, t) == held(v.using, t) - (if t == tid
                && v.using.contains_key(tid) {
                1int
            } else {
                0int
            }) + (if sem_up(v, tid).1 == Some(t) {
                1int
            } else {
                0int
            }),
{
}

} // verus!
