//! Mutex (spin-like and blocking(sleep))
//!
//! Both kinds record which task holds the lock and which tasks wait for it,
//! so that deadlock detection can read them. Neither sleeps or yields
//! itself: `lock` reports whether the lock was taken, and the caller spins
//! (`MutexSpin::try_acquire` again after yielding) or blocks; `unlock`
//! names the task to wake, if any.

use vstd::prelude::*;
use std::collections::VecDeque;
use crate::sync::{
    SyncResource, resource_deadlock, res_views, marked, needs_fit, resource_claims, fits_marked, lemma_claims_nonneg, count_tid, count_in_queue, remove_tid, lemma_count_tid_push, without_tid,
    lemma_without_absent, lemma_without_push,
};

verus! {

/// The observable state of a mutex: whether it is locked, which task it
/// records as the current one, and the tasks queued as waiting, oldest
/// first.
pub struct MutexState {
    pub locked: bool,
    pub curr_task: Option<usize>,
    pub wait_queue: Seq<usize>,
}

/// Mutex trait
pub trait Mutex: SyncResource {
    /// The mutex is held.
    spec fn spec_locked(v: Self::V) -> bool;

    /// `unlock` may be called in this state.
    spec fn can_unlock(v: Self::V) -> bool;

    /// The mutex after task `tid` asks for it, and whether it got it.
    spec fn spec_lock(v: Self::V, tid: usize) -> (Self::V, bool);

    /// The mutex after task `tid` releases it, and the task to wake.
    spec fn spec_unlock(v: Self::V, tid: usize) -> (Self::V, Option<usize>);

    /// A mutex is held by at most one task, once: no holding is negative;
    /// a task that gets the lock found it free and leaves it held.
    proof fn lemma_mutex_laws(v: Self::V, tid: usize)
        ensures
            Self::spec_allocation(v, tid) >= 0,
            Self::spec_lock(v, tid).1 ==> !Self::spec_locked(v),
            Self::spec_locked(Self::spec_lock(v, tid).0),
    ;

    /// Lock the mutex on behalf of task `curr_tid`; `true` when the lock
    /// was taken at once, `false` when the caller has to wait for it.
    fn lock(&mut self, curr_tid: usize) -> (acquired: bool)
        ensures
            (final(self)@, acquired) == Self::spec_lock(old(self)@, curr_tid),
    ;

    /// Unlock the mutex on behalf of task `curr_tid`; the task to wake, if
    /// any.
    fn unlock(&mut self, curr_tid: usize) -> (wake: Option<usize>)
        requires
            Self::can_unlock(old(self)@),
        ensures
            (final(self)@, wake) == Self::spec_unlock(old(self)@, curr_tid),
    ;
}

/// The spin mutex after queueing `tid` and attempting to take the lock
/// once; and whether it was taken.
pub open spec fn spin_try(v: MutexState, tid: usize) -> (MutexState, bool) {
    if v.locked {
        (v, false)
    } else {
        (MutexState { locked: true, curr_task: Some(tid), wait_queue: without_tid(v.wait_queue, tid) }, true)
    }
}

/// The spin mutex once task `tid` releases it.
pub open spec fn spin_unlocked(v: MutexState, tid: usize) -> MutexState {
    MutexState { locked: false, curr_task: None, wait_queue: without_tid(v.wait_queue, tid) }
}

/// The mutex with task `tid` queued as waiting.
pub open spec fn queued(v: MutexState, tid: usize) -> MutexState {
    MutexState { wait_queue: v.wait_queue.push(tid), ..v }
}

/// The mutex with its last queued waiter withdrawn.
pub open spec fn dequeued_last(v: MutexState) -> MutexState {
    if v.wait_queue.len() > 0 {
        MutexState { wait_queue: v.wait_queue.drop_last(), ..v }
    } else {
        v
    }
}

/// Free units of a mutex: one while it is not held.
pub open spec fn mutex_available(v: MutexState) -> int {
    if v.locked {
        0
    } else {
        1
    }
}

/// Units of a mutex held by task `tid`: one when it is the recorded holder.
pub open spec fn mutex_allocation(v: MutexState, tid: usize) -> int {
    if v.curr_task == Some(tid) {
        1
    } else {
        0
    }
}

/// Spinlock Mutex struct
pub struct MutexSpin {
    locked: bool,
    inner: MutexSpinInner,
}

/// Bookkeeping of the spin mutex for deadlock detection
pub struct MutexSpinInner {
    curr_task: Option<usize>,
    wait_queue: VecDeque<usize>,
}

impl View for MutexSpin {
    type V = MutexState;

    closed spec fn view(&self) -> MutexState {
        MutexState {
            locked: self.locked,
            curr_task: self.inner.curr_task,
            wait_queue: self.inner.wait_queue@,
        }
    }
}

impl MutexSpin {
    /// Create a new spinlock mutex
    pub fn new() -> (r: Self)
        ensures
            r@ == (MutexState { locked: false, curr_task: None, wait_queue: Seq::empty() }),
    {
        Self { locked: false, inner: MutexSpinInner { curr_task: None, wait_queue: VecDeque::new() } }
    }

    /// One attempt of a task that already waits for the lock: take it if it
    /// is free.
    pub fn try_acquire(&mut self, curr_tid: usize) -> (acquired: bool)
        ensures
            (final(self)@, acquired) == spin_try(old(self)@, curr_tid),
    {
        if self.locked {
            false
        } else {
            self.locked = true;
            self.inner.curr_task = Some(curr_tid);
            remove_tid(&mut self.inner.wait_queue, curr_tid);
            true
        }
    }
}

impl Mutex for MutexSpin {
    open spec fn spec_locked(v: MutexState) -> bool {
        v.locked
    }

    open spec fn can_unlock(v: MutexState) -> bool {
        true
    }

    /// Queue the task, then take the lock if it is free.
    open spec fn spec_lock(v: MutexState, tid: usize) -> (MutexState, bool) {
        spin_try(queued(v, tid), tid)
    }

    open spec fn spec_unlock(v: MutexState, tid: usize) -> (MutexState, Option<usize>) {
        (spin_unlocked(v, tid), None)
    }

    proof fn lemma_mutex_laws(v: MutexState, tid: usize) {
    }

    /// Lock the spinlock mutex
    fn lock(&mut self, curr_tid: usize) -> (acquired: bool) {
        self.inner.wait_queue.push_back(curr_tid);
        self.try_acquire(curr_tid)
    }

    fn unlock(&mut self, curr_tid: usize) -> (wake: Option<usize>) {
        self.locked = false;
        self.inner.curr_task = None;
        remove_tid(&mut self.inner.wait_queue, curr_tid);
        None
    }
}

impl SyncResource for MutexSpin {
    open spec fn spec_available(v: MutexState) -> int {
        mutex_available(v)
    }

    open spec fn spec_allocation(v: MutexState, tid: usize) -> int {
        mutex_allocation(v, tid)
    }

    open spec fn spec_need(v: MutexState, tid: usize) -> int {
        count_tid(v.wait_queue, tid)
    }

    open spec fn need_fits(v: MutexState, tid: usize) -> bool {
        count_tid(v.wait_queue, tid) <= isize::MAX
    }

    open spec fn spec_mark(v: MutexState, tid: usize) -> MutexState {
        queued(v, tid)
    }

    open spec fn spec_unmark(v: MutexState) -> MutexState {
        dequeued_last(v)
    }

    proof fn lemma_mark(v: MutexState, tid: usize) {
        assert(v.wait_queue.push(tid).drop_last() =~= v.wait_queue);
        assert forall|t: usize|
            #[trigger] Self::spec_need(Self::spec_mark(v, tid), t) == Self::spec_need(v, t)
                + if t == tid {
                1int
            } else {
                0int
            } by {
            lemma_count_tid_push(v.wait_queue, tid, t);
        }
    }

    fn get_available(&self) -> (r: isize) {
        if self.locked {
            0
        } else {
            1
        }
    }

    fn get_allocation(&self, tid: usize) -> (r: isize) {
        if self.inner.curr_task == Some(tid) {
            1
        } else {
            0
        }
    }

    fn get_need(&self, tid: usize) -> (r: isize) {
        count_in_queue(&self.inner.wait_queue, tid)
    }

    fn mark_need(&mut self, curr_tid: usize) {
        self.inner.wait_queue.push_back(curr_tid);
    }

    fn unmark_need(&mut self) {
        self.inner.wait_queue.pop_back();
        assert(self@ == dequeued_last(old(self)@));
    }
}

/// The blocking mutex after task `tid` asks for it; and whether it got it.
/// A task that finds it free becomes its holder; otherwise the task is
/// queued and the holder stays.
pub open spec fn blocking_lock(v: MutexState, tid: usize) -> (MutexState, bool) {
    if v.locked {
        (MutexState { wait_queue: v.wait_queue.push(tid), ..v }, false)
    } else {
        (MutexState { locked: true, curr_task: Some(tid), ..v }, true)
    }
}

/// The blocking mutex once its holder releases it, and the waiter it is
/// handed to, if any; that waiter becomes the holder.
pub open spec fn blocking_unlock(v: MutexState) -> (MutexState, Option<usize>) {
    if v.wait_queue.len() > 0 {
        (
            MutexState {
                locked: true,
                curr_task: Some(v.wait_queue[0]),
                wait_queue: v.wait_queue.drop_first(),
            },
            Some(v.wait_queue[0]),
        )
    } else {
        (MutexState { locked: false, curr_task: None, wait_queue: v.wait_queue }, None)
    }
}

/// Blocking Mutex struct
pub struct MutexBlocking {
    inner: MutexBlockingInner,
}

/// State of the blocking mutex
pub struct MutexBlockingInner {
    locked: bool,
    curr_task: Option<usize>,
    wait_queue: VecDeque<usize>,
}

impl View for MutexBlocking {
    type V = MutexState;

    closed spec fn view(&self) -> MutexState {
        MutexState {
            locked: self.inner.locked,
            curr_task: self.inner.curr_task,
            wait_queue: self.inner.wait_queue@,
        }
    }
}

impl MutexBlocking {
    /// Create a new blocking mutex
    pub fn new() -> (r: Self)
        ensures
            r@ == (MutexState { locked: false, curr_task: None, wait_queue: Seq::empty() }),
    {
        Self {
            inner: MutexBlockingInner { locked: false, curr_task: None, wait_queue: VecDeque::new() },
        }
    }
}

impl Mutex for MutexBlocking {
    open spec fn spec_locked(v: MutexState) -> bool {
        v.locked
    }

    open spec fn can_unlock(v: MutexState) -> bool {
        v.locked
    }

    open spec fn spec_lock(v: MutexState, tid: usize) -> (MutexState, bool) {
        blocking_lock(v, tid)
    }

    open spec fn spec_unlock(v: MutexState, tid: usize) -> (MutexState, Option<usize>) {
        blocking_unlock(v)
    }

    proof fn lemma_mutex_laws(v: MutexState, tid: usize) {
    }

    /// lock the blocking mutex
    fn lock(&mut self, curr_tid: usize) -> (acquired: bool) {
        if self.inner.locked {
            self.inner.wait_queue.push_back(curr_tid);
            false
        } else {
            self.inner.locked = true;
            self.inner.curr_task = Some(curr_tid);
            true
        }
    }

    /// unlock the blocking mutex
    fn unlock(&mut self, curr_tid: usize) -> (wake: Option<usize>) {
        let wake = self.inner.wait_queue.pop_front();
        match wake {
            Some(next) => {
                self.inner.curr_task = Some(next);
            },
            None => {
                self.inner.locked = false;
                self.inner.curr_task = None;
            },
        }
        proof {
            if old(self)@.wait_queue.len() > 0 {
                assert(self.inner.wait_queue@ =~= old(self)@.wait_queue.drop_first());
            }
        }
        wake
    }
}

impl SyncResource for MutexBlocking {
    open spec fn spec_available(v: MutexState) -> int {
        mutex_available(v)
    }

    open spec fn spec_allocation(v: MutexState, tid: usize) -> int {
        mutex_allocation(v, tid)
    }

    open spec fn spec_need(v: MutexState, tid: usize) -> int {
        count_tid(v.wait_queue, tid)
    }

    open spec fn need_fits(v: MutexState, tid: usize) -> bool {
        count_tid(v.wait_queue, tid) <= isize::MAX
    }

    open spec fn spec_mark(v: MutexState, tid: usize) -> MutexState {
        queued(v, tid)
    }

    open spec fn spec_unmark(v: MutexState) -> MutexState {
        dequeued_last(v)
    }

    proof fn lemma_mark(v: MutexState, tid: usize) {
        assert(v.wait_queue.push(tid).drop_last() =~= v.wait_queue);
        assert forall|t: usize|
            #[trigger] Self::spec_need(Self::spec_mark(v, tid), t) == Self::spec_need(v, t)
                + if t == tid {
                1int
            } else {
                0int
            } by {
            lemma_count_tid_push(v.wait_queue, tid, t);
        }
    }

    fn get_available(&self) -> (r: isize) {
        if self.inner.locked {
            0
        } else {
            1
        }
    }

    fn get_allocation(&self, tid: usize) -> (r: isize) {
        if self.inner.curr_task == Some(tid) {
            1
        } else {
            0
        }
    }

    fn get_need(&self, tid: usize) -> (r: isize) {
        count_in_queue(&self.inner.wait_queue, tid)
    }

    fn mark_need(&mut self, curr_tid: usize) {
        self.inner.wait_queue.push_back(curr_tid);
    }

    fn unmark_need(&mut self) {
        self.inner.wait_queue.pop_back();
        assert(self@ == dequeued_last(old(self)@));
    }
}

/// Taking a free blocking mutex that records no holder, and giving it back,
/// leaves it as it was; while held, its taker is the recorded holder.
pub proof fn lemma_blocking_lock_unlock(v: MutexState, tid: usize)
    requires
        !v.locked,
        v.curr_task is None,
        v.wait_queue.len() == 0,
    ensures
        blocking_lock(v, tid).1,
        mutex_allocation(blocking_lock(v, tid).0, tid) == 1,
        blocking_unlock(blocking_lock(v, tid).0) == (v, None::<usize>),
{
}

/// A blocking mutex is well formed when it records a holder exactly while
/// it is held, and has waiters only while it is held.
pub open spec fn blocking_wf(v: MutexState) -> bool {
    &&& v.locked <==> v.curr_task is Some
    &&& !v.locked ==> v.wait_queue.len() == 0
}

/// Locking and unlocking keep a blocking mutex well formed: a task only
/// waits for a held mutex, and unlocking hands the mutex on, with its
/// holder record, while anyone waits.
pub proof fn lemma_blocking_wf_preserved(v: MutexState, tid: usize)
    requires
        blocking_wf(v),
    ensures
        blocking_wf(blocking_lock(v, tid).0),
        v.locked ==> blocking_wf(blocking_unlock(v).0),
{
}

/// Taking a free spin mutex that records no current task and that `tid`
/// does not wait for, then giving it back, leaves it as it was.
pub proof fn lemma_spin_lock_unlock(v: MutexState, tid: usize)
    requires
        !v.locked,
        v.curr_task is None,
        !v.wait_queue.contains(tid),
    ensures
        spin_try(queued(v, tid), tid).1,
        spin_unlocked(spin_try(queued(v, tid), tid).0, tid) == v,
{
    lemma_without_push(v.wait_queue, tid);
    lemma_without_absent(v.wait_queue, tid);
    lemma_without_absent(without_tid(v.wait_queue, tid), tid);
}

/// Unlocking a held blocking mutex with waiters hands it to the oldest
/// waiter, who becomes the recorded holder.
pub proof fn lemma_blocking_handoff(v: MutexState)
    requires
        v.locked,
        v.wait_queue.len() > 0,
    ensures
        blocking_unlock(v).0.locked,
        blocking_unlock(v).1 == Some(v.wait_queue[0]),
        mutex_allocation(blocking_unlock(v).0, v.wait_queue[0]) == 1,
{
}

/// Either kind of mutex, so that one list can hold both.
pub enum AnyMutex {
    Spin(MutexSpin),
    Blocking(MutexBlocking),
}

impl View for AnyMutex {
    /// Whether it is a spin mutex, and its state.
    type V = (bool, MutexState);

    open spec fn view(&self) -> (bool, MutexState) {
        match self {
            AnyMutex::Spin(m) => (true, m@),
            AnyMutex::Blocking(m) => (false, m@),
        }
    }
}

impl Mutex for AnyMutex {
    open spec fn spec_locked(v: (bool, MutexState)) -> bool {
        v.1.locked
    }

    open spec fn can_unlock(v: (bool, MutexState)) -> bool {
        v.0 || v.1.locked
    }

    open spec fn spec_lock(v: (bool, MutexState), tid: usize) -> ((bool, MutexState), bool) {
        if v.0 {
            ((true, MutexSpin::spec_lock(v.1, tid).0), MutexSpin::spec_lock(v.1, tid).1)
        } else {
            ((false, MutexBlocking::spec_lock(v.1, tid).0), MutexBlocking::spec_lock(v.1, tid).1)
        }
    }

    open spec fn spec_unlock(v: (bool, MutexState), tid: usize) -> ((bool, MutexState), Option<usize>) {
        if v.0 {
            ((true, MutexSpin::spec_unlock(v.1, tid).0), MutexSpin::spec_unlock(v.1, tid).1)
        } else {
            ((false, MutexBlocking::spec_unlock(v.1, tid).0), MutexBlocking::spec_unlock(v.1, tid).1)
        }
    }

    proof fn lemma_mutex_laws(v: (bool, MutexState), tid: usize) {
    }

    fn lock(&mut self, curr_tid: usize) -> (acquired: bool) {
        match self {
            AnyMutex::Spin(m) => m.lock(curr_tid),
            AnyMutex::Blocking(m) => m.lock(curr_tid),
        }
    }

    fn unlock(&mut self, curr_tid: usize) -> (wake: Option<usize>) {
        match self {
            AnyMutex::Spin(m) => m.unlock(curr_tid),
            AnyMutex::Blocking(m) => m.unlock(curr_tid),
        }
    }
}

impl SyncResource for AnyMutex {
    open spec fn spec_available(v: (bool, MutexState)) -> int {
        mutex_available(v.1)
    }

    open spec fn spec_allocation(v: (bool, MutexState), tid: usize) -> int {
        mutex_allocation(v.1, tid)
    }

    open spec fn spec_need(v: (bool, MutexState), tid: usize) -> int {
        count_tid(v.1.wait_queue, tid)
    }

    open spec fn need_fits(v: (bool, MutexState), tid: usize) -> bool {
        count_tid(v.1.wait_queue, tid) <= isize::MAX
    }

    open spec fn spec_mark(v: (bool, MutexState), tid: usize) -> (bool, MutexState) {
        (v.0, queued(v.1, tid))
    }

    open spec fn spec_unmark(v: (bool, MutexState)) -> (bool, MutexState) {
        (v.0, dequeued_last(v.1))
    }

    proof fn lemma_mark(v: (bool, MutexState), tid: usize) {
        MutexBlocking::lemma_mark(v.1, tid);
    }

    fn get_available(&self) -> (r: isize) {
        match self {
            AnyMutex::Spin(m) => m.get_available(),
            AnyMutex::Blocking(m) => m.get_available(),
        }
    }

    fn get_allocation(&self, tid: usize) -> (r: isize) {
        match self {
            AnyMutex::Spin(m) => m.get_allocation(tid),
            AnyMutex::Blocking(m) => m.get_allocation(tid),
        }
    }

    fn get_need(&self, tid: usize) -> (r: isize) {
        match self {
            AnyMutex::Spin(m) => m.get_need(tid),
            AnyMutex::Blocking(m) => m.get_need(tid),
        }
    }

    fn mark_need(&mut self, curr_tid: usize) {
        match self {
            AnyMutex::Spin(m) => m.mark_need(curr_tid),
            AnyMutex::Blocking(m) => m.mark_need(curr_tid),
        }
    }

    fn unmark_need(&mut self) {
        match self {
            AnyMutex::Spin(m) => m.unmark_need(),
            AnyMutex::Blocking(m) => m.unmark_need(),
        }
    }
}

/// detect deadlock: whether task `curr_tid` locking mutex `mutex_id` of
/// `mutex_list` would leave the tasks in `tasks` (by id, `None` for a slot
/// without one) deadlocked. The mutexes are left as they were.
pub fn have_deadlock_mutex<M: Mutex>(
    mutex_list: &mut Vec<Option<M>>,
    tasks: &Vec<Option<usize>>,
    mutex_id: usize,
    curr_tid: usize,
) -> (deadlock: bool)
    requires
        mutex_id < old(mutex_list).len(),
        old(mutex_list)[mutex_id as int] is Some,
        needs_fit::<M>(
            marked::<M>(res_views(old(mutex_list)@), mutex_id as int, curr_tid),
            tasks@),
        fits_marked::<M>(res_views(old(mutex_list)@), tasks@, mutex_id as int, curr_tid),
    ensures
        res_views(final(mutex_list)@) == res_views(old(mutex_list)@),
        deadlock == !resource_claims::<M>(
            marked::<M>(res_views(old(mutex_list)@), mutex_id as int, curr_tid),
            tasks@).greedy_completes(),
        deadlock <==> !resource_claims::<M>(
            marked::<M>(res_views(old(mutex_list)@), mutex_id as int, curr_tid),
            tasks@).safe(),
{
    let ghost vs = marked::<M>(res_views(mutex_list@), mutex_id as int, curr_tid);
    proof {
        assert forall|k: int, t: usize| 0 <= k < vs.len() && vs[k] is Some implies #[trigger] M::spec_allocation(
            vs[k]->0,
            t,
        ) >= 0 by {
            M::lemma_mutex_laws(vs[k]->0, t);
        }
        lemma_claims_nonneg::<M>(vs, tasks@);
    }
    resource_deadlock(mutex_list, tasks, mutex_id, curr_tid)
}

/// What both kinds of mutex report to deadlock detection: one free unit
/// exactly while unlocked, one unit held by the recorded holder and none by
/// anyone else, and as many units wanted by a task as it waits in the queue.
pub proof fn lemma_mutex_reports(v: MutexState, tid: usize)
    ensures
        MutexBlocking::spec_available(v) == if v.locked {
            0int
        } else {
            1int
        },
        MutexSpin::spec_available(v) == MutexBlocking::spec_available(v),
        MutexBlocking::spec_allocation(v, tid) == if v.curr_task == Some(tid) {
            1int
        } else {
            0int
        },
        MutexSpin::spec_allocation(v, tid) == MutexBlocking::spec_allocation(v, tid),
        MutexBlocking::spec_need(v, tid) == count_tid(v.wait_queue, tid),
        MutexSpin::spec_need(v, tid) == count_tid(v.wait_queue, tid),
        AnyMutex::spec_available((true, v)) == MutexBlocking::spec_available(v),
        AnyMutex::spec_available((false, v)) == MutexBlocking::spec_available(v),
        AnyMutex::spec_allocation((true, v), tid) == MutexBlocking::spec_allocation(v, tid),
        AnyMutex::spec_allocation((false, v), tid) == MutexBlocking::spec_allocation(v, tid),
        AnyMutex::spec_need((true, v), tid) == count_tid(v.wait_queue, tid),
        AnyMutex::spec_need((false, v), tid) == count_tid(v.wait_queue, tid),
{
}

/// Waiters of a blocking mutex are served in arrival order: asking for a
/// held mutex queues the task last and leaves the holder; unlocking hands
/// the mutex to the first in the queue and keeps the rest in order; so from
/// a held mutex with no waiters, `a` then `b` asking and the holder
/// unlocking hands it to `a`, with `b` still waiting.
pub proof fn lemma_blocking_fifo(v: MutexState, a: usize, b: usize, holder: usize)
    requires
        v.locked,
    ensures
        !MutexBlocking::spec_lock(v, a).1,
        MutexBlocking::spec_lock(v, a).0.wait_queue == v.wait_queue.push(a),
        MutexBlocking::spec_lock(v, a).0.curr_task == v.curr_task,
        MutexBlocking::spec_lock(v, a).0.locked,
        v.wait_queue.len() > 0 ==> MutexBlocking::spec_unlock(v, holder).1 == Some(v.wait_queue[0])
            && MutexBlocking::spec_unlock(v, holder).0.wait_queue == v.wait_queue.drop_first()
            && MutexBlocking::spec_unlock(v, holder).0.curr_task == Some(v.wait_queue[0])
            && MutexBlocking::spec_unlock(v, holder).0.locked,
        v.wait_queue.len() == 0 ==> MutexBlocking::spec_unlock(
            MutexBlocking::spec_lock(MutexBlocking::spec_lock(v, a).0, b).0,
            holder,
        ).1 == Some(a) && MutexBlocking::spec_unlock(
            MutexBlocking::spec_lock(MutexBlocking::spec_lock(v, a).0, b).0,
            holder,
        ).0.wait_queue == seq![b],
{
    if v.wait_queue.len() == 0 {
        let w = MutexBlocking::spec_lock(MutexBlocking::spec_lock(v, a).0, b).0;
        assert(w.wait_queue =~= seq![a, b]);
        assert(w.wait_queue.drop_first() =~= seq![b]);
    }
}

/// A free blocking mutex goes to whoever asks, who becomes its holder; an
/// unlock with nobody waiting frees it and clears the holder.
pub proof fn lemma_blocking_free(v: MutexState, tid: usize, holder: usize)
    ensures
        !v.locked ==> MutexBlocking::spec_lock(v, tid).1 && MutexBlocking::spec_lock(v, tid).0
            == (MutexState { locked: true, curr_task: Some(tid), wait_queue: v.wait_queue }),
        v.wait_queue.len() == 0 ==> MutexBlocking::spec_unlock(v, holder) == (
            MutexState { locked: false, curr_task: None, wait_queue: v.wait_queue },
            None::<usize>,
        ),
{
}

/// A spin mutex queues the asking task and takes the lock exactly when it
/// was free; the taker becomes the holder and leaves the queue.
pub proof fn lemma_spin_lock_law(v: MutexState, tid: usize)
    ensures
        MutexSpin::spec_lock(v, tid).1 <==> !v.locked,
        v.locked ==> MutexSpin::spec_lock(v, tid).0 == queued(v, tid)
            && MutexSpin::spec_lock(v, tid).0.wait_queue == v.wait_queue.push(tid),
        !v.locked ==> MutexSpin::spec_lock(v, tid).0.locked && MutexSpin::spec_lock(v, tid).0.curr_task
            == Some(tid) && !MutexSpin::spec_lock(v, tid).0.wait_queue.contains(tid),
        !v.locked ==> MutexSpin::spec_lock(v, tid).0.wait_queue == without_tid(v.wait_queue, tid),
        MutexSpin::spec_unlock(v, tid).1 is None,
        !MutexSpin::spec_unlock(v, tid).0.locked,
        MutexSpin::spec_unlock(v, tid).0.curr_task is None,
        MutexSpin::spec_unlock(v, tid).0.wait_queue == without_tid(v.wait_queue, tid),
{
    lemma_without_push(v.wait_queue, tid);
    let q = v.wait_queue.push(tid);
    if without_tid(q, tid).contains(tid) {
        let i = choose|i: int| 0 <= i < without_tid(q, tid).len() && without_tid(q, tid)[i] == tid;
        q.lemma_filter_pred(|t: usize| t != tid, i);
    }
}

} // verus!
