//! What deadlock detection asks of a synchronization resource, and the
//! queue helpers the resources share.

use vstd::prelude::*;
use std::collections::VecDeque;
use crate::deadlock::{Claims, claims_of, have_deadlock, ints, int_rows};

verus! {

/// How many times `tid` occurs in `s`.
pub open spec fn count_tid(s: Seq<usize>, tid: usize) -> int
    decreases s.len(),
{
    if s.len() == 0 {
        0
    } else {
        count_tid(s.drop_last(), tid) + if s.last() == tid {
            1int
        } else {
            0int
        }
    }
}

/// A prefix holds no more occurrences than the whole sequence.
pub proof fn lemma_count_tid_prefix(s: Seq<usize>, tid: usize, k: int)
    requires
        0 <= k <= s.len(),
    ensures
        0 <= count_tid(s.take(k), tid) <= count_tid(s, tid),
    decreases s.len(),
{
    if k == s.len() {
        assert(s.take(k) =~= s);
        lemma_count_tid_nonneg(s, tid);
    } else {
        assert(s.take(k) =~= s.drop_last().take(k));
        lemma_count_tid_prefix(s.drop_last(), tid, k);
    }
}

/// Occurrence counts are never negative.
pub proof fn lemma_count_tid_nonneg(s: Seq<usize>, tid: usize)
    ensures
        count_tid(s, tid) >= 0,
    decreases s.len(),
{
    if s.len() > 0 {
        lemma_count_tid_nonneg(s.drop_last(), tid);
    }
}

/// The empty queue holds no occurrence of anything.
pub proof fn lemma_count_tid_empty(tid: usize)
    ensures
        count_tid(Seq::empty(), tid) == 0,
{
}

/// Appending `x` adds one occurrence of `x` and none of anything else.
pub proof fn lemma_count_tid_push(s: Seq<usize>, x: usize, tid: usize)
    ensures
        count_tid(s.push(x), tid) == count_tid(s, tid) + if x == tid {
            1int
        } else {
            0int
        },
{
    assert(s.push(x).drop_last() =~= s);
}

/// Number of times `tid` waits in `queue`.
pub fn count_in_queue(queue: &VecDeque<usize>, tid: usize) -> (r: isize)
    requires
        count_tid(queue@, tid) <= isize::MAX,
    ensures
        r == count_tid(queue@, tid),
{
    let mut acc: isize = 0;
    let mut k: usize = 0;
    while k < queue.len()
        invariant
            k <= queue@.len(),
            count_tid(queue@, tid) <= isize::MAX,
            acc == count_tid(queue@.take(k as int), tid),
        decreases queue@.len() - k,
    {
        proof {
            assert(queue@.take(k + 1).drop_last() =~= queue@.take(k as int));
            lemma_count_tid_prefix(queue@, tid, k + 1);
        }
        if queue[k] == tid {
            acc = acc + 1;
        }
        k += 1;
    }
    assert(queue@.take(k as int) =~= queue@);
    acc
}

/// `queue` without any occurrence of `tid`.
pub open spec fn without_tid(queue: Seq<usize>, tid: usize) -> Seq<usize> {
    queue.filter(|t: usize| t != tid)
}

/// A queue in which `tid` does not occur loses nothing when `tid` is removed.
pub proof fn lemma_without_absent(queue: Seq<usize>, tid: usize)
    requires
        !queue.contains(tid),
    ensures
        without_tid(queue, tid) == queue,
    decreases queue.len(),
{
    reveal(Seq::filter);
    if queue.len() > 0 {
        assert(!queue.drop_last().contains(tid)) by {
            if queue.drop_last().contains(tid) {
                let k = choose|k: int| 0 <= k < queue.drop_last().len() && queue.drop_last()[k] == tid;
                assert(queue[k] == tid);
            }
        }
        lemma_without_absent(queue.drop_last(), tid);
        assert(queue.last() != tid) by {
            assert(queue[queue.len() - 1] == queue.last());
        }
        assert(queue.drop_last().push(queue.last()) =~= queue);
    }
}

/// Removing `tid` from a queue that ends with `tid` is removing it from
/// the rest.
pub proof fn lemma_without_push(queue: Seq<usize>, tid: usize)
    ensures
        without_tid(queue.push(tid), tid) == without_tid(queue, tid),
{
    reveal(Seq::filter);
    assert(queue.push(tid).drop_last() =~= queue);
}

/// Removing `tid` from a queue leaves no occurrence of it, keeps every
/// other task, and keeps each one as often as it was there.
pub proof fn lemma_without_tid(queue: Seq<usize>, tid: usize, i: int, t: usize)
    requires
        0 <= i < queue.len(),
    ensures
        !without_tid(queue, tid).contains(tid),
        queue[i] != tid ==> without_tid(queue, tid).contains(queue[i]),
        t != tid ==> count_tid(without_tid(queue, tid), t) == count_tid(queue, t),
        count_tid(without_tid(queue, tid), tid) == 0,
{
    if without_tid(queue, tid).contains(tid) {
        let j = choose|j: int|
            0 <= j < without_tid(queue, tid).len() && without_tid(queue, tid)[j] == tid;
        queue.lemma_filter_pred(|x: usize| x != tid, j);
    }
    if queue[i] != tid {
        queue.lemma_filter_contains(|x: usize| x != tid, i);
    }
    lemma_without_counts(queue, tid, t);
}

proof fn lemma_without_counts(queue: Seq<usize>, tid: usize, t: usize)
    ensures
        t != tid ==> count_tid(without_tid(queue, tid), t) == count_tid(queue, t),
        count_tid(without_tid(queue, tid), tid) == 0,
    decreases queue.len(),
{
    reveal(Seq::filter);
    if queue.len() > 0 {
        lemma_without_counts(queue.drop_last(), tid, t);
        let w = without_tid(queue.drop_last(), tid);
        if queue.last() != tid {
            assert(without_tid(queue, tid) == w.push(queue.last()));
            lemma_count_tid_push(w, queue.last(), t);
            lemma_count_tid_push(w, queue.last(), tid);
        } else {
            assert(without_tid(queue, tid) == w);
        }
    }
}

/// Removes every occurrence of `tid` from `queue`, keeping the order of
/// the rest.
pub fn remove_tid(queue: &mut VecDeque<usize>, tid: usize)
    ensures
        final(queue)@ == without_tid(old(queue)@, tid),
{
    let ghost q0 = queue@;
    let mut kept: VecDeque<usize> = VecDeque::new();
    let mut k: usize = 0;
    while k < queue.len()
        invariant
            queue@ == q0,
            k <= q0.len(),
            kept@ == without_tid(q0.take(k as int), tid),
        decreases q0.len() - k,
    {
        proof {
            assert(q0.take(k + 1).drop_last() =~= q0.take(k as int));
            reveal(Seq::filter);
        }
        let x = queue[k];
        if x != tid {
            kept.push_back(x);
        }
        k += 1;
    }
    assert(q0.take(k as int) =~= q0);
    *queue = kept;
}

/// A resource that deadlock detection can inspect: how many units are
/// free, how many each task holds, and how many each task waits for. A
/// resource can also be told that the current task is about to wait for
/// it (`mark_need`) and have that withdrawn again (`unmark_need`).
pub trait SyncResource: View + Sized {
    /// Free units, as `get_available` reports them.
    spec fn spec_available(v: Self::V) -> int;

    /// Units held by task `tid`, as `get_allocation` reports them.
    spec fn spec_allocation(v: Self::V, tid: usize) -> int;

    /// Units task `tid` waits for, as `get_need` reports them.
    spec fn spec_need(v: Self::V, tid: usize) -> int;

    /// `get_need` can add up the waiting units without overflow.
    spec fn need_fits(v: Self::V, tid: usize) -> bool;

    /// The resource once task `tid` has been queued as waiting for it.
    spec fn spec_mark(v: Self::V, tid: usize) -> Self::V;

    /// The resource once the last queued wait is withdrawn.
    spec fn spec_unmark(v: Self::V) -> Self::V;

    /// Withdrawing a wait just queued gives back the resource unchanged,
    /// and queuing a wait for `tid` changes only the units `tid` waits for,
    /// by one.
    proof fn lemma_mark(v: Self::V, tid: usize)
        ensures
            Self::spec_unmark(Self::spec_mark(v, tid)) == v,
            Self::spec_available(Self::spec_mark(v, tid)) == Self::spec_available(v),
            forall|t: usize|
                Self::spec_allocation(Self::spec_mark(v, tid), t) == #[trigger] Self::spec_allocation(
                    v,
                    t,
                ),
            forall|t: usize|
                #[trigger] Self::spec_need(Self::spec_mark(v, tid), t) == Self::spec_need(v, t)
                    + if t == tid {
                    1int
                } else {
                    0int
                },
    ;

    /// get the avaiable matrix
    fn get_available(&self) -> (r: isize)
        ensures
            r == Self::spec_available(self@),
    ;

    /// get one row of the allocation matrix for thread tid
    fn get_allocation(&self, tid: usize) -> (r: isize)
        ensures
            r == Self::spec_allocation(self@, tid),
    ;

    /// get one row of the allocation need for thread tid
    fn get_need(&self, tid: usize) -> (r: isize)
        requires
            Self::need_fits(self@, tid),
        ensures
            r == Self::spec_need(self@, tid),
    ;

    /// mark need
    fn mark_need(&mut self, curr_tid: usize)
        ensures
            final(self)@ == Self::spec_mark(old(self)@, curr_tid),
    ;

    /// unmark need
    fn unmark_need(&mut self)
        ensures
            final(self)@ == Self::spec_unmark(old(self)@),
    ;
}

/// The states of the resources of a list, `None` for empty slots.
pub open spec fn res_views<R: SyncResource>(list: Seq<Option<R>>) -> Seq<Option<R::V>> {
    list.map_values(
        |o: Option<R>|
            match o {
                Some(r) => Some(r@),
                None => None,
            },
    )
}

/// Free units of each resource; an empty slot offers none.
pub open spec fn available_of<R: SyncResource>(vs: Seq<Option<R::V>>) -> Seq<int> {
    vs.map_values(
        |o: Option<R::V>|
            match o {
                Some(v) => R::spec_available(v),
                None => 0,
            },
    )
}

/// Units of each resource held by the task in a task slot; a slot without
/// a task, or whose task has no id, holds none.
pub open spec fn holding_of<R: SyncResource>(vs: Seq<Option<R::V>>, task: Option<usize>) -> Seq<int> {
    vs.map_values(
        |o: Option<R::V>|
            match (o, task) {
                (Some(v), Some(tid)) => R::spec_allocation(v, tid),
                _ => 0,
            },
    )
}

/// Units of each resource the task in a task slot waits for.
pub open spec fn waiting_of<R: SyncResource>(vs: Seq<Option<R::V>>, task: Option<usize>) -> Seq<int> {
    vs.map_values(
        |o: Option<R::V>|
            match (o, task) {
                (Some(v), Some(tid)) => R::spec_need(v, tid),
                _ => 0,
            },
    )
}

/// One `holding_of` row per task slot.
pub open spec fn holding_matrix<R: SyncResource>(
    vs: Seq<Option<R::V>>,
    tasks: Seq<Option<usize>>,
) -> Seq<Seq<int>> {
    tasks.map_values(|t: Option<usize>| holding_of::<R>(vs, t))
}

/// One `waiting_of` row per task slot.
pub open spec fn waiting_matrix<R: SyncResource>(
    vs: Seq<Option<R::V>>,
    tasks: Seq<Option<usize>>,
) -> Seq<Seq<int>> {
    tasks.map_values(|t: Option<usize>| waiting_of::<R>(vs, t))
}

/// The claims that the resources `vs` and the task slots `tasks` make up.
pub open spec fn resource_claims<R: SyncResource>(
    vs: Seq<Option<R::V>>,
    tasks: Seq<Option<usize>>,
) -> Claims {
    Claims {
        available: available_of::<R>(vs),
        allocation: holding_matrix::<R>(vs, tasks),
        need: waiting_matrix::<R>(vs, tasks),
    }
}

/// Every resource can report, without overflow, what every task waits for.
pub open spec fn needs_fit<R: SyncResource>(
    vs: Seq<Option<R::V>>,
    tasks: Seq<Option<usize>>,
) -> bool {
    forall|k: int, i: int|
        0 <= k < vs.len() && 0 <= i < tasks.len() && vs[k] is Some && tasks[i] is Some
            ==> R::need_fits(#[trigger] vs[k]->0, #[trigger] tasks[i]->0)
}

/// The resources with task `curr_tid` queued as waiting for resource `idx`.
pub open spec fn marked<R: SyncResource>(
    vs: Seq<Option<R::V>>,
    idx: int,
    curr_tid: usize,
) -> Seq<Option<R::V>> {
    vs.update(idx, Some(R::spec_mark(vs[idx]->0, curr_tid)))
}

/// The claims the resources make: resource `k` offers what it reports as
/// free, and a task slot holding task `tid` holds and waits for what the
/// resource reports for `tid`; an empty resource slot, or a task slot
/// without a task, counts for nothing. There is one row per task slot and
/// one column per resource slot.
pub proof fn lemma_claims_entries<R: SyncResource>(
    vs: Seq<Option<R::V>>,
    tasks: Seq<Option<usize>>,
    i: int,
    k: int,
)
    requires
        0 <= i < tasks.len(),
        0 <= k < vs.len(),
    ensures
        resource_claims::<R>(vs, tasks).n() == tasks.len(),
        resource_claims::<R>(vs, tasks).m() == vs.len(),
        resource_claims::<R>(vs, tasks).wf(),
        resource_claims::<R>(vs, tasks).available[k] == match vs[k] {
            Some(v) => R::spec_available(v),
            None => 0,
        },
        resource_claims::<R>(vs, tasks).allocation[i][k] == match (vs[k], tasks[i]) {
            (Some(v), Some(tid)) => R::spec_allocation(v, tid),
            _ => 0,
        },
        resource_claims::<R>(vs, tasks).need[i][k] == match (vs[k], tasks[i]) {
            (Some(v), Some(tid)) => R::spec_need(v, tid),
            _ => 0,
        },
{
    let c = resource_claims::<R>(vs, tasks);
    assert(c.allocation[i] == holding_of::<R>(vs, tasks[i]));
    assert(c.need[i] == waiting_of::<R>(vs, tasks[i]));
    assert forall|ii: int| 0 <= ii < c.n() implies #[trigger] c.allocation[ii].len() >= c.m() by {
        assert(c.allocation[ii] == holding_of::<R>(vs, tasks[ii]));
    }
    assert forall|ii: int| 0 <= ii < c.n() implies #[trigger] c.need[ii].len() >= c.m() by {
        assert(c.need[ii] == waiting_of::<R>(vs, tasks[ii]));
    }
}

/// The check on the resources `vs` with task `curr_tid` queued on
/// resource `idx` never overflows.
pub open spec fn fits_marked<R: SyncResource>(
    vs: Seq<Option<R::V>>,
    tasks: Seq<Option<usize>>,
    idx: int,
    curr_tid: usize,
) -> bool {
    let c = resource_claims::<R>(marked::<R>(vs, idx, curr_tid), tasks);
    c.greedy_fits(c.none_done())
}

/// Queuing task `curr_tid` on resource `idx` changes the claims only by
/// one more unit of that resource wanted by the task slots of `curr_tid`.
pub proof fn lemma_marked_claims<R: SyncResource>(
    vs: Seq<Option<R::V>>,
    tasks: Seq<Option<usize>>,
    idx: int,
    curr_tid: usize,
)
    requires
        0 <= idx < vs.len(),
        vs[idx] is Some,
    ensures
        resource_claims::<R>(marked::<R>(vs, idx, curr_tid), tasks).available
            == resource_claims::<R>(vs, tasks).available,
        resource_claims::<R>(marked::<R>(vs, idx, curr_tid), tasks).allocation
            == resource_claims::<R>(vs, tasks).allocation,
        resource_claims::<R>(marked::<R>(vs, idx, curr_tid), tasks).need.len()
            == tasks.len(),
        forall|i: int, k: int|
            0 <= i < tasks.len() && 0 <= k < vs.len() ==> #[trigger] resource_claims::<R>(
                marked::<R>(vs, idx, curr_tid),
                tasks).need[i][k] == resource_claims::<R>(vs, tasks).need[i][k] + if k == idx
                && tasks[i] == Some(curr_tid) {
                1int
            } else {
                0int
            },
{
    let m = marked::<R>(vs, idx, curr_tid);
    let c0 = resource_claims::<R>(vs, tasks);
    let c1 = resource_claims::<R>(m, tasks);
    R::lemma_mark(vs[idx]->0, curr_tid);
    assert(c1.available =~= c0.available);
    assert forall|i: int| 0 <= i < tasks.len() implies c1.allocation[i] == c0.allocation[i] by {
        assert(c1.allocation[i] =~= c0.allocation[i]);
    }
    assert(c1.allocation =~= c0.allocation);
    assert forall|i: int, k: int| 0 <= i < tasks.len() && 0 <= k < vs.len() implies #[trigger] c1.need[i][k]
        == c0.need[i][k] + if k == idx && tasks[i] == Some(curr_tid) {
        1int
    } else {
        0int
    } by {
        assert(c1.need[i] == waiting_of::<R>(m, tasks[i]));
        assert(c0.need[i] == waiting_of::<R>(vs, tasks[i]));
    }
}

/// Resources that never report a negative holding make claims without
/// negative holdings.
pub proof fn lemma_claims_nonneg<R: SyncResource>(vs: Seq<Option<R::V>>, tasks: Seq<Option<usize>>)
    requires
        forall|k: int, t: usize|
            0 <= k < vs.len() && vs[k] is Some ==> #[trigger] R::spec_allocation(vs[k]->0, t) >= 0,
    ensures
        resource_claims::<R>(vs, tasks).nonneg(),
{
    let c = resource_claims::<R>(vs, tasks);
    assert forall|i: int, j: int| 0 <= i < c.n() && 0 <= j < c.m() implies #[trigger] c.allocation[i][j]
        >= 0 by {
        assert(c.allocation[i] == holding_of::<R>(vs, tasks[i]));
        if vs[j] is Some && tasks[i] is Some {
            assert(R::spec_allocation(vs[j]->0, tasks[i]->0) >= 0);
        }
    }
}

fn available_row<R: SyncResource>(list: &Vec<Option<R>>) -> (r: Vec<isize>)
    ensures
        ints(r@) == available_of::<R>(res_views(list@)),
{
    let mut r: Vec<isize> = Vec::new();
    let mut k: usize = 0;
    while k < list.len()
        invariant
            k <= list.len(),
            r.len() == k,
            forall|kk: int|
                0 <= kk < k ==> r[kk] == #[trigger] available_of::<R>(res_views(list@))[kk],
        decreases list.len() - k,
    {
        let v = match &list[k] {
            Some(res) => res.get_available(),
            None => 0,
        };
        r.push(v);
        k += 1;
    }
    assert(ints(r@) =~= available_of::<R>(res_views(list@)));
    r
}

fn holding_row<R: SyncResource>(list: &Vec<Option<R>>, task: Option<usize>) -> (r: Vec<isize>)
    ensures
        ints(r@) == holding_of::<R>(res_views(list@), task),
{
    let mut r: Vec<isize> = Vec::new();
    let mut k: usize = 0;
    while k < list.len()
        invariant
            k <= list.len(),
            r.len() == k,
            forall|kk: int|
                0 <= kk < k ==> r[kk] == #[trigger] holding_of::<R>(res_views(list@), task)[kk],
        decreases list.len() - k,
    {
        let v = match task {
            Some(tid) => match &list[k] {
                Some(res) => res.get_allocation(tid),
                None => 0,
            },
            None => 0,
        };
        r.push(v);
        k += 1;
    }
    assert(ints(r@) =~= holding_of::<R>(res_views(list@), task));
    r
}

fn waiting_row<R: SyncResource>(list: &Vec<Option<R>>, task: Option<usize>) -> (r:
    Vec<isize>)
    requires
        forall|k: int|
            0 <= k < list.len() && #[trigger] res_views(list@)[k] is Some && task is Some
                ==> R::need_fits(res_views(list@)[k]->0, task->0),
    ensures
        ints(r@) == waiting_of::<R>(res_views(list@), task),
{
    let mut r: Vec<isize> = Vec::new();
    let mut k: usize = 0;
    while k < list.len()
        invariant
            k <= list.len(),
            r.len() == k,
            forall|kk: int|
                0 <= kk < list.len() && #[trigger] res_views(list@)[kk] is Some && task is Some
                    ==> R::need_fits(res_views(list@)[kk]->0, task->0),
            forall|kk: int|
                0 <= kk < k ==> r[kk] == #[trigger] waiting_of::<R>(
                    res_views(list@),
                    task)[kk],
        decreases list.len() - k,
    {
        let v = match task {
            Some(tid) => match &list[k] {
                Some(res) => {
                    assert(res_views(list@)[k as int] is Some);
                    res.get_need(tid)
                },
                None => 0,
            },
            None => 0,
        };
        r.push(v);
        k += 1;
    }
    assert(ints(r@) =~= waiting_of::<R>(res_views(list@), task));
    r
}

/// Deadlock detection over a list of resources of one kind: queues task
/// `curr_tid` as waiting for resource `idx`, runs the check of
/// `have_deadlock` on what the resources report for the task slots
/// `tasks`, and withdraws the wait again.
pub(crate) fn resource_deadlock<R: SyncResource>(
    list: &mut Vec<Option<R>>,
    tasks: &Vec<Option<usize>>,
    idx: usize,
    curr_tid: usize,
) -> (deadlock: bool)
    requires
        idx < old(list).len(),
        old(list)[idx as int] is Some,
        needs_fit::<R>(marked::<R>(res_views(old(list)@), idx as int, curr_tid), tasks@),
        fits_marked::<R>(res_views(old(list)@), tasks@, idx as int, curr_tid),
    ensures
        res_views(final(list)@) == res_views(old(list)@),
        deadlock == !resource_claims::<R>(
            marked::<R>(res_views(old(list)@), idx as int, curr_tid),
            tasks@).greedy_completes(),
        resource_claims::<R>(
            marked::<R>(res_views(old(list)@), idx as int, curr_tid),
            tasks@).nonneg() ==> (deadlock <==> !resource_claims::<R>(
            marked::<R>(res_views(old(list)@), idx as int, curr_tid),
            tasks@).safe()),
{
    let ghost vs0 = res_views(list@);
    let ghost vs1 = marked::<R>(vs0, idx as int, curr_tid);
    let ghost c = resource_claims::<R>(vs1, tasks@);
    let mut slot = list.remove(idx);
    match &mut slot {
        Some(r) => r.mark_need(curr_tid),
        None => {},
    }
    list.insert(idx, slot);
    assert(res_views(list@) =~= vs1);
    let available = available_row(list);
    let mut allocation: Vec<Vec<isize>> = Vec::new();
    let mut need: Vec<Vec<isize>> = Vec::new();
    let mut i: usize = 0;
    while i < tasks.len()
        invariant
            i <= tasks.len(),
            res_views(list@) == vs1,
            needs_fit::<R>(vs1, tasks@),
            allocation.len() == i,
            need.len() == i,
            forall|ii: int|
                0 <= ii < i ==> ints(#[trigger] allocation@[ii]@) == holding_of::<R>(
                    vs1,
                    tasks@[ii],
                ),
            forall|ii: int|
                0 <= ii < i ==> ints(#[trigger] need@[ii]@) == waiting_of::<R>(
                    vs1,
                    tasks@[ii]),
        decreases tasks.len() - i,
    {
        let task = tasks[i];
        allocation.push(holding_row(list, task));
        assert forall|k: int|
            0 <= k < list.len() && #[trigger] res_views(list@)[k] is Some && task is Some
                implies R::need_fits(res_views(list@)[k]->0, task->0) by {
            assert(vs1[k] is Some && tasks@[i as int] is Some);
        }
        need.push(waiting_row(list, task));
        i += 1;
    }
    assert(int_rows(allocation@) =~= holding_matrix::<R>(vs1, tasks@));
    assert(int_rows(need@) =~= waiting_matrix::<R>(vs1, tasks@));
    assert(claims_of(available@, allocation@, need@) == c);
    let deadlock = have_deadlock(&available, &allocation, &need);
    let mut slot = list.remove(idx);
    match &mut slot {
        Some(r) => r.unmark_need(),
        None => {},
    }
    list.insert(idx, slot);
    proof {
        R::lemma_mark(vs0[idx as int]->0, curr_tid);
    }
    assert(res_views(list@) =~= vs0);
    deadlock
}

} // verus!
