//! Implementation of [`TaskManager`]: the ready queue of a stride scheduler.

use vstd::prelude::*;

verus! {

/// the maximum stride for stride scheduler
pub const BIG_STRIDE: isize = 0x10000000;

/// A ready task as the scheduler sees it: who it is, how far it has run
/// (its stride) and its priority.
#[derive(Clone, Copy, Debug, PartialEq, Eq, Structural)]
pub struct ReadyTask {
    pub id: usize,
    pub stride: isize,
    pub prio: isize,
}

/// `BIG_STRIDE / prio`, with the quotient rounded toward zero.
pub open spec fn stride_step(prio: isize) -> int {
    if prio > 0 {
        (BIG_STRIDE as int) / (prio as int)
    } else if prio == isize::MIN {
        0
    } else {
        -((BIG_STRIDE as int) / (-(prio as int)))
    }
}

/// Task `i` has the least stride in `q`, and every task before it a
/// greater one.
pub open spec fn is_first_min(q: Seq<ReadyTask>, i: int) -> bool {
    &&& 0 <= i < q.len()
    &&& forall|j: int| 0 <= j < q.len() ==> q[i].stride <= #[trigger] q[j].stride
    &&& forall|j: int| 0 <= j < i ==> #[trigger] q[j].stride > q[i].stride
}

/// The position of the first task with the least stride.
pub open spec fn first_min(q: Seq<ReadyTask>) -> int {
    choose|i: int| is_first_min(q, i)
}

/// Every non-empty queue has exactly one first task of least stride.
pub proof fn lemma_first_min(q: Seq<ReadyTask>)
    requires
        q.len() > 0,
    ensures
        is_first_min(q, first_min(q)),
        forall|i: int| is_first_min(q, i) ==> i == first_min(q),
    decreases q.len(),
{
    if q.len() == 1 {
        assert(is_first_min(q, 0));
    } else {
        let p = q.drop_last();
        lemma_first_min(p);
        let i = first_min(p);
        assert(p[i] == q[i]);
        if q.last().stride < q[i].stride {
            assert(is_first_min(q, q.len() - 1)) by {
                assert forall|j: int| 0 <= j < q.len() implies q[q.len() - 1].stride
                    <= #[trigger] q[j].stride by {
                    if j < q.len() - 1 {
                        assert(p[j] == q[j]);
                    }
                }
                assert forall|j: int| 0 <= j < q.len() - 1 implies #[trigger] q[j].stride > q[q.len()
                    - 1].stride by {
                    assert(p[j] == q[j]);
                }
            }
        } else {
            assert(is_first_min(q, i)) by {
                assert forall|j: int| 0 <= j < q.len() implies q[i].stride <= #[trigger] q[j].stride by {
                    if j < q.len() - 1 {
                        assert(p[j] == q[j]);
                    }
                }
                assert forall|j: int| 0 <= j < i implies #[trigger] q[j].stride > q[i].stride by {
                    assert(p[j] == q[j]);
                }
            }
        }
    }
    let k = first_min(q);
    assert forall|i: int| is_first_min(q, i) implies i == k by {
        if i < k {
            assert(q[i].stride > q[k].stride);
        } else if k < i {
            assert(q[k].stride > q[i].stride);
        }
    }
}

/// A task can be taken from the non-empty queue `q`: some stride is below
/// the largest `isize`, and the chosen task's priority divides and its new
/// stride fits.
pub open spec fn can_take(q: Seq<ReadyTask>) -> bool {
    &&& q.len() > 0
    &&& exists|i: int| 0 <= i < q.len() && #[trigger] q[i].stride < isize::MAX
    &&& q[first_min(q)].prio != 0
    &&& isize::MIN <= q[first_min(q)].stride + stride_step(q[first_min(q)].prio) + 1 <= isize::MAX
}

/// `fetch` can run: the queue is empty, or a task can be taken from it.
pub open spec fn can_fetch(q: Seq<ReadyTask>) -> bool {
    q.len() == 0 || can_take(q)
}

/// A simple FIFO scheduler: among tasks of equal stride, the one that
/// arrived first runs first.
pub struct TaskManager {
    ready_queue: Vec<ReadyTask>,
}

impl View for TaskManager {
    type V = Seq<ReadyTask>;

    closed spec fn view(&self) -> Seq<ReadyTask> {
        self.ready_queue@
    }
}

fn stride_step_exec(prio: isize) -> (r: isize)
    requires
        prio != 0,
    ensures
        r == stride_step(prio),
{
    if prio > 0 {
        BIG_STRIDE / prio
    } else if prio == isize::MIN {
        0
    } else {
        -(BIG_STRIDE / (-prio))
    }
}

/// Whether some task's stride is below the largest `isize`.
fn some_below(q: &Vec<ReadyTask>) -> (r: bool)
    ensures
        r == exists|j: int| 0 <= j < q@.len() && #[trigger] q@[j].stride < isize::MAX,
{
    let mut i: usize = 0;
    while i < q.len()
        invariant
            i <= q.len(),
            forall|j: int| 0 <= j < i ==> !(#[trigger] q@[j].stride < isize::MAX),
        decreases q.len() - i,
    {
        if q[i].stride < isize::MAX {
            return true;
        }
        i += 1;
    }
    false
}

impl TaskManager {
    ///Creat an empty TaskManager
    pub fn new() -> (r: Self)
        ensures
            r@ == Seq::<ReadyTask>::empty(),
    {
        Self { ready_queue: Vec::new() }
    }

    /// Add process back to ready queue
    pub fn add(&mut self, task: ReadyTask)
        ensures
            final(self)@ == old(self)@.push(task),
    {
        self.ready_queue.push(task);
    }

    /// The position and priority of the first task of least stride, as the
    /// scan of `fetch` finds them; `(0, 0)` when every stride is the
    /// largest `isize`.
    fn least_stride(&self) -> (r: (usize, isize))
        requires
            self@.len() > 0,
        ensures
            (exists|j: int| 0 <= j < self@.len() && #[trigger] self@[j].stride < isize::MAX) ==> r.0
                == first_min(self@) && r.1 == self@[first_min(self@)].prio,
            !(exists|j: int| 0 <= j < self@.len() && #[trigger] self@[j].stride < isize::MAX) ==> r
                == (0usize, 0isize),
    {
        let ghost q = self@;
        proof {
            lemma_first_min(q);
        }
        let mut i: usize = 0;
        let mut min_stride: isize = isize::MAX;
        let mut min_stride_idx: usize = 0;
        let mut prio: isize = 0;
        while i < self.ready_queue.len()
            invariant
                q == self.ready_queue@,
                i <= q.len(),
                min_stride_idx < q.len(),
                (exists|j: int| 0 <= j < i && #[trigger] q[j].stride < isize::MAX) ==> {
                    &&& is_first_min(q.take(i as int), min_stride_idx as int)
                    &&& min_stride == q[min_stride_idx as int].stride
                    &&& prio == q[min_stride_idx as int].prio
                },
                !(exists|j: int| 0 <= j < i && #[trigger] q[j].stride < isize::MAX) ==> {
                    &&& min_stride == isize::MAX
                    &&& min_stride_idx == 0
                    &&& prio == 0
                },
            decreases q.len() - i,
        {
            let task = self.ready_queue[i];
            let curr_stride = task.stride;
            let ghost before = exists|j: int| 0 <= j < i && #[trigger] q[j].stride < isize::MAX;
            if curr_stride < min_stride {
                min_stride = curr_stride;
                min_stride_idx = i;
                prio = task.prio;
            }
            proof {
                let t = q.take(i + 1);
                assert(q[i as int].stride < isize::MAX ==> exists|j: int|
                    0 <= j < i + 1 && #[trigger] q[j].stride < isize::MAX);
                if before {
                    let j0 = choose|j: int| 0 <= j < i && #[trigger] q[j].stride < isize::MAX;
                    assert(0 <= j0 < i + 1 && q[j0].stride < isize::MAX);
                }
                if exists|j: int| 0 <= j < i + 1 && #[trigger] q[j].stride < isize::MAX {
                    assert forall|j: int| 0 <= j < t.len() implies t[min_stride_idx as int].stride
                        <= #[trigger] t[j].stride by {
                        if j < i {
                            assert(t[j] == q.take(i as int)[j]);
                        }
                    }
                    assert forall|j: int| 0 <= j < min_stride_idx implies #[trigger] t[j].stride
                        > t[min_stride_idx as int].stride by {
                        assert(t[j] == q.take(i as int)[j]);
                    }
                } else {
                    assert(!(q[i as int].stride < isize::MAX));
                }
            }
            i += 1;
        }
        proof {
            assert(q.take(q.len() as int) =~= q);
            if exists|j: int| 0 <= j < q.len() && #[trigger] q[j].stride < isize::MAX {
                let j0 = choose|j: int| 0 <= j < q.len() && #[trigger] q[j].stride < isize::MAX;
                assert(0 <= j0 < i && q[j0].stride < isize::MAX);
                assert(is_first_min(q, min_stride_idx as int));
            }
        }
        (min_stride_idx, prio)
    }

    /// Whether `fetch` can run: the queue is empty, or some stride is below
    /// the largest `isize`, the chosen task's priority is not zero and its
    /// new stride fits.
    pub fn is_fetchable(&self) -> (r: bool)
        ensures
            r == can_fetch(self@),
    {
        if self.ready_queue.len() == 0 {
            return true;
        }
        if !some_below(&self.ready_queue) {
            return false;
        }
        proof {
            lemma_first_min(self@);
        }
        let (idx, prio) = self.least_stride();
        if prio == 0 {
            return false;
        }
        let step = stride_step_exec(prio);
        self.ready_queue[idx].stride.checked_add(step + 1).is_some()
    }

    /// Take a process out of the ready queue: the first one of least
    /// stride, whose stride grows by `BIG_STRIDE / prio + 1`; the others
    /// keep their order. `None` when the queue is empty.
    pub fn fetch(&mut self) -> (r: Option<ReadyTask>)
        requires
            can_fetch(old(self)@),
        ensures
            old(self)@.len() == 0 ==> r is None && final(self)@ == old(self)@,
            old(self)@.len() > 0 ==> r == Some(
                ReadyTask {
                    stride: (old(self)@[first_min(old(self)@)].stride + stride_step(
                        old(self)@[first_min(old(self)@)].prio,
                    ) + 1) as isize,
                    ..old(self)@[first_min(old(self)@)]
                },
            ),
            old(self)@.len() > 0 ==> final(self)@ == old(self)@.remove(first_min(old(self)@)),
    {
        if self.ready_queue.len() == 0 {
            return None;
        }
        proof {
            lemma_first_min(self@);
        }
        let (min_stride_idx, prio) = self.least_stride();
        let mut task = self.ready_queue.remove(min_stride_idx);
        let step = stride_step_exec(prio);
        task.stride = task.stride + (step + 1);
        Some(task)
    }
}

/// The task `fetch` takes has a stride no greater than any other ready
/// task's, and a positive priority makes its stride grow.
pub proof fn lemma_fetch_least(q: Seq<ReadyTask>)
    requires
        can_take(q),
    ensures
        forall|j: int| 0 <= j < q.len() ==> q[first_min(q)].stride <= #[trigger] q[j].stride,
        q[first_min(q)].prio > 0 ==> q[first_min(q)].stride + stride_step(q[first_min(q)].prio) + 1
            > q[first_min(q)].stride,
{
    lemma_first_min(q);
}

/// Among tasks of least stride, the one that arrived first is taken.
pub proof fn lemma_fetch_fifo(q: Seq<ReadyTask>, j: int)
    requires
        can_take(q),
        0 <= j < q.len(),
        q[j].stride == q[first_min(q)].stride,
    ensures
        first_min(q) <= j,
{
    lemma_first_min(q);
    let k = first_min(q);
    if j < k {
        assert(q[j].stride > q[k].stride);
    }
}

/// For a positive priority `p`, the stride a fetched task advances by is
/// `BIG_STRIDE / p` rounded down, plus one: the largest `q` with
/// `q * p <= BIG_STRIDE`.
pub proof fn lemma_stride_step_quotient(p: isize)
    requires
        p > 0,
    ensures
        stride_step(p) >= 0,
        stride_step(p) * p <= BIG_STRIDE,
        BIG_STRIDE < (stride_step(p) + 1) * p,
{
    let x = BIG_STRIDE as int;
    let d = p as int;
    let q = x / d;
    let r = x % d;
    vstd::arithmetic::div_mod::lemma_fundamental_div_mod(x, d);
    vstd::arithmetic::div_mod::lemma_mod_pos_bound(x, d);
    vstd::arithmetic::div_mod::lemma_div_pos_is_pos(x, d);
    assert(stride_step(p) == q);
    assert(q * d <= x && x < (q + 1) * d) by (nonlinear_arith)
        requires
            x == d * q + r,
            0 <= r < d,
    ;
}

/// A higher priority never gives a larger stride step.
pub proof fn lemma_stride_step_monotone(p1: isize, p2: isize)
    requires
        0 < p1 <= p2,
    ensures
        stride_step(p2) <= stride_step(p1),
{
    vstd::arithmetic::div_mod::lemma_div_is_ordered_by_denominator(BIG_STRIDE as int, p1 as int, p2 as int);
}

} // verus!
