//! Deadlock detection in the style of the banker's safety check.
//!
//! Tasks hold some units of each resource (`allocation`) and are waiting for
//! some more (`need`). The check repeatedly lets the lowest-numbered task
//! whose whole need can be met by the free units finish, returning what it
//! holds; the system is deadlocked when this stops before every task has
//! finished.

use vstd::prelude::*;

verus! {

/// The entries of a vector of machine integers, as mathematical integers.
pub open spec fn ints(v: Seq<isize>) -> Seq<int> {
    v.map_values(|x: isize| x as int)
}

/// The rows of a matrix of machine integers, as mathematical integers.
pub open spec fn int_rows(m: Seq<Vec<isize>>) -> Seq<Seq<int>> {
    m.map_values(|r: Vec<isize>| ints(r@))
}

/// The number of `false` entries of `s`.
pub open spec fn count_false(s: Seq<bool>) -> nat
    decreases s.len(),
{
    if s.len() == 0 {
        0
    } else {
        count_false(s.drop_last()) + if s.last() {
            0nat
        } else {
            1nat
        }
    }
}

/// Every entry of `s` is `true`.
pub open spec fn all_true(s: Seq<bool>) -> bool {
    forall|i: int| 0 <= i < s.len() ==> s[i]
}

/// Setting an unset entry lowers the number of unset entries by one.
pub proof fn lemma_count_false_set(s: Seq<bool>, i: int)
    requires
        0 <= i < s.len(),
        !s[i],
    ensures
        count_false(s.update(i, true)) + 1 == count_false(s),
    decreases s.len(),
{
    let t = s.update(i, true);
    if i == s.len() - 1 {
        assert(t.drop_last() =~= s.drop_last());
    } else {
        assert(t.drop_last() =~= s.drop_last().update(i, true));
        lemma_count_false_set(s.drop_last(), i);
    }
}

/// The free units of each resource and, per task, the units it holds and
/// the units it waits for. Tasks are numbered by the rows of `allocation`,
/// resources by the entries of `available`.
pub struct Claims {
    pub available: Seq<int>,
    pub allocation: Seq<Seq<int>>,
    pub need: Seq<Seq<int>>,
}

impl Claims {
    /// Number of tasks.
    pub open spec fn n(self) -> int {
        self.allocation.len() as int
    }

    /// Number of resources.
    pub open spec fn m(self) -> int {
        self.available.len() as int
    }

    /// Every task has a `need` row, and every row covers every resource.
    pub open spec fn wf(self) -> bool {
        &&& self.need.len() == self.allocation.len()
        &&& forall|i: int| 0 <= i < self.n() ==> #[trigger] self.allocation[i].len() >= self.m()
        &&& forall|i: int| 0 <= i < self.n() ==> #[trigger] self.need[i].len() >= self.m()
    }

    /// No task holds a negative number of units.
    pub open spec fn nonneg(self) -> bool {
        forall|i: int, j: int|
            0 <= i < self.n() && 0 <= j < self.m() ==> #[trigger] self.allocation[i][j] >= 0
    }

    /// Units of resource `j` held by the finished tasks among the first `k`.
    pub open spec fn released(self, fin: Seq<bool>, j: int, k: int) -> int
        decreases k,
    {
        if k <= 0 {
            0
        } else {
            self.released(fin, j, k - 1) + if fin[k - 1] {
                self.allocation[k - 1][j]
            } else {
                0
            }
        }
    }

    /// Free units of resource `j` once the tasks marked in `fin` have finished.
    pub open spec fn work(self, fin: Seq<bool>, j: int) -> int {
        self.available[j] + self.released(fin, j, fin.len() as int)
    }

    /// The whole need of task `i` can be met once the tasks in `fin` finished.
    pub open spec fn runnable(self, fin: Seq<bool>, i: int) -> bool {
        forall|j: int| 0 <= j < self.m() ==> #[trigger] self.need[i][j] <= self.work(fin, j)
    }

    /// Task `i` has not finished and can run to completion.
    pub open spec fn can_pick(self, fin: Seq<bool>, i: int) -> bool {
        0 <= i < fin.len() && !fin[i] && self.runnable(fin, i)
    }

    /// The lowest-numbered task, from `from` on, that can run to completion.
    pub open spec fn first_pick(self, fin: Seq<bool>, from: int) -> Option<int>
        decreases fin.len() - from,
    {
        if from < 0 || from >= fin.len() {
            None
        } else if self.can_pick(fin, from) {
            Some(from)
        } else {
            self.first_pick(fin, from + 1)
        }
    }

    /// The tasks finished when the lowest-numbered runnable task is let
    /// finish, again and again, starting from `fin`.
    pub open spec fn greedy_final(self, fin: Seq<bool>) -> Seq<bool>
        decreases count_false(fin),
    {
        match self.first_pick(fin, 0) {
            Some(i) => {
                if 0 <= i < fin.len() && !fin[i] {
                    proof {
                        lemma_count_false_set(fin, i);
                    }
                    self.greedy_final(fin.update(i, true))
                } else {
                    fin
                }
            },
            None => fin,
        }
    }

    /// The order in which `greedy_final` lets the tasks finish.
    pub open spec fn greedy_order(self, fin: Seq<bool>) -> Seq<int>
        decreases count_false(fin),
    {
        match self.first_pick(fin, 0) {
            Some(i) => {
                if 0 <= i < fin.len() && !fin[i] {
                    proof {
                        lemma_count_false_set(fin, i);
                    }
                    seq![i] + self.greedy_order(fin.update(i, true))
                } else {
                    Seq::empty()
                }
            },
            None => Seq::empty(),
        }
    }

    /// The free units of every resource fit in an `isize` once the tasks
    /// marked in `fin` have finished.
    pub open spec fn work_fits(self, fin: Seq<bool>) -> bool {
        forall|j: int|
            0 <= j < self.m() ==> isize::MIN <= #[trigger] self.work(fin, j) <= isize::MAX
    }

    /// Along the greedy run from `fin`, the free units always fit in an
    /// `isize`.
    pub open spec fn greedy_fits(self, fin: Seq<bool>) -> bool
        decreases count_false(fin),
    {
        &&& self.work_fits(fin)
        &&& match self.first_pick(fin, 0) {
            Some(i) => {
                if 0 <= i < fin.len() && !fin[i] {
                    proof {
                        lemma_count_false_set(fin, i);
                    }
                    self.greedy_fits(fin.update(i, true))
                } else {
                    true
                }
            },
            None => true,
        }
    }

    /// No task has finished yet.
    pub open spec fn none_done(self) -> Seq<bool> {
        Seq::new(self.n() as nat, |i: int| false)
    }

    /// Letting the lowest-numbered runnable task finish, again and again,
    /// finishes every task.
    pub open spec fn greedy_completes(self) -> bool {
        all_true(self.greedy_final(self.none_done()))
    }

    /// The tasks that come before position `k` of `order`, as finished marks.
    pub open spec fn done_before(self, order: Seq<int>, k: int) -> Seq<bool> {
        Seq::new(self.n() as nat, |i: int| order.take(k).contains(i))
    }

    /// `order` lists every task once, and each task in it can run to
    /// completion once the tasks before it have finished.
    pub open spec fn is_safe_order(self, order: Seq<int>) -> bool {
        &&& order.no_duplicates()
        &&& forall|k: int| 0 <= k < order.len() ==> 0 <= #[trigger] order[k] < self.n()
        &&& forall|i: int| 0 <= i < self.n() ==> #[trigger] order.contains(i)
        &&& forall|k: int|
            0 <= k < order.len() ==> #[trigger] self.runnable(self.done_before(order, k), order[k])
    }

    /// The state is safe: some order lets every task finish.
    pub open spec fn safe(self) -> bool {
        exists|order: Seq<int>| self.is_safe_order(order)
    }
}

/// The claims read off the three executable tables.
pub open spec fn claims_of(
    available: Seq<isize>,
    allocation: Seq<Vec<isize>>,
    need: Seq<Vec<isize>>,
) -> Claims {
    Claims { available: ints(available), allocation: int_rows(allocation), need: int_rows(need) }
}

/// The finished marks `fin` with the tasks listed in `t` added.
pub open spec fn with_done(fin: Seq<bool>, t: Seq<int>) -> Seq<bool> {
    Seq::new(fin.len(), |i: int| fin[i] || t.contains(i))
}

proof fn lemma_contains_cons(i: int, t: Seq<int>, x: int)
    ensures
        (seq![i] + t).contains(x) <==> (x == i || t.contains(x)),
{
    let s = seq![i] + t;
    if s.contains(x) {
        let idx = choose|idx: int| 0 <= idx < s.len() && s[idx] == x;
        if idx > 0 {
            assert(t[idx - 1] == x);
        }
    }
    if x == i {
        assert(s[0] == x);
    }
    if t.contains(x) {
        let idx = choose|idx: int| 0 <= idx < t.len() && t[idx] == x;
        assert(s[idx + 1] == x);
    }
}

impl Claims {
    /// Finishing task `i` releases exactly what it holds.
    pub proof fn lemma_released_set(self, fin: Seq<bool>, i: int, j: int, k: int)
        requires
            0 <= i < fin.len(),
            !fin[i],
            k <= fin.len(),
        ensures
            self.released(fin.update(i, true), j, k) == self.released(fin, j, k) + if i < k {
                self.allocation[i][j]
            } else {
                0
            },
        decreases k,
    {
        if k > 0 {
            self.lemma_released_set(fin, i, j, k - 1);
        }
    }

    /// With non-negative holdings, more finished tasks release no less.
    pub proof fn lemma_released_mono(self, f1: Seq<bool>, f2: Seq<bool>, j: int, k: int)
        requires
            forall|i: int| 0 <= i < k ==> f1[i] ==> f2[i],
            forall|i: int| 0 <= i < k ==> self.allocation[i][j] >= 0,
        ensures
            self.released(f1, j, k) <= self.released(f2, j, k),
        decreases k,
    {
        if k > 0 {
            self.lemma_released_mono(f1, f2, j, k - 1);
        }
    }

    /// What `first_pick` finds: the lowest runnable task from `from` on.
    pub proof fn lemma_first_pick(self, fin: Seq<bool>, from: int)
        requires
            0 <= from,
        ensures
            match self.first_pick(fin, from) {
                Some(i) => from <= i < fin.len() && self.can_pick(fin, i) && forall|k: int|
                    from <= k < i ==> !#[trigger] self.can_pick(fin, k),
                None => forall|k: int| from <= k < fin.len() ==> !#[trigger] self.can_pick(fin, k),
            },
        decreases fin.len() - from,
    {
        if from < fin.len() && !self.can_pick(fin, from) {
            self.lemma_first_pick(fin, from + 1);
        }
    }

    /// `greedy_final` stops where no unfinished task can run, keeps the
    /// length, and keeps every task that had finished.
    pub proof fn lemma_greedy_fixpoint(self, fin: Seq<bool>)
        ensures
            self.first_pick(self.greedy_final(fin), 0) is None,
            self.greedy_final(fin).len() == fin.len(),
            forall|i: int| 0 <= i < fin.len() && fin[i] ==> self.greedy_final(fin)[i],
        decreases count_false(fin),
    {
        self.lemma_first_pick(fin, 0);
        match self.first_pick(fin, 0) {
            Some(i) => {
                lemma_count_false_set(fin, i);
                let f2 = fin.update(i, true);
                self.lemma_greedy_fixpoint(f2);
                assert forall|k: int| 0 <= k < fin.len() && fin[k] implies self.greedy_final(fin)[k] by {
                    assert(f2[k]);
                }
            },
            None => {},
        }
    }

    /// The greedy order lists distinct unfinished tasks, each runnable once
    /// the ones before it finished, and its tasks are exactly the ones it
    /// adds to `fin`.
    pub proof fn lemma_greedy_trace(self, fin: Seq<bool>)
        ensures
            self.greedy_order(fin).no_duplicates(),
            forall|k: int|
                0 <= k < self.greedy_order(fin).len() ==> {
                    let x = #[trigger] self.greedy_order(fin)[k];
                    &&& 0 <= x < fin.len()
                    &&& !fin[x]
                    &&& self.runnable(with_done(fin, self.greedy_order(fin).take(k)), x)
                },
            self.greedy_final(fin) == with_done(fin, self.greedy_order(fin)),
        decreases count_false(fin),
    {
        self.lemma_first_pick(fin, 0);
        match self.first_pick(fin, 0) {
            Some(i) => {
                lemma_count_false_set(fin, i);
                let f2 = fin.update(i, true);
                self.lemma_greedy_trace(f2);
                let t = self.greedy_order(f2);
                let s = self.greedy_order(fin);
                assert(s == seq![i] + t);
                assert forall|a: int, b: int| 0 <= a < b < s.len() implies s[a] != s[b] by {
                    if a > 0 {
                        assert(s[a] == t[a - 1] && s[b] == t[b - 1]);
                    } else {
                        assert(s[b] == t[b - 1]);
                        assert(!f2[t[b - 1]]);
                    }
                }
                assert forall|k: int| 0 <= k < s.len() implies {
                    let x = #[trigger] s[k];
                    &&& 0 <= x < fin.len()
                    &&& !fin[x]
                    &&& self.runnable(with_done(fin, s.take(k)), x)
                } by {
                    if k == 0 {
                        assert(with_done(fin, s.take(0)) =~= fin);
                    } else {
                        assert(s[k] == t[k - 1]);
                        assert(s.take(k) =~= seq![i] + t.take(k - 1));
                        assert forall|x: int| 0 <= x < fin.len() implies with_done(fin, s.take(k))[x]
                            == with_done(f2, t.take(k - 1))[x] by {
                            lemma_contains_cons(i, t.take(k - 1), x);
                        }
                        assert(with_done(fin, s.take(k)) =~= with_done(f2, t.take(k - 1)));
                    }
                }
                assert forall|x: int| 0 <= x < fin.len() implies with_done(fin, s)[x] == with_done(
                    f2,
                    t,
                )[x] by {
                    lemma_contains_cons(i, t, x);
                }
                assert(with_done(fin, s) =~= with_done(f2, t));
            },
            None => {
                assert(with_done(fin, Seq::empty()) =~= fin);
            },
        }
    }

    /// Soundness of the check: when the greedy run finishes every task, the
    /// order it used is a safe order, so the state is safe.
    pub proof fn lemma_greedy_sound(self)
        requires
            self.wf(),
            self.greedy_completes(),
        ensures
            self.is_safe_order(self.greedy_order(self.none_done())),
            self.safe(),
    {
        let f0 = self.none_done();
        let s = self.greedy_order(f0);
        self.lemma_greedy_trace(f0);
        let g = self.greedy_final(f0);
        assert forall|i: int| 0 <= i < self.n() implies #[trigger] s.contains(i) by {
            assert(g[i]);
        }
        assert forall|k: int| 0 <= k < s.len() implies #[trigger] self.runnable(
            self.done_before(s, k),
            s[k],
        ) by {
            assert(self.done_before(s, k) =~= with_done(f0, s.take(k)));
        }
        assert(self.is_safe_order(s));
    }

    proof fn lemma_first_unfinished(
        self,
        order: Seq<int>,
        g: Seq<bool>,
        from: int,
        k0: int,
    ) -> (k: int)
        requires
            0 <= from <= k0 < order.len(),
            !g[order[k0]],
            forall|t: int| 0 <= t < from ==> g[#[trigger] order[t]],
        ensures
            0 <= k <= k0,
            !g[order[k]],
            forall|t: int| 0 <= t < k ==> g[#[trigger] order[t]],
        decreases k0 - from,
    {
        if !g[order[from]] {
            from
        } else {
            self.lemma_first_unfinished(order, g, from + 1, k0)
        }
    }

    /// Completeness of the check: with non-negative holdings, a safe state
    /// is always recognised, whichever safe order witnesses it.
    pub proof fn lemma_greedy_complete(self, order: Seq<int>)
        requires
            self.wf(),
            self.nonneg(),
            self.is_safe_order(order),
        ensures
            self.greedy_completes(),
    {
        let f0 = self.none_done();
        let g = self.greedy_final(f0);
        self.lemma_greedy_fixpoint(f0);
        self.lemma_first_pick(g, 0);
        if !all_true(g) {
            let u = choose|u: int| 0 <= u < g.len() && !g[u];
            assert(order.contains(u));
            let k0 = choose|k0: int| 0 <= k0 < order.len() && order[k0] == u;
            let k = self.lemma_first_unfinished(order, g, 0, k0);
            let x = order[k];
            let d = self.done_before(order, k);
            assert forall|i: int| 0 <= i < self.n() && d[i] implies g[i] by {
                let t = choose|t: int| 0 <= t < order.take(k).len() && order.take(k)[t] == i;
                assert(order[t] == i);
            }
            assert forall|j: int| 0 <= j < self.m() implies #[trigger] self.need[x][j] <= self.work(
                g,
                j,
            ) by {
                assert(self.runnable(d, x));
                self.lemma_released_mono(d, g, j, self.n());
            }
            assert(self.can_pick(g, x));
        }
    }

    /// Against every safe state the check is right: with non-negative
    /// holdings the greedy run finishes every task exactly when some order
    /// would.
    pub proof fn lemma_greedy_exact(self)
        requires
            self.wf(),
            self.nonneg(),
        ensures
            self.greedy_completes() <==> self.safe(),
    {
        if self.greedy_completes() {
            self.lemma_greedy_sound();
        }
        if self.safe() {
            let order = choose|order: Seq<int>| self.is_safe_order(order);
            self.lemma_greedy_complete(order);
        }
    }
}

impl Claims {
    /// Tasks that have not finished release nothing.
    pub proof fn lemma_released_none(self, j: int, k: int)
        requires
            0 <= k <= self.n(),
        ensures
            self.released(self.none_done(), j, k) == 0,
        decreases k,
    {
        if k > 0 {
            self.lemma_released_none(j, k - 1);
        }
    }
}

impl Claims {
    /// The greedy run lets the lowest-numbered runnable task finish first
    /// and goes on from there, and stops, changing nothing, when no
    /// unfinished task can run.
    pub proof fn lemma_greedy_step(self, fin: Seq<bool>, i: int)
        requires
            self.can_pick(fin, i),
            forall|k: int| 0 <= k < i ==> !#[trigger] self.can_pick(fin, k),
        ensures
            self.first_pick(fin, 0) == Some(i),
            self.greedy_final(fin) == self.greedy_final(fin.update(i, true)),
            self.greedy_order(fin) == seq![i] + self.greedy_order(fin.update(i, true)),
    {
        self.lemma_first_pick(fin, 0);
        match self.first_pick(fin, 0) {
            Some(j) => {
                if j < i {
                    assert(!self.can_pick(fin, j));
                } else if i < j {
                    assert(!self.can_pick(fin, i));
                }
            },
            None => {
                assert(!self.can_pick(fin, i));
            },
        }
    }

    /// A task can run exactly when, for every resource, the units it waits
    /// for are at most the free units plus what the finished tasks hold; a
    /// need equal to the free units is met.
    pub proof fn lemma_runnable_law(self, fin: Seq<bool>, i: int)
        ensures
            self.runnable(fin, i) <==> forall|j: int|
                0 <= j < self.m() ==> #[trigger] self.need[i][j] <= self.available[j] + self.released(
                    fin,
                    j,
                    fin.len() as int,
                ),
            (forall|j: int|
                0 <= j < self.m() ==> #[trigger] self.need[i][j] == self.available[j] + self.released(
                    fin,
                    j,
                    fin.len() as int,
                )) ==> self.runnable(fin, i),
            self.none_done().len() == self.n(),
            forall|k: int| 0 <= k < self.n() ==> !#[trigger] self.none_done()[k],
    {
        assert forall|j: int| 0 <= j < self.m() implies #[trigger] self.work(fin, j) == self.available[j]
            + self.released(fin, j, fin.len() as int) by {
        }
    }

    /// When no unfinished task can run, the greedy run changes nothing.
    pub proof fn lemma_greedy_stop(self, fin: Seq<bool>)
        requires
            forall|k: int| 0 <= k < fin.len() ==> !#[trigger] self.can_pick(fin, k),
        ensures
            self.greedy_final(fin) == fin,
            self.greedy_order(fin) == Seq::<int>::empty(),
    {
        self.lemma_first_pick(fin, 0);
        match self.first_pick(fin, 0) {
            Some(j) => {
                assert(!self.can_pick(fin, j));
            },
            None => {},
        }
    }
}

/// What finished tasks release depends on the holdings alone.
pub proof fn lemma_released_same(c: Claims, c2: Claims, fin: Seq<bool>, j: int, k: int)
    requires
        c2.allocation == c.allocation,
    ensures
        c2.released(fin, j, k) == c.released(fin, j, k),
    decreases k,
{
    if k > 0 {
        lemma_released_same(c, c2, fin, j, k - 1);
    }
}

/// More free units never turn a state that the check finds free of
/// deadlock into one it finds deadlocked: every safe order stays safe, and
/// with non-negative holdings the check still completes.
pub proof fn lemma_more_available(c: Claims, c2: Claims, order: Seq<int>)
    requires
        c.wf(),
        c2.allocation == c.allocation,
        c2.need == c.need,
        c2.available.len() == c.available.len(),
        forall|j: int| 0 <= j < c.m() ==> c.available[j] <= #[trigger] c2.available[j],
    ensures
        c.is_safe_order(order) ==> c2.is_safe_order(order),
        c.nonneg() && c.greedy_completes() ==> c2.greedy_completes(),
{
    if c.is_safe_order(order) {
        assert forall|k: int| 0 <= k < order.len() implies #[trigger] c2.runnable(
            c2.done_before(order, k),
            order[k],
        ) by {
            assert(c.runnable(c.done_before(order, k), order[k]));
            assert(c2.done_before(order, k) == c.done_before(order, k));
            assert forall|j: int| 0 <= j < c2.m() implies #[trigger] c2.need[order[k]][j] <= c2.work(
                c2.done_before(order, k),
                j,
            ) by {
                assert(c.need[order[k]][j] <= c.work(c.done_before(order, k), j));
                lemma_released_same(c, c2, c.done_before(order, k), j, c.n());
            }
        }
    }
    if c.nonneg() && c.greedy_completes() {
        c.lemma_greedy_sound();
        let o = c.greedy_order(c.none_done());
        assert(c.is_safe_order(o));
        assert forall|k: int| 0 <= k < o.len() implies #[trigger] c2.runnable(
            c2.done_before(o, k),
            o[k],
        ) by {
            assert(c.runnable(c.done_before(o, k), o[k]));
            assert(c2.done_before(o, k) == c.done_before(o, k));
            assert forall|j: int| 0 <= j < c2.m() implies #[trigger] c2.need[o[k]][j] <= c2.work(
                c2.done_before(o, k),
                j,
            ) by {
                assert(c.need[o[k]][j] <= c.work(c.done_before(o, k), j));
                lemma_released_same(c, c2, c.done_before(o, k), j, c.n());
            }
        }
        assert(c2.is_safe_order(o));
        assert(c2.nonneg());
        c2.lemma_greedy_complete(o);
    }
}

/// Whether each of the first `work.len()` entries of `need_row` is at most
/// the matching entry of `work`.
fn need_fits(need_row: &Vec<isize>, work: &Vec<isize>) -> (r: bool)
    requires
        need_row.len() >= work.len(),
    ensures
        r == forall|j: int| 0 <= j < work.len() ==> need_row[j] <= work[j],
{
    let mut j: usize = 0;
    while j < work.len()
        invariant
            j <= work.len(),
            need_row.len() >= work.len(),
            forall|jj: int| 0 <= jj < j ==> need_row[jj] <= work[jj],
        decreases work.len() - j,
    {
        if need_row[j] > work[j] {
            return false;
        }
        j += 1;
    }
    true
}

/// Whether every task is marked finished.
fn all_finished(finished: &Vec<bool>) -> (r: bool)
    ensures
        r == all_true(finished@),
{
    let mut i: usize = 0;
    while i < finished.len()
        invariant
            i <= finished.len(),
            forall|k: int| 0 <= k < i ==> finished[k],
        decreases finished.len() - i,
    {
        if !finished[i] {
            return false;
        }
        i += 1;
    }
    true
}

/// Adds `row` to `work`, entry by entry.
fn release(work: &mut Vec<isize>, row: &Vec<isize>)
    requires
        row.len() >= old(work).len(),
        forall|j: int|
            0 <= j < old(work).len() ==> isize::MIN <= #[trigger] old(work)[j] + row[j] <= isize::MAX,
    ensures
        final(work).len() == old(work).len(),
        forall|j: int| 0 <= j < old(work).len() ==> final(work)[j] == old(work)[j] + row[j],
{
    let ghost w0 = work@;
    let mut j: usize = 0;
    while j < work.len()
        invariant
            j <= work.len(),
            work.len() == w0.len(),
            row.len() >= w0.len(),
            forall|jj: int| 0 <= jj < w0.len() ==> isize::MIN <= #[trigger] w0[jj] + row[jj] <= isize::MAX,
            forall|jj: int| 0 <= jj < j ==> work[jj] == w0[jj] + row[jj],
            forall|jj: int| j <= jj < w0.len() ==> work[jj] == w0[jj],
        decreases work.len() - j,
    {
        assert(work[j as int] == w0[j as int]);
        let v = work[j] + row[j];
        work[j] = v;
        j += 1;
    }
}

/// The lowest-numbered unfinished task whose need the free units `work`
/// cover.
fn first_runnable(
    available: &Vec<isize>,
    allocation: &Vec<Vec<isize>>,
    need: &Vec<Vec<isize>>,
    finished: &Vec<bool>,
    work: &Vec<isize>,
) -> (r: Option<usize>)
    requires
        claims_of(available@, allocation@, need@).wf(),
        finished.len() == allocation.len(),
        work.len() == available.len(),
        forall|j: int|
            0 <= j < available.len() ==> work[j] == claims_of(available@, allocation@, need@).work(
                finished@,
                j,
            ),
    ensures
        match r {
            Some(i) => claims_of(available@, allocation@, need@).first_pick(finished@, 0) == Some(
                i as int,
            ),
            None => claims_of(available@, allocation@, need@).first_pick(finished@, 0) is None,
        },
{
    let ghost c = claims_of(available@, allocation@, need@);
    let mut i: usize = 0;
    while i < finished.len()
        invariant
            c == claims_of(available@, allocation@, need@),
            c.wf(),
            i <= finished.len(),
            finished.len() == allocation.len(),
            work.len() == available.len(),
            forall|j: int| 0 <= j < available.len() ==> work[j] == c.work(finished@, j),
            c.first_pick(finished@, 0) == c.first_pick(finished@, i as int),
        decreases finished.len() - i,
    {
        assert(c.need[i as int] == ints(need@[i as int]@));
        assert(c.need[i as int].len() >= c.m());
        if !finished[i] && need_fits(&need[i], work) {
            assert(c.can_pick(finished@, i as int));
            return Some(i);
        }
        assert(!c.can_pick(finished@, i as int)) by {
            if !finished[i as int] {
                let j = choose|j: int| 0 <= j < work.len() && !(need@[i as int][j] <= work[j]);
                assert(c.need[i as int][j] == need@[i as int][j]);
            }
        }
        i += 1;
    }
    None
}

/// Deadlock detection: `true` when letting the lowest-numbered task whose
/// need the free units cover finish, again and again, stops before every
/// task has finished. `available[j]` counts the free units of resource `j`;
/// row `i` of `allocation` and of `need` counts the units of each resource
/// that task `i` holds and waits for.
pub fn have_deadlock(
    available: &Vec<isize>,
    allocation: &Vec<Vec<isize>>,
    need: &Vec<Vec<isize>>,
) -> (deadlock: bool)
    requires
        claims_of(available@, allocation@, need@).wf(),
        claims_of(available@, allocation@, need@).greedy_fits(
            claims_of(available@, allocation@, need@).none_done(),
        ),
    ensures
        deadlock == !claims_of(available@, allocation@, need@).greedy_completes(),
        claims_of(available@, allocation@, need@).nonneg() ==> (deadlock <==> !claims_of(
            available@,
            allocation@,
            need@,
        ).safe()),
{
    let ghost c = claims_of(available@, allocation@, need@);
    proof {
        if c.nonneg() {
            c.lemma_greedy_exact();
        }
    }
    let n = allocation.len();
    let m = available.len();
    let mut work: Vec<isize> = Vec::new();
    let mut j: usize = 0;
    while j < m
        invariant
            j <= m,
            m == available.len(),
            work@ == available@.take(j as int),
        decreases m - j,
    {
        work.push(available[j]);
        j += 1;
    }
    let mut finished: Vec<bool> = Vec::new();
    let mut i: usize = 0;
    while i < n
        invariant
            i <= n,
            finished@ == Seq::new(i as nat, |k: int| false),
        decreases n - i,
    {
        finished.push(false);
        i += 1;
    }
    assert(finished@ == c.none_done());
    assert forall|jj: int| 0 <= jj < m implies work[jj] == c.work(finished@, jj) by {
        c.lemma_released_none(jj, c.n());
    }
    let mut stuck = false;
    while !stuck
        invariant
            c == claims_of(available@, allocation@, need@),
            c.wf(),
            c.greedy_fits(finished@),
            n == allocation.len(),
            m == available.len(),
            finished.len() == n,
            work.len() == m,
            forall|jj: int| 0 <= jj < m ==> work[jj] == c.work(finished@, jj),
            c.greedy_final(finished@) == c.greedy_final(c.none_done()),
            stuck ==> !c.greedy_completes(),
            c.nonneg() ==> (c.greedy_completes() <==> c.safe()),
        decreases count_false(finished@) + if stuck {
            0nat
        } else {
            1nat
        },
    {
        let pick = first_runnable(available, allocation, need, &finished, &work);
        proof {
            c.lemma_first_pick(finished@, 0);
        }
        match pick {
            Some(k) => {
                let ghost f0 = finished@;
                let ghost f1 = f0.update(k as int, true);
                proof {
                    lemma_count_false_set(f0, k as int);
                    assert(c.greedy_final(f1) == c.greedy_final(f0));
                    assert(c.greedy_fits(f1));
                    assert(c.work_fits(f1));
                    assert forall|jj: int| 0 <= jj < m implies isize::MIN <= #[trigger] work[jj]
                        + allocation[k as int][jj] <= isize::MAX && work[jj] + allocation[k as int][jj]
                        == c.work(f1, jj) by {
                        c.lemma_released_set(f0, k as int, jj, n as int);
                        assert(c.allocation[k as int] == ints(allocation@[k as int]@));
                        assert(work[jj] + allocation[k as int][jj] == c.work(f1, jj));
                        assert(isize::MIN <= c.work(f1, jj) <= isize::MAX);
                    }
                    assert(c.allocation[k as int].len() >= c.m());
                }
                finished[k] = true;
                release(&mut work, &allocation[k]);
                assert(finished@ == f1);
            },
            None => {},
        }
        if all_finished(&finished) {
            proof {
                c.lemma_first_pick(finished@, 0);
            }
            return false;
        }
        if pick.is_none() {
            stuck = true;
        }
    }
    true
}

} // verus!
