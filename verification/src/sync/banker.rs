//! Resource bookkeeping for deadlock detection, and the banker's algorithm.
//!
//! A ledger records, for one kind of resource (all mutexes of a process, or
//! all its semaphores), how many units of each resource are free, how many
//! each thread holds, and how many each thread waits for.

use vstd::prelude::*;
use crate::config::DEADLOCK;

verus! {

/// The mathematical content of a ledger.
pub struct LedgerView {
    /// The largest value any counter may take (1 for mutexes).
    pub limit: nat,
    /// `available[r]`: free units of resource `r`.
    pub available: Seq<nat>,
    /// `allocation[t][r]`: units of `r` that thread `t` holds.
    pub allocation: Seq<Seq<nat>>,
    /// `need[t][r]`: units of `r` that thread `t` waits for.
    pub need: Seq<Seq<nat>>,
}

impl LedgerView {
    /// Number of rows: one per thread.
    pub open spec fn threads(self) -> nat {
        self.allocation.len()
    }

    /// Number of columns: one per resource.
    pub open spec fn resources(self) -> nat {
        self.available.len()
    }

    /// Both matrices have a row per thread and a column per resource, and no
    /// counter exceeds the limit.
    pub open spec fn wf(self) -> bool {
        &&& self.need.len() == self.allocation.len()
        &&& forall|t: int|
            0 <= t < self.threads() ==> (#[trigger] self.allocation[t]).len()
                == self.resources()
        &&& forall|t: int|
            0 <= t < self.threads() ==> (#[trigger] self.need[t]).len() == self.resources()
        &&& forall|r: int| 0 <= r < self.resources() ==> #[trigger] self.available[r] <= self.limit
        &&& forall|t: int, r: int|
            0 <= t < self.threads() && 0 <= r < self.resources() ==> #[trigger] self.allocation[t][r]
                <= self.limit
        &&& forall|t: int, r: int|
            0 <= t < self.threads() && 0 <= r < self.resources() ==> #[trigger] self.need[t][r]
                <= self.limit
    }

    /// Units of resource `r` held by those threads below `upto` that are in `among`.
    pub open spec fn held(self, among: Set<int>, r: int, upto: int) -> nat
        decreases upto,
    {
        if upto <= 0 {
            0
        } else {
            let rest = self.held(among, r, upto - 1);
            if among.contains(upto - 1) {
                rest + self.allocation[upto - 1][r]
            } else {
                rest
            }
        }
    }

    /// All units of resource `r`: the free ones and those held by any thread.
    pub open spec fn total(self, r: int) -> nat {
        self.available[r] + self.held(Set::full(), r, self.threads() as int)
    }

    /// Free units of `r` once the threads in `finished` have returned what they hold.
    pub open spec fn work_after(self, finished: Set<int>, r: int) -> nat {
        self.available[r] + self.held(finished, r, self.threads() as int)
    }

    /// Thread `t` can obtain everything it waits for once `finished` have returned
    /// their holdings.
    pub open spec fn can_finish(self, t: int, finished: Set<int>) -> bool {
        forall|r: int|
            0 <= r < self.resources() ==> #[trigger] self.need[t][r] <= self.work_after(
                finished,
                r,
            )
    }

    /// `order` lets every thread run to completion: each thread occurs in it,
    /// and each entry can finish with what is free after the entries before it.
    pub open spec fn safe_order(self, order: Seq<int>) -> bool {
        &&& forall|t: int| 0 <= t < self.threads() ==> order.contains(t)
        &&& forall|k: int|
            0 <= k < order.len() ==> 0 <= #[trigger] order[k] < self.threads()
                && self.can_finish(order[k], order.take(k).to_set())
    }

    /// The state is safe: some order lets every thread finish.
    pub open spec fn is_safe(self) -> bool {
        exists|order: Seq<int>| self.safe_order(order)
    }

    /// The more threads have finished, the more units have come back.
    pub proof fn lemma_held_monotone(self, a: Set<int>, b: Set<int>, r: int, upto: int)
        requires
            a.subset_of(b),
        ensures
            self.held(a, r, upto) <= self.held(b, r, upto),
        decreases upto,
    {
        if upto > 0 {
            self.lemma_held_monotone(a, b, r, upto - 1);
        }
    }

    /// A thread that joins the finished ones brings back exactly what it holds.
    pub proof fn lemma_held_insert(self, among: Set<int>, t: int, r: int, upto: int)
        requires
            !among.contains(t),
        ensures
            self.held(among.insert(t), r, upto) == self.held(among, r, upto) + (if 0 <= t
                < upto {
                self.allocation[t][r]
            } else {
                0
            }),
        decreases upto,
    {
        if upto > 0 {
            self.lemma_held_insert(among, t, r, upto - 1);
        }
    }

    /// Holdings depend only on the column of the resource asked about.
    pub proof fn lemma_held_same_column(
        self,
        other: LedgerView,
        among: Set<int>,
        r: int,
        upto: int,
    )
        requires
            forall|t: int|
                0 <= t < upto ==> #[trigger] self.allocation[t][r] == other.allocation[t][r],
        ensures
            self.held(among, r, upto) == other.held(among, r, upto),
        decreases upto,
    {
        if upto > 0 {
            self.lemma_held_same_column(other, among, r, upto - 1);
        }
    }

    /// Changing what one thread holds of `r` changes the holdings by the same amount.
    pub proof fn lemma_held_one_changed(
        self,
        other: LedgerView,
        among: Set<int>,
        who: int,
        r: int,
        upto: int,
    )
        requires
            forall|t: int|
                0 <= t < upto && t != who ==> #[trigger] self.allocation[t][r]
                    == other.allocation[t][r],
        ensures
            self.held(among, r, upto) + (if 0 <= who < upto && among.contains(who) {
                other.allocation[who][r]
            } else {
                0
            }) == other.held(among, r, upto) + (if 0 <= who < upto && among.contains(who) {
                self.allocation[who][r]
            } else {
                0
            }),
        decreases upto,
    {
        if upto > 0 {
            self.lemma_held_one_changed(other, among, who, r, upto - 1);
        }
    }
}

/// A counter raised by one, unless it already stands at the limit.
pub open spec fn raised(x: nat, limit: nat) -> nat {
    if x < limit {
        x + 1
    } else {
        x
    }
}

/// A counter lowered by one, unless it already stands at zero.
pub open spec fn lowered(x: nat) -> nat {
    if x > 0 {
        (x - 1) as nat
    } else {
        0
    }
}

/// A row of `n` zeros.
pub open spec fn zeros(n: nat) -> Seq<nat> {
    Seq::new(n, |i: int| 0nat)
}

impl LedgerView {
    /// The ledger with `x` free units of resource `r`.
    pub open spec fn set_available(self, r: int, x: nat) -> LedgerView {
        LedgerView { available: self.available.update(r, x), ..self }
    }

    /// The ledger with thread `t` holding `x` units of resource `r`.
    pub open spec fn set_allocation(self, t: int, r: int, x: nat) -> LedgerView {
        LedgerView {
            allocation: self.allocation.update(t, self.allocation[t].update(r, x)),
            ..self
        }
    }

    /// The ledger with thread `t` waiting for `x` units of resource `r`.
    pub open spec fn set_need(self, t: int, r: int, x: nat) -> LedgerView {
        LedgerView { need: self.need.update(t, self.need[t].update(r, x)), ..self }
    }

    /// A new thread: one more row, holding and waiting for nothing.
    pub open spec fn add_thread(self) -> LedgerView {
        LedgerView {
            allocation: self.allocation.push(zeros(self.resources())),
            need: self.need.push(zeros(self.resources())),
            ..self
        }
    }

    /// A new resource with `initial` free units: one more column.
    pub open spec fn add_resource(self, initial: nat) -> LedgerView {
        LedgerView {
            limit: self.limit,
            available: self.available.push(initial),
            allocation: Seq::new(self.allocation.len(), |t: int| self.allocation[t].push(0)),
            need: Seq::new(self.need.len(), |t: int| self.need[t].push(0)),
        }
    }

    /// Resource `r` starts over with `initial` free units, held and awaited by nobody.
    pub open spec fn reset_resource(self, r: int, initial: nat) -> LedgerView {
        LedgerView {
            limit: self.limit,
            available: self.available.update(r, initial),
            allocation: Seq::new(
                self.allocation.len(),
                |t: int| self.allocation[t].update(r, 0),
            ),
            need: Seq::new(self.need.len(), |t: int| self.need[t].update(r, 0)),
        }
    }

    /// The row of thread `t` starts over: it holds and waits for nothing.
    pub open spec fn reset_thread(self, t: int) -> LedgerView {
        LedgerView {
            allocation: self.allocation.update(t, zeros(self.resources())),
            need: self.need.update(t, zeros(self.resources())),
            ..self
        }
    }

    /// No thread holds or waits for anything; the free units are as they were.
    pub open spec fn all_idle(self) -> LedgerView {
        LedgerView {
            allocation: Seq::new(self.allocation.len(), |t: int| zeros(self.resources())),
            need: Seq::new(self.need.len(), |t: int| zeros(self.resources())),
            ..self
        }
    }

    /// Thread `t` takes a free unit of `r`: one unit moves from the free ones
    /// to its holdings, and it waits for `r` no longer.
    pub open spec fn acquire(self, t: int, r: int) -> LedgerView {
        self.set_available(r, lowered(self.available[r])).set_allocation(
            t,
            r,
            raised(self.allocation[t][r], self.limit),
        ).set_need(t, r, 0)
    }

    /// Thread `t` records that it waits for one more unit of `r`.
    pub open spec fn request(self, t: int, r: int) -> LedgerView {
        self.set_need(t, r, raised(self.need[t][r], self.limit))
    }

    /// Thread `t` takes back a recorded demand for `r`.
    pub open spec fn withdraw(self, t: int, r: int) -> LedgerView {
        self.set_need(t, r, lowered(self.need[t][r]))
    }

    /// Thread `t` gives a unit of `r` back to the free ones.
    pub open spec fn release(self, t: int, r: int) -> LedgerView {
        self.set_allocation(t, r, lowered(self.allocation[t][r])).set_available(
            r,
            raised(self.available[r], self.limit),
        )
    }

    /// Thread `from` passes its unit of `r` straight to the waiting thread `to`;
    /// the free units stay as they are.
    pub open spec fn hand_over(self, from: int, to: int, r: int) -> LedgerView {
        let given = self.set_allocation(from, r, lowered(self.allocation[from][r]));
        given.set_allocation(to, r, raised(given.allocation[to][r], self.limit)).set_need(
            to,
            r,
            0,
        )
    }

    /// What one thread holds is part of what all threads hold.
    pub proof fn lemma_holding_within_total(self, t: int, r: int)
        requires
            0 <= t < self.threads(),
        ensures
            self.available[r] + self.allocation[t][r] <= self.total(r),
    {
        let n = self.threads() as int;
        lemma_held_of_nobody(self, r, n);
        self.lemma_held_insert(Set::empty(), t, r, n);
        self.lemma_held_monotone(Set::empty().insert(t), Set::full(), r, n);
    }

    /// Changing the holdings of resource `r` alone leaves every other total alone.
    pub proof fn lemma_other_totals(self, other: LedgerView, r: int, q: int)
        requires
            self.wf(),
            other.wf(),
            self.threads() == other.threads(),
            self.resources() == other.resources(),
            0 <= q < self.resources(),
            q != r,
            self.available[q] == other.available[q],
            forall|t: int|
                0 <= t < self.threads() ==> #[trigger] self.allocation[t][q]
                    == other.allocation[t][q],
        ensures
            self.total(q) == other.total(q),
    {
        self.lemma_held_same_column(other, Set::full(), q, self.threads() as int);
    }
}

/// Taking a free unit moves it from the free ones to a thread: as long as the
/// units of a resource fit the ledger's limit, no total changes.
pub proof fn lemma_acquire_keeps_totals(v: LedgerView, t: int, r: int, q: int)
    requires
        v.wf(),
        0 <= t < v.threads(),
        0 <= r < v.resources(),
        0 <= q < v.resources(),
        v.available[r] > 0,
        v.total(r) <= v.limit,
    ensures
        v.acquire(t, r).wf(),
        v.acquire(t, r).total(q) == v.total(q),
        v.acquire(t, r).allocation[t][r] == v.allocation[t][r] + 1,
        v.acquire(t, r).need[t][r] == 0,
{
    let w = v.acquire(t, r);
    let n = v.threads() as int;
    v.lemma_holding_within_total(t, r);
    lemma_updates_keep_wf(v, w);
    if q == r {
        v.lemma_held_one_changed(w, Set::full(), t, r, n);
    } else {
        v.lemma_other_totals(w, r, q);
    }
}

/// A holder that gives its unit back to the free ones keeps every total as it was.
pub proof fn lemma_release_keeps_totals(v: LedgerView, t: int, r: int, q: int)
    requires
        v.wf(),
        0 <= t < v.threads(),
        0 <= r < v.resources(),
        0 <= q < v.resources(),
        v.allocation[t][r] > 0,
        v.total(r) <= v.limit,
    ensures
        v.release(t, r).wf(),
        v.release(t, r).total(q) == v.total(q),
        v.release(t, r).available[r] == v.available[r] + 1,
{
    let w = v.release(t, r);
    let n = v.threads() as int;
    v.lemma_holding_within_total(t, r);
    lemma_updates_keep_wf(v, w);
    if q == r {
        v.lemma_held_one_changed(w, Set::full(), t, r, n);
    } else {
        v.lemma_other_totals(w, r, q);
    }
}

/// A holder that hands its unit to a waiter keeps every total as it was: the
/// holder has one unit less, the waiter one more, and the free units are as
/// before. The waiter then holds the resource and waits for it no longer.
pub proof fn lemma_hand_over_keeps_totals(v: LedgerView, from: int, to: int, r: int, q: int)
    requires
        v.wf(),
        0 <= from < v.threads(),
        0 <= to < v.threads(),
        0 <= r < v.resources(),
        0 <= q < v.resources(),
        v.allocation[from][r] > 0,
        v.total(r) <= v.limit,
    ensures
        v.hand_over(from, to, r).wf(),
        v.hand_over(from, to, r).total(q) == v.total(q),
        v.hand_over(from, to, r).available == v.available,
        v.hand_over(from, to, r).allocation[to][r] > 0,
        v.hand_over(from, to, r).need[to][r] == 0,
        from != to ==> v.hand_over(from, to, r).allocation[to][r] == v.allocation[to][r] + 1
            && v.hand_over(from, to, r).allocation[from][r] == v.allocation[from][r] - 1,
        from == to ==> v.hand_over(from, to, r).allocation[to][r] == v.allocation[to][r],
{
    let given = v.set_allocation(from, r, lowered(v.allocation[from][r]));
    let w = v.hand_over(from, to, r);
    let n = v.threads() as int;
    lemma_updates_keep_wf(v, given);
    lemma_updates_keep_wf(given, w);
    v.lemma_held_one_changed(given, Set::full(), from, r, n);
    given.lemma_holding_within_total(to, r);
    if q == r {
        given.lemma_held_one_changed(w, Set::full(), to, r, n);
    } else {
        v.lemma_other_totals(given, r, q);
        given.lemma_other_totals(w, r, q);
    }
}

/// Whoever wakes a waiter by handing a unit over leaves the waiter holding the
/// resource and waiting for it no longer, whether or not the giver held it.
pub proof fn lemma_hand_over_serves_waiter(v: LedgerView, from: int, to: int, r: int)
    requires
        v.wf(),
        0 <= from < v.threads(),
        0 <= to < v.threads(),
        0 <= r < v.resources(),
        v.limit >= 1,
    ensures
        v.hand_over(from, to, r).allocation[to][r] > 0,
        v.hand_over(from, to, r).need[to][r] == 0,
{
}

/// Recording or withdrawing a demand touches no total.
pub proof fn lemma_demand_keeps_totals(v: LedgerView, t: int, r: int, q: int)
    requires
        v.wf(),
        0 <= t < v.threads(),
        0 <= r < v.resources(),
        0 <= q < v.resources(),
    ensures
        v.request(t, r).total(q) == v.total(q),
        v.withdraw(t, r).total(q) == v.total(q),
        v.withdraw(t, r).wf(),
        v.request(t, r).wf(),
{
    let n = v.threads() as int;
    lemma_updates_keep_wf(v, v.request(t, r));
    lemma_updates_keep_wf(v, v.withdraw(t, r));
    v.lemma_held_same_column(v.request(t, r), Set::full(), q, n);
    v.lemma_held_same_column(v.withdraw(t, r), Set::full(), q, n);
}

/// A new thread holds nothing, so no total changes.
pub proof fn lemma_add_thread_keeps_totals(v: LedgerView, q: int)
    requires
        v.wf(),
        0 <= q < v.resources(),
    ensures
        v.add_thread().wf(),
        v.add_thread().total(q) == v.total(q),
{
    let w = v.add_thread();
    let n = v.threads() as int;
    assert(w.allocation[n][q] == 0);
    v.lemma_held_same_column(w, Set::full(), q, n);
}

/// A new resource starts with its initial units all free, and the other
/// resources keep their totals.
pub proof fn lemma_add_resource_totals(v: LedgerView, initial: nat, q: int)
    requires
        v.wf(),
        initial <= v.limit,
        0 <= q <= v.resources(),
    ensures
        v.add_resource(initial).wf(),
        v.add_resource(initial).total(q) == (if q == v.resources() {
            initial
        } else {
            v.total(q)
        }),
{
    let w = v.add_resource(initial);
    let n = v.threads() as int;
    if q == v.resources() {
        lemma_held_of_idle(w, Set::full(), q, n);
    } else {
        v.lemma_held_same_column(w, Set::full(), q, n);
    }
}

/// A resource that starts over has its initial units all free, and the other
/// resources keep their totals.
pub proof fn lemma_reset_resource_totals(v: LedgerView, r: int, initial: nat, q: int)
    requires
        v.wf(),
        initial <= v.limit,
        0 <= r < v.resources(),
        0 <= q < v.resources(),
    ensures
        v.reset_resource(r, initial).wf(),
        v.reset_resource(r, initial).total(q) == (if q == r {
            initial
        } else {
            v.total(q)
        }),
{
    let w = v.reset_resource(r, initial);
    let n = v.threads() as int;
    if q == r {
        lemma_held_of_idle(w, Set::full(), q, n);
    } else {
        v.lemma_held_same_column(w, Set::full(), q, n);
    }
}

/// Where no thread holds any of `r`, nothing of `r` is held.
proof fn lemma_held_of_idle(v: LedgerView, among: Set<int>, r: int, upto: int)
    requires
        forall|t: int| 0 <= t < upto ==> #[trigger] v.allocation[t][r] == 0,
    ensures
        v.held(among, r, upto) == 0,
    decreases upto,
{
    if upto > 0 {
        lemma_held_of_idle(v, among, r, upto - 1);
    }
}

/// A ledger stays well formed when counters change within the limit.
proof fn lemma_updates_keep_wf(v: LedgerView, w: LedgerView)
    requires
        v.wf(),
        w.limit == v.limit,
        w.available.len() == v.available.len(),
        w.allocation.len() == v.allocation.len(),
        w.need.len() == v.need.len(),
        forall|t: int|
            0 <= t < v.threads() ==> (#[trigger] w.allocation[t]).len() == v.allocation[t].len(),
        forall|t: int| 0 <= t < v.threads() ==> (#[trigger] w.need[t]).len() == v.need[t].len(),
        forall|r: int| 0 <= r < v.resources() ==> #[trigger] w.available[r] <= v.limit,
        forall|t: int, r: int|
            0 <= t < v.threads() && 0 <= r < v.resources() ==> #[trigger] w.allocation[t][r]
                <= v.limit,
        forall|t: int, r: int|
            0 <= t < v.threads() && 0 <= r < v.resources() ==> #[trigger] w.need[t][r] <= v.limit,
    ensures
        w.wf(),
{
}

/// The first position up to `last` in `order` whose thread is not in `finished`.
proof fn first_unfinished(order: Seq<int>, finished: Set<int>, last: int) -> (k: int)
    requires
        0 <= last < order.len(),
        !finished.contains(order[last]),
    ensures
        0 <= k <= last,
        !finished.contains(order[k]),
        forall|i: int| 0 <= i < k ==> finished.contains(order[i]),
    decreases last,
{
    if exists|i: int| 0 <= i < last && !finished.contains(order[i]) {
        let i = choose|i: int| 0 <= i < last && !finished.contains(order[i]);
        first_unfinished(order, finished, i)
    } else {
        last
    }
}

/// When some thread is unfinished and none of the unfinished ones can finish,
/// no order completes every thread.
pub proof fn lemma_stuck_is_unsafe(v: LedgerView, finished: Set<int>, waiting: int)
    requires
        0 <= waiting < v.threads(),
        !finished.contains(waiting),
        forall|t: int|
            0 <= t < v.threads() && !finished.contains(t) ==> !#[trigger] v.can_finish(
                t,
                finished,
            ),
    ensures
        !v.is_safe(),
{
    if v.is_safe() {
        let order = choose|order: Seq<int>| v.safe_order(order);
        assert(order.contains(waiting));
        let last = choose|i: int| 0 <= i < order.len() && order[i] == waiting;
        let k = first_unfinished(order, finished, last);
        let t = order[k];
        let before = order.take(k).to_set();
        assert(before.subset_of(finished)) by {
            assert forall|x: int| before.contains(x) implies finished.contains(x) by {
                let i = choose|i: int| 0 <= i < order.take(k).len() && order.take(k)[i] == x;
                assert(order[i] == x);
            }
        }
        assert(v.can_finish(t, before));
        assert forall|r: int| 0 <= r < v.resources() implies #[trigger] v.need[t][r]
            <= v.work_after(finished, r) by {
            v.lemma_held_monotone(before, finished, r, v.threads() as int);
            assert(v.need[t][r] <= v.work_after(before, r));
        }
        assert(v.can_finish(t, finished));
        assert(false);
    }
}

/// Number of threads not yet marked finished.
spec fn unfinished(finish: Seq<bool>) -> nat
    decreases finish.len(),
{
    if finish.len() == 0 {
        0
    } else {
        unfinished(finish.drop_last()) + if finish.last() {
            0nat
        } else {
            1nat
        }
    }
}

proof fn lemma_unfinished_drops(finish: Seq<bool>, t: int)
    requires
        0 <= t < finish.len(),
        !finish[t],
    ensures
        unfinished(finish.update(t, true)) + 1 == unfinished(finish),
    decreases finish.len(),
{
    let after = finish.update(t, true);
    if t == finish.len() - 1 {
        assert(after.drop_last() =~= finish.drop_last());
    } else {
        lemma_unfinished_drops(finish.drop_last(), t);
        assert(after.drop_last() =~= finish.drop_last().update(t, true));
    }
}

/// A sum cut off at the machine word.
pub open spec fn clamp(x: nat) -> nat {
    if x <= usize::MAX {
        x
    } else {
        usize::MAX as nat
    }
}

/// The bookkeeping of one kind of resource.
pub struct ResourceLedger {
    limit: usize,
    available: Vec<usize>,
    allocation: Vec<Vec<usize>>,
    need: Vec<Vec<usize>>,
}

impl View for ResourceLedger {
    type V = LedgerView;

    closed spec fn view(&self) -> LedgerView {
        LedgerView {
            limit: self.limit as nat,
            available: self.available@.map_values(|x: usize| x as nat),
            allocation: self.allocation@.map_values(
                |row: Vec<usize>| row@.map_values(|x: usize| x as nat),
            ),
            need: self.need@.map_values(|row: Vec<usize>| row@.map_values(|x: usize| x as nat)),
        }
    }
}

impl ResourceLedger {
    /// The matrices agree in shape, every counter is within the limit, and the
    /// limit is at least one.
    pub open spec fn wf(&self) -> bool {
        &&& self@.wf()
        &&& 1 <= self@.limit <= usize::MAX
    }

    /// An empty ledger: no thread, no resource.
    pub fn new(limit: usize) -> (ledger: Self)
        requires
            limit >= 1,
        ensures
            ledger.wf(),
            ledger@ == (LedgerView {
                limit: limit as nat,
                available: Seq::empty(),
                allocation: Seq::empty(),
                need: Seq::empty(),
            }),
    {
        let ledger = ResourceLedger {
            limit,
            available: Vec::new(),
            allocation: Vec::new(),
            need: Vec::new(),
        };
        assert(ledger@.available =~= Seq::empty());
        assert(ledger@.allocation =~= Seq::empty());
        assert(ledger@.need =~= Seq::empty());
        ledger
    }

    /// Number of threads the ledger has a row for.
    pub fn thread_count(&self) -> (n: usize)
        ensures
            n == self@.threads(),
    {
        self.allocation.len()
    }

    /// Number of resources the ledger has a column for.
    pub fn resource_count(&self) -> (n: usize)
        ensures
            n == self@.resources(),
    {
        self.available.len()
    }

    /// The largest value a counter may take.
    pub fn limit(&self) -> (n: usize)
        ensures
            n == self@.limit,
    {
        self.limit
    }

    /// Free units of resource `r`.
    pub fn available(&self, r: usize) -> (n: usize)
        requires
            r < self@.resources(),
        ensures
            n == self@.available[r as int],
    {
        self.available[r]
    }

    /// Units of `r` that thread `t` holds.
    pub fn allocation(&self, t: usize, r: usize) -> (n: usize)
        requires
            self.wf(),
            t < self@.threads(),
            r < self@.resources(),
        ensures
            n == self@.allocation[t as int][r as int],
    {
        assert(self@.allocation[t as int].len() == self@.resources());
        self.allocation[t][r]
    }

    /// Units of `r` that thread `t` waits for.
    pub fn need(&self, t: usize, r: usize) -> (n: usize)
        requires
            self.wf(),
            t < self@.threads(),
            r < self@.resources(),
        ensures
            n == self@.need[t as int][r as int],
    {
        assert(self@.need[t as int].len() == self@.resources());
        self.need[t][r]
    }

    fn set_available(&mut self, r: usize, x: usize)
        requires
            old(self).wf(),
            r < old(self)@.resources(),
            x <= old(self)@.limit,
        ensures
            final(self).wf(),
            final(self)@ == old(self)@.set_available(r as int, x as nat),
    {
        self.available[r] = x;
        proof {
            assert(self@.available =~= old(self)@.available.update(r as int, x as nat));
            assert(self@ == old(self)@.set_available(r as int, x as nat));
            lemma_updates_keep_wf(old(self)@, self@);
        }
    }

    fn set_allocation(&mut self, t: usize, r: usize, x: usize)
        requires
            old(self).wf(),
            t < old(self)@.threads(),
            r < old(self)@.resources(),
            x <= old(self)@.limit,
        ensures
            final(self).wf(),
            final(self)@ == old(self)@.set_allocation(t as int, r as int, x as nat),
    {
        assert(old(self)@.allocation[t as int].len() == old(self)@.resources());
        self.allocation[t][r] = x;
        proof {
            let want = old(self)@.set_allocation(t as int, r as int, x as nat);
            assert(self@.allocation.len() == want.allocation.len());
            assert forall|i: int| 0 <= i < self@.allocation.len() implies self@.allocation[i]
                =~= want.allocation[i] by {
                if i != t {
                    assert(self.allocation@[i] == old(self).allocation@[i]);
                }
            }
            assert(self@.allocation =~= want.allocation);
            assert(self@ == want);
            lemma_updates_keep_wf(old(self)@, self@);
        }
    }

    fn set_need(&mut self, t: usize, r: usize, x: usize)
        requires
            old(self).wf(),
            t < old(self)@.threads(),
            r < old(self)@.resources(),
            x <= old(self)@.limit,
        ensures
            final(self).wf(),
            final(self)@ == old(self)@.set_need(t as int, r as int, x as nat),
    {
        assert(old(self)@.need[t as int].len() == old(self)@.resources());
        self.need[t][r] = x;
        proof {
            let want = old(self)@.set_need(t as int, r as int, x as nat);
            assert(self@.need.len() == want.need.len());
            assert forall|i: int| 0 <= i < self@.need.len() implies self@.need[i]
                =~= want.need[i] by {
                if i != t {
                    assert(self.need@[i] == old(self).need@[i]);
                }
            }
            assert(self@.need =~= want.need);
            assert(self@ == want);
            lemma_updates_keep_wf(old(self)@, self@);
        }
    }

    /// Thread `t` takes a free unit of resource `r`.
    pub fn acquire(&mut self, t: usize, r: usize)
        requires
            old(self).wf(),
            t < old(self)@.threads(),
            r < old(self)@.resources(),
        ensures
            final(self).wf(),
            final(self)@ == old(self)@.acquire(t as int, r as int),
    {
        let free = self.available(r);
        self.set_available(r, free.saturating_sub(1));
        let held = self.allocation(t, r);
        let limit = self.limit;
        self.set_allocation(t, r, if held < limit { held + 1 } else { held });
        self.set_need(t, r, 0);
    }

    /// Thread `t` records that it waits for one more unit of resource `r`.
    pub fn request(&mut self, t: usize, r: usize)
        requires
            old(self).wf(),
            t < old(self)@.threads(),
            r < old(self)@.resources(),
        ensures
            final(self).wf(),
            final(self)@ == old(self)@.request(t as int, r as int),
    {
        let waiting = self.need(t, r);
        let limit = self.limit;
        self.set_need(t, r, if waiting < limit { waiting + 1 } else { waiting });
    }

    /// Thread `t` takes back a recorded demand for resource `r`.
    pub fn withdraw(&mut self, t: usize, r: usize)
        requires
            old(self).wf(),
            t < old(self)@.threads(),
            r < old(self)@.resources(),
        ensures
            final(self).wf(),
            final(self)@ == old(self)@.withdraw(t as int, r as int),
    {
        let waiting = self.need(t, r);
        self.set_need(t, r, waiting.saturating_sub(1));
    }

    /// Thread `t` gives a unit of resource `r` back to the free ones.
    pub fn release(&mut self, t: usize, r: usize)
        requires
            old(self).wf(),
            t < old(self)@.threads(),
            r < old(self)@.resources(),
        ensures
            final(self).wf(),
            final(self)@ == old(self)@.release(t as int, r as int),
    {
        let held = self.allocation(t, r);
        self.set_allocation(t, r, held.saturating_sub(1));
        let free = self.available(r);
        let limit = self.limit;
        self.set_available(r, if free < limit { free + 1 } else { free });
    }

    /// Thread `from` passes its unit of resource `r` straight to thread `to`.
    pub fn hand_over(&mut self, from: usize, to: usize, r: usize)
        requires
            old(self).wf(),
            from < old(self)@.threads(),
            to < old(self)@.threads(),
            r < old(self)@.resources(),
        ensures
            final(self).wf(),
            final(self)@ == old(self)@.hand_over(from as int, to as int, r as int),
    {
        let held = self.allocation(from, r);
        self.set_allocation(from, r, held.saturating_sub(1));
        let got = self.allocation(to, r);
        let limit = self.limit;
        self.set_allocation(to, r, if got < limit { got + 1 } else { got });
        self.set_need(to, r, 0);
    }

    /// Adds the row of a new thread and returns its index.
    pub fn add_thread(&mut self) -> (t: usize)
        requires
            old(self).wf(),
        ensures
            final(self).wf(),
            t == old(self)@.threads(),
            final(self)@ == old(self)@.add_thread(),
    {
        let m = self.available.len();
        let t = self.allocation.len();
        let holds = zero_row(m);
        let waits = zero_row(m);
        self.allocation.push(holds);
        self.need.push(waits);
        proof {
            let want = old(self)@.add_thread();
            assert(self@.available =~= want.available);
            assert forall|i: int| 0 <= i < self@.allocation.len() implies self@.allocation[i]
                =~= want.allocation[i] by {
                if i < t {
                    assert(self.allocation@[i] == old(self).allocation@[i]);
                }
            }
            assert forall|i: int| 0 <= i < self@.need.len() implies self@.need[i]
                =~= want.need[i] by {
                if i < t {
                    assert(self.need@[i] == old(self).need@[i]);
                }
            }
            assert(self@.allocation =~= want.allocation);
            assert(self@.need =~= want.need);
            assert(self@ == want);
            assert(self@.wf()) by {
                assert forall|i: int| 0 <= i < self@.threads() implies (
                #[trigger] self@.allocation[i]).len() == self@.resources() by {
                    if i < t {
                        assert(old(self)@.allocation[i].len() == m);
                    }
                }
                assert forall|i: int| 0 <= i < self@.threads() implies (
                #[trigger] self@.need[i]).len() == self@.resources() by {
                    if i < t {
                        assert(old(self)@.need[i].len() == m);
                    }
                }
                assert forall|i: int, r: int|
                    0 <= i < self@.threads() && 0 <= r < self@.resources() implies (
                #[trigger] self@.allocation[i][r]) <= self@.limit by {
                    if i < t {
                        assert(old(self)@.allocation[i][r] <= self@.limit);
                    }
                }
                assert forall|i: int, r: int|
                    0 <= i < self@.threads() && 0 <= r < self@.resources() implies (
                #[trigger] self@.need[i][r]) <= self@.limit by {
                    if i < t {
                        assert(old(self)@.need[i][r] <= self@.limit);
                    }
                }
                assert forall|r: int| 0 <= r < self@.resources() implies (
                #[trigger] self@.available[r]) <= self@.limit by {
                    assert(old(self)@.available[r] <= self@.limit);
                }
            }
        }
        t
    }

    /// Lets the row of thread `t` start over.
    pub fn reset_thread(&mut self, t: usize)
        requires
            old(self).wf(),
            t < old(self)@.threads(),
        ensures
            final(self).wf(),
            final(self)@ == old(self)@.reset_thread(t as int),
    {
        let m = self.available.len();
        self.allocation[t] = zero_row(m);
        self.need[t] = zero_row(m);
        proof {
            let want = old(self)@.reset_thread(t as int);
            assert forall|i: int| 0 <= i < self@.allocation.len() implies self@.allocation[i]
                =~= want.allocation[i] by {
                if i != t {
                    assert(self.allocation@[i] == old(self).allocation@[i]);
                }
            }
            assert forall|i: int| 0 <= i < self@.need.len() implies self@.need[i]
                =~= want.need[i] by {
                if i != t {
                    assert(self.need@[i] == old(self).need@[i]);
                }
            }
            assert(self@.allocation =~= want.allocation);
            assert(self@.need =~= want.need);
            assert(self@.available =~= want.available);
            assert(self@ == want);
            lemma_updates_keep_wf(old(self)@, self@);
        }
    }

    /// Lets every row start over: no thread holds or waits for anything.
    pub fn clear_threads(&mut self)
        requires
            old(self).wf(),
        ensures
            final(self).wf(),
            final(self)@ == old(self)@.all_idle(),
    {
        let n = self.allocation.len();
        let m = self.available.len();
        let mut t: usize = 0;
        while t < n
            invariant
                old(self).wf(),
                n == old(self).allocation@.len(),
                n == self.allocation@.len(),
                n == self.need@.len(),
                m == self.available@.len(),
                self.limit == old(self).limit,
                self.available@ == old(self).available@,
                t <= n,
                forall|i: int|
                    0 <= i < t ==> (#[trigger] self.allocation@[i])@ =~= Seq::new(
                        m as nat,
                        |j: int| 0usize,
                    ),
                forall|i: int|
                    0 <= i < t ==> (#[trigger] self.need@[i])@ =~= Seq::new(
                        m as nat,
                        |j: int| 0usize,
                    ),
            decreases n - t,
        {
            self.allocation[t] = zero_row(m);
            self.need[t] = zero_row(m);
            t = t + 1;
        }
        proof {
            let want = old(self)@.all_idle();
            assert(self@.available =~= want.available);
            assert forall|i: int| 0 <= i < self@.allocation.len() implies self@.allocation[i]
                =~= want.allocation[i] by {
                assert(self.allocation@[i]@ =~= Seq::new(m as nat, |j: int| 0usize));
            }
            assert forall|i: int| 0 <= i < self@.need.len() implies self@.need[i]
                =~= want.need[i] by {
                assert(self.need@[i]@ =~= Seq::new(m as nat, |j: int| 0usize));
            }
            assert(self@.allocation =~= want.allocation);
            assert(self@.need =~= want.need);
            assert(self@ == want);
            lemma_updates_keep_wf(old(self)@, self@);
        }
    }

    /// Adds the column of a new resource with `initial` free units and returns
    /// its index.
    pub fn add_resource(&mut self, initial: usize) -> (r: usize)
        requires
            old(self).wf(),
            initial <= old(self)@.limit,
        ensures
            final(self).wf(),
            r == old(self)@.resources(),
            final(self)@ == old(self)@.add_resource(initial as nat),
    {
        let n = self.allocation.len();
        let r = self.available.len();
        self.available.push(initial);
        let mut t: usize = 0;
        while t < n
            invariant
                old(self).wf(),
                n == old(self).allocation@.len(),
                n == self.allocation@.len(),
                n == self.need@.len(),
                self.limit == old(self).limit,
                self.available@ == old(self).available@.push(initial),
                t <= n,
                forall|i: int|
                    0 <= i < t ==> (#[trigger] self.allocation@[i])@ == old(
                        self,
                    ).allocation@[i]@.push(0),
                forall|i: int|
                    0 <= i < t ==> (#[trigger] self.need@[i])@ == old(self).need@[i]@.push(0),
                forall|i: int| t <= i < n ==> self.allocation@[i] == old(self).allocation@[i],
                forall|i: int| t <= i < n ==> self.need@[i] == old(self).need@[i],
            decreases n - t,
        {
            self.allocation[t].push(0);
            self.need[t].push(0);
            t = t + 1;
        }
        proof {
            let want = old(self)@.add_resource(initial as nat);
            assert(self@.available =~= want.available);
            assert forall|i: int| 0 <= i < self@.allocation.len() implies self@.allocation[i]
                =~= want.allocation[i] by {
                assert(self.allocation@[i]@ == old(self).allocation@[i]@.push(0));
            }
            assert forall|i: int| 0 <= i < self@.need.len() implies self@.need[i]
                =~= want.need[i] by {
                assert(self.need@[i]@ == old(self).need@[i]@.push(0));
            }
            assert(self@.allocation =~= want.allocation);
            assert(self@.need =~= want.need);
            assert(self@ == want);
            lemma_add_resource_totals(old(self)@, initial as nat, 0);
        }
        r
    }

    /// Lets resource `r` start over with `initial` free units.
    pub fn reset_resource(&mut self, r: usize, initial: usize)
        requires
            old(self).wf(),
            r < old(self)@.resources(),
            initial <= old(self)@.limit,
        ensures
            final(self).wf(),
            final(self)@ == old(self)@.reset_resource(r as int, initial as nat),
    {
        let n = self.allocation.len();
        self.available[r] = initial;
        let mut t: usize = 0;
        while t < n
            invariant
                old(self).wf(),
                r < old(self)@.resources(),
                n == old(self).allocation@.len(),
                n == self.allocation@.len(),
                n == self.need@.len(),
                self.limit == old(self).limit,
                self.available@ == old(self).available@.update(r as int, initial),
                t <= n,
                forall|i: int|
                    0 <= i < t ==> (#[trigger] self.allocation@[i])@ == old(
                        self,
                    ).allocation@[i]@.update(r as int, 0),
                forall|i: int|
                    0 <= i < t ==> (#[trigger] self.need@[i])@ == old(self).need@[i]@.update(
                        r as int,
                        0,
                    ),
                forall|i: int| t <= i < n ==> self.allocation@[i] == old(self).allocation@[i],
                forall|i: int| t <= i < n ==> self.need@[i] == old(self).need@[i],
            decreases n - t,
        {
            assert(old(self)@.allocation[t as int].len() == old(self)@.resources());
            assert(old(self)@.need[t as int].len() == old(self)@.resources());
            self.allocation[t][r] = 0;
            self.need[t][r] = 0;
            t = t + 1;
        }
        proof {
            let want = old(self)@.reset_resource(r as int, initial as nat);
            assert(self@.available =~= want.available);
            assert forall|i: int| 0 <= i < self@.allocation.len() implies self@.allocation[i]
                =~= want.allocation[i] by {
                assert(self.allocation@[i]@ == old(self).allocation@[i]@.update(r as int, 0));
            }
            assert forall|i: int| 0 <= i < self@.need.len() implies self@.need[i]
                =~= want.need[i] by {
                assert(self.need@[i]@ == old(self).need@[i]@.update(r as int, 0));
            }
            assert(self@.allocation =~= want.allocation);
            assert(self@.need =~= want.need);
            assert(self@ == want);
            lemma_reset_resource_totals(old(self)@, r as int, initial as nat, 0);
        }
    }

    /// Whether everything thread `t` waits for is covered by `work`.
    fn row_fits(&self, t: usize, work: &Vec<usize>) -> (fits: bool)
        requires
            self.wf(),
            t < self@.threads(),
            work@.len() == self@.resources(),
        ensures
            fits == (forall|r: int|
                0 <= r < self@.resources() ==> #[trigger] self@.need[t as int][r] <= work@[r]),
    {
        let m = work.len();
        let mut r: usize = 0;
        assert(self@.need[t as int].len() == self@.resources());
        while r < m
            invariant
                self.wf(),
                t < self@.threads(),
                m == work@.len(),
                m == self@.resources(),
                self.need@[t as int]@.len() == m,
                r <= m,
                forall|j: int| 0 <= j < r ==> #[trigger] self@.need[t as int][j] <= work@[j],
            decreases m - r,
        {
            if self.need[t][r] > work[r] {
                assert(self@.need[t as int][r as int] > work@[r as int]);
                return false;
            }
            r = r + 1;
        }
        true
    }

    /// Looks for a thread that is not finished and whose needs `work` covers.
    fn find_ready(&self, finish: &Vec<bool>, work: &Vec<usize>) -> (found: Option<usize>)
        requires
            self.wf(),
            finish@.len() == self@.threads(),
            work@.len() == self@.resources(),
        ensures
            match found {
                Some(t) => t < self@.threads() && !finish@[t as int] && forall|r: int|
                    0 <= r < self@.resources() ==> #[trigger] self@.need[t as int][r] <= work@[r],
                None => forall|t: int|
                    0 <= t < self@.threads() && !finish@[t] ==> exists|r: int|
                        0 <= r < self@.resources() && #[trigger] self@.need[t][r] > work@[r],
            },
    {
        let n = finish.len();
        let mut t: usize = 0;
        while t < n
            invariant
                self.wf(),
                n == finish@.len(),
                n == self@.threads(),
                work@.len() == self@.resources(),
                t <= n,
                forall|u: int|
                    0 <= u < t && !finish@[u] ==> exists|r: int|
                        0 <= r < self@.resources() && #[trigger] self@.need[u][r] > work@[r],
            decreases n - t,
        {
            if !finish[t] && self.row_fits(t, work) {
                return Some(t);
            }
            t = t + 1;
        }
        None
    }

    /// The banker's algorithm: 0 when the recorded state is safe, the deadlock
    /// sentinel when no order lets every thread finish.
    pub fn check_deadlock(&self) -> (code: isize)
        requires
            self.wf(),
        ensures
            code == (if self@.is_safe() {
                0isize
            } else {
                DEADLOCK
            }),
    {
        let n = self.allocation.len();
        let m = self.available.len();
        let mut work: Vec<usize> = Vec::new();
        let mut r: usize = 0;
        while r < m
            invariant
                m == self.available@.len(),
                r <= m,
                work@.len() == r,
                forall|j: int| 0 <= j < r ==> work@[j] == self.available@[j],
            decreases m - r,
        {
            work.push(self.available[r]);
            r = r + 1;
        }
        let mut finish: Vec<bool> = Vec::new();
        let mut t: usize = 0;
        while t < n
            invariant
                t <= n,
                finish@.len() == t,
                forall|j: int| 0 <= j < t ==> !finish@[j],
            decreases n - t,
        {
            finish.push(false);
            t = t + 1;
        }
        let ghost mut done: Seq<int> = Seq::empty();
        proof {
            assert(done.to_set() =~= Set::<int>::empty());
            assert forall|j: int| 0 <= j < m implies work@[j] == clamp(
                self@.work_after(done.to_set(), j),
            ) by {
                self@.lemma_held_monotone(Set::empty(), Set::empty(), j, n as int);
                lemma_held_of_nobody(self@, j, n as int);
            }
        }
        loop
            invariant
                self.wf(),
                n == self@.threads(),
                m == self@.resources(),
                work@.len() == m,
                finish@.len() == n,
                forall|k: int|
                    0 <= k < done.len() ==> 0 <= #[trigger] done[k] < n && self@.can_finish(
                        done[k],
                        done.take(k).to_set(),
                    ),
                forall|u: int| 0 <= u < n ==> (finish@[u] <==> done.contains(u)),
                forall|j: int|
                    0 <= j < m ==> #[trigger] work@[j] == clamp(
                        self@.work_after(done.to_set(), j),
                    ),
            ensures
                forall|u: int|
                    0 <= u < n && !finish@[u] ==> !self@.can_finish(u, done.to_set()),
            decreases unfinished(finish@),
        {
            let found = self.find_ready(&finish, &work);
            match found {
                None => {
                    proof {
                        assert forall|u: int| 0 <= u < n && !finish@[u] implies !self@.can_finish(
                            u,
                            done.to_set(),
                        ) by {
                            let j = choose|j: int|
                                0 <= j < self@.resources() && #[trigger] self@.need[u][j]
                                    > work@[j];
                            assert(work@[j] == clamp(self@.work_after(done.to_set(), j)));
                        }
                    }
                    break ;
                },
                Some(t) => {
                    let ghost old_work = work@;
                    let ghost old_done = done;
                    assert(self@.allocation[t as int].len() == m);
                    let mut j: usize = 0;
                    while j < m
                        invariant
                            self.wf(),
                            t < n,
                            n == self@.threads(),
                            m == self@.resources(),
                            self.allocation@[t as int]@.len() == m,
                            work@.len() == m,
                            old_work.len() == m,
                            j <= m,
                            forall|i: int|
                                0 <= i < j ==> #[trigger] work@[i] == clamp(
                                    (old_work[i] + self@.allocation[t as int][i]) as nat,
                                ),
                            forall|i: int| j <= i < m ==> work@[i] == old_work[i],
                        decreases m - j,
                    {
                        let sum = work[j].saturating_add(self.allocation[t][j]);
                        work[j] = sum;
                        j = j + 1;
                    }
                    proof {
                        lemma_unfinished_drops(finish@, t as int);
                    }
                    finish[t] = true;
                    proof {
                        done = old_done.push(t as int);
                        assert(done.take(old_done.len() as int) =~= old_done);
                        assert(done.to_set() =~= old_done.to_set().insert(t as int)) by {
                            assert forall|x: int| done.to_set().contains(x) implies old_done.to_set().insert(
                                t as int,
                            ).contains(x) by {
                                let i = choose|i: int| 0 <= i < done.len() && done[i] == x;
                                if i < old_done.len() {
                                    assert(old_done[i] == x);
                                }
                            }
                            assert forall|x: int|
                                old_done.to_set().insert(t as int).contains(
                                    x,
                                ) implies done.to_set().contains(x) by {
                                if x == t as int {
                                    assert(done[old_done.len() as int] == x);
                                } else {
                                    let i = choose|i: int|
                                        0 <= i < old_done.len() && old_done[i] == x;
                                    assert(done[i] == x);
                                }
                            }
                        }
                        assert forall|k: int| 0 <= k < done.len() implies 0 <= #[trigger] done[k]
                            < n && self@.can_finish(done[k], done.take(k).to_set()) by {
                            if k < old_done.len() {
                                assert(done.take(k) =~= old_done.take(k));
                                assert(done[k] == old_done[k]);
                            } else {
                                assert(done.take(k) =~= old_done);
                                assert forall|i: int|
                                    0 <= i < self@.resources() implies #[trigger] self@.need[t as int][i]
                                    <= self@.work_after(old_done.to_set(), i) by {
                                    assert(old_work[i] == clamp(
                                        self@.work_after(old_done.to_set(), i),
                                    ));
                                }
                            }
                        }
                        assert forall|u: int| 0 <= u < n implies (finish@[u] <==> done.contains(
                            u,
                        )) by {
                            if u == t as int {
                                assert(done[old_done.len() as int] == u);
                            } else {
                                if old_done.contains(u) {
                                    let i = choose|i: int|
                                        0 <= i < old_done.len() && old_done[i] == u;
                                    assert(done[i] == u);
                                }
                                if done.contains(u) {
                                    let i = choose|i: int| 0 <= i < done.len() && done[i] == u;
                                    assert(old_done[i] == u);
                                }
                            }
                        }
                        assert forall|i: int| 0 <= i < m implies #[trigger] work@[i] == clamp(
                            self@.work_after(done.to_set(), i),
                        ) by {
                            self@.lemma_held_insert(old_done.to_set(), t as int, i, n as int);
                            assert(old_work[i] == clamp(self@.work_after(old_done.to_set(), i)));
                        }
                    }
                },
            }
        }
        let mut u: usize = 0;
        while u < n
            invariant
                n == finish@.len(),
                n == self@.threads(),
                u <= n,
                forall|j: int| 0 <= j < u ==> finish@[j],
                forall|j: int| 0 <= j < n ==> (finish@[j] <==> done.contains(j)),
                forall|j: int|
                    0 <= j < n && !finish@[j] ==> !self@.can_finish(j, done.to_set()),
            decreases n - u,
        {
            if !finish[u] {
                proof {
                    lemma_stuck_is_unsafe(self@, done.to_set(), u as int);
                }
                return DEADLOCK;
            }
            u = u + 1;
        }
        proof {
            assert(self@.safe_order(done));
        }
        0
    }
}

/// A fresh row of `m` zeros.
fn zero_row(m: usize) -> (row: Vec<usize>)
    ensures
        row@.len() == m,
        forall|i: int| 0 <= i < m ==> row@[i] == 0,
{
    let mut row: Vec<usize> = Vec::new();
    let mut i: usize = 0;
    while i < m
        invariant
            i <= m,
            row@.len() == i,
            forall|j: int| 0 <= j < i ==> row@[j] == 0,
        decreases m - i,
    {
        row.push(0);
        i = i + 1;
    }
    row
}

/// Nobody holds anything when nobody is counted.
proof fn lemma_held_of_nobody(v: LedgerView, r: int, upto: int)
    ensures
        v.held(Set::empty(), r, upto) == 0,
    decreases upto,
{
    if upto > 0 {
        lemma_held_of_nobody(v, r, upto - 1);
    }
}

} // verus!
