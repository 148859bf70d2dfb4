//! Resource accounting for the threads of a process, and the safety
//! algorithm that refuses a request which could never be granted.
//!
//! A [`Ledger`] holds three matrices: `work[r]` is the number of free units of
//! resource `r`, `alloc[t][r]` the units that thread `t` holds and
//! `need[t][r]` the units that thread `t` has asked for and not yet received.
//! The ledger is the book that deadlock detection keeps: it is written
//! only while detection is on, and whether a mutex or a semaphore can be
//! taken is for the primitive itself to say. For every resource, the free
//! units and the units that the threads hold add up to its capacity,
//! whatever is written.
//!
//! A process keeps one ledger for its mutexes and one for its semaphores;
//! [`Ledger::beside`] puts the two side by side for the safety algorithm,
//! [`Ledger::is_safe_after_request`]. What the algorithm decides is stated
//! by [`LedgerView::is_safe`]: no set of threads is such that each of them
//! asks for more than all threads outside the set could ever give back.
use vstd::prelude::*;

verus! {

/// The mathematical content of a [`Ledger`].
#[verifier::ext_equal]
pub struct LedgerView {
    pub work: Seq<int>,
    pub alloc: Seq<Seq<int>>,
    pub need: Seq<Seq<int>>,
}

impl LedgerView {
    /// Number of rows: one per thread.
    pub open spec fn threads(self) -> int {
        self.alloc.len() as int
    }

    /// Number of columns: one per resource.
    pub open spec fn resources(self) -> int {
        self.work.len() as int
    }

    /// The matrices are rectangular and hold no negative entry.
    pub open spec fn wf(self) -> bool {
        &&& self.need.len() == self.alloc.len()
        &&& forall|r: int| 0 <= r < self.work.len() ==> 0 <= #[trigger] self.work[r]
        &&& forall|t: int|
            0 <= t < self.alloc.len() ==> (#[trigger] self.alloc[t]).len() == self.work.len()
        &&& forall|t: int|
            0 <= t < self.need.len() ==> (#[trigger] self.need[t]).len() == self.work.len()
        &&& forall|t: int, r: int|
            0 <= t < self.alloc.len() && 0 <= r < self.work.len() ==> 0 <= #[trigger] self.alloc[t][r]
        &&& forall|t: int, r: int|
            0 <= t < self.need.len() && 0 <= r < self.work.len() ==> 0 <= #[trigger] self.need[t][r]
    }

    /// Units of resource `r` held by the threads below `n` that are in `mask`.
    pub open spec fn held_by(self, mask: Set<int>, r: int, n: int) -> int
        decreases n,
    {
        if n <= 0 {
            0
        } else {
            self.held_by(mask, r, n - 1) + if mask.contains(n - 1) {
                self.alloc[n - 1][r]
            } else {
                0
            }
        }
    }

    /// Units of resource `r` held by any thread.
    pub open spec fn held(self, r: int) -> int {
        self.held_by(Set::full(), r, self.threads())
    }

    /// All units of resource `r`, free or held.
    pub open spec fn capacity(self, r: int) -> int {
        self.work[r] + self.held(r)
    }

    /// Thread `t` asks for one more unit of `r`.
    pub open spec fn request(self, t: int, r: int) -> LedgerView {
        LedgerView { need: self.need.update(t, self.need[t].update(r, self.need[t][r] + 1)), ..self }
    }

    /// Thread `t` no longer waits for a unit of `r` that it asked for.
    pub open spec fn settle(self, t: int, r: int) -> LedgerView {
        if self.need[t][r] > 0 {
            LedgerView {
                need: self.need.update(t, self.need[t].update(r, self.need[t][r] - 1)),
                ..self
            }
        } else {
            self
        }
    }

    /// One free unit of `r` passes to thread `t`.
    pub open spec fn grant(self, t: int, r: int) -> LedgerView {
        LedgerView {
            work: self.work.update(r, self.work[r] - 1),
            alloc: self.alloc.update(t, self.alloc[t].update(r, self.alloc[t][r] + 1)),
            ..self
        }
    }

    /// Thread `t` gives one unit of `r` back.
    pub open spec fn release(self, t: int, r: int) -> LedgerView {
        LedgerView {
            work: self.work.update(r, self.work[r] + 1),
            alloc: self.alloc.update(t, self.alloc[t].update(r, self.alloc[t][r] - 1)),
            ..self
        }
    }

    /// One free unit of `r` passes to thread `t`, if one is free.
    pub open spec fn taken(self, t: int, r: int) -> LedgerView {
        if self.work[r] >= 1 {
            self.grant(t, r)
        } else {
            self
        }
    }

    /// Thread `t` gives one unit of `r` back, if it holds one.
    pub open spec fn given(self, t: int, r: int) -> LedgerView {
        if self.alloc[t][r] >= 1 {
            self.release(t, r)
        } else {
            self
        }
    }

    /// A new resource with `units` free units takes the next column.
    pub open spec fn add_resource(self, units: int) -> LedgerView {
        LedgerView {
            work: self.work.push(units),
            alloc: Seq::new(self.alloc.len(), |t: int| self.alloc[t].push(0)),
            need: Seq::new(self.need.len(), |t: int| self.need[t].push(0)),
        }
    }

    /// Column `r` starts afresh with `units` free units, held and awaited by nobody.
    pub open spec fn reset_resource(self, r: int, units: int) -> LedgerView {
        LedgerView {
            work: self.work.update(r, units),
            alloc: Seq::new(self.alloc.len(), |t: int| self.alloc[t].update(r, 0)),
            need: Seq::new(self.need.len(), |t: int| self.need[t].update(r, 0)),
        }
    }

    /// A new thread takes the next row; it holds and awaits nothing.
    pub open spec fn add_thread(self) -> LedgerView {
        LedgerView {
            alloc: self.alloc.push(Seq::new(self.work.len(), |r: int| 0int)),
            need: self.need.push(Seq::new(self.work.len(), |r: int| 0int)),
            ..self
        }
    }

    /// The two ledgers as one: the columns of `other` follow those of `self`.
    pub open spec fn beside(self, other: LedgerView) -> LedgerView {
        LedgerView {
            work: self.work + other.work,
            alloc: Seq::new(self.alloc.len(), |t: int| self.alloc[t] + other.alloc[t]),
            need: Seq::new(self.need.len(), |t: int| self.need[t] + other.need[t]),
        }
    }

    /// The ledger of a process that starts as a copy of this one with
    /// thread `t` as its only thread: the thread holds what it held and
    /// awaits nothing, and every other unit is free.
    pub open spec fn kept_by(self, t: int) -> LedgerView {
        LedgerView {
            work: Seq::new(self.work.len(), |r: int| self.capacity(r) - self.alloc[t][r]),
            alloc: seq![self.alloc[t]],
            need: seq![Seq::new(self.work.len(), |r: int| 0int)],
        }
    }

    /// Every request of thread `t` can be met out of `avail`.
    pub open spec fn row_satisfied(self, t: int, avail: Seq<int>) -> bool {
        forall|r: int| 0 <= r < self.resources() ==> #[trigger] self.need[t][r] <= avail[r]
    }

    /// The units of `r` that would be free once every thread outside `blocked`
    /// had given back all that it holds.
    pub open spec fn free_outside(self, blocked: Set<int>, r: int) -> int {
        self.work[r] + self.held_by(blocked.complement(), r, self.threads())
    }

    /// Thread `t` asks for more of some resource than the threads outside
    /// `blocked` could ever set free.
    pub open spec fn stuck_in(self, t: int, blocked: Set<int>) -> bool {
        exists|r: int|
            0 <= r < self.resources() && #[trigger] self.need[t][r] > self.free_outside(blocked, r)
    }

    /// `blocked` is a non-empty set of threads none of which can proceed
    /// unless another member of the set gives something back first.
    pub open spec fn deadlocked(self, blocked: Set<int>) -> bool {
        &&& exists|t: int| #[trigger] blocked.contains(t)
        &&& forall|t: int| #[trigger]
            blocked.contains(t) ==> 0 <= t < self.threads() && self.stuck_in(t, blocked)
    }

    /// No set of threads is deadlocked. This is so exactly when the threads
    /// can finish one after another
    /// ([`crate::safe_order::lemma_safe_iff_order`]).
    pub open spec fn is_safe(self) -> bool {
        !exists|blocked: Set<int>| #[trigger] self.deadlocked(blocked)
    }
}

/// The threads below `flags.len()` whose flag is set.
pub open spec fn flagged(flags: Seq<bool>) -> Set<int> {
    Set::new(|t: int| 0 <= t < flags.len() && flags[t])
}

/// The number of flags that are not set.
pub open spec fn unset_count(flags: Seq<bool>) -> nat
    decreases flags.len(),
{
    if flags.len() == 0 {
        0
    } else {
        unset_count(flags.drop_last()) + if flags.last() {
            0nat
        } else {
            1nat
        }
    }
}

proof fn lemma_unset_count_set(flags: Seq<bool>, t: int)
    requires
        0 <= t < flags.len(),
        !flags[t],
    ensures
        unset_count(flags.update(t, true)) + 1 == unset_count(flags),
    decreases flags.len(),
{
    let after = flags.update(t, true);
    if t == flags.len() - 1 {
        assert(after.drop_last() =~= flags.drop_last());
    } else {
        assert(after.drop_last() =~= flags.drop_last().update(t, true));
        lemma_unset_count_set(flags.drop_last(), t);
    }
}

/// A smaller set of threads holds no more than a larger one.
pub proof fn lemma_held_by_monotone(v: LedgerView, small: Set<int>, large: Set<int>, r: int, n: int)
    requires
        v.wf(),
        0 <= r < v.resources(),
        n <= v.threads(),
        forall|t: int| 0 <= t < n && small.contains(t) ==> large.contains(t),
    ensures
        0 <= v.held_by(small, r, n) <= v.held_by(large, r, n),
    decreases n,
{
    if n > 0 {
        lemma_held_by_monotone(v, small, large, r, n - 1);
        assert(0 <= v.alloc[n - 1][r]);
    }
}

/// What a set of threads holds depends only on its members below `n` and on
/// their entries in column `r`.
pub proof fn lemma_held_by_same(
    v: LedgerView,
    w: LedgerView,
    mask_v: Set<int>,
    mask_w: Set<int>,
    r: int,
    n: int,
)
    requires
        forall|t: int| 0 <= t < n ==> mask_v.contains(t) == mask_w.contains(t),
        forall|t: int| 0 <= t < n ==> v.alloc[t][r] == w.alloc[t][r],
    ensures
        v.held_by(mask_v, r, n) == w.held_by(mask_w, r, n),
    decreases n,
{
    if n > 0 {
        lemma_held_by_same(v, w, mask_v, mask_w, r, n - 1);
    }
}

/// Two columns with the same entries hold the same.
pub proof fn lemma_held_by_same_column(
    v: LedgerView,
    w: LedgerView,
    mask: Set<int>,
    rv: int,
    rw: int,
    n: int,
)
    requires
        forall|t: int| 0 <= t < n ==> v.alloc[t][rv] == w.alloc[t][rw],
    ensures
        v.held_by(mask, rv, n) == w.held_by(mask, rw, n),
    decreases n,
{
    if n > 0 {
        lemma_held_by_same_column(v, w, mask, rv, rw, n - 1);
    }
}

/// Adding thread `x` to a set adds what `x` holds.
pub proof fn lemma_held_by_insert(v: LedgerView, mask: Set<int>, x: int, r: int, n: int)
    requires
        !mask.contains(x),
    ensures
        v.held_by(mask.insert(x), r, n) == v.held_by(mask, r, n) + if 0 <= x < n {
            v.alloc[x][r]
        } else {
            0
        },
    decreases n,
{
    if n > 0 {
        lemma_held_by_insert(v, mask, x, r, n - 1);
    }
}

/// Changing one entry of column `r` changes what a set holds by as much, if
/// the thread is in the set.
pub proof fn lemma_held_by_shift(
    v: LedgerView,
    w: LedgerView,
    mask: Set<int>,
    x: int,
    delta: int,
    r: int,
    n: int,
)
    requires
        forall|t: int| 0 <= t < n && t != x ==> v.alloc[t][r] == w.alloc[t][r],
        0 <= x < n ==> w.alloc[x][r] == v.alloc[x][r] + delta,
    ensures
        w.held_by(mask, r, n) == v.held_by(mask, r, n) + if 0 <= x < n && mask.contains(x) {
            delta
        } else {
            0
        },
    decreases n,
{
    if n > 0 {
        if x == n - 1 {
            lemma_held_by_same(v, w, mask, mask, r, n - 1);
        } else {
            lemma_held_by_shift(v, w, mask, x, delta, r, n - 1);
        }
    }
}

/// A column of zeros holds nothing.
pub proof fn lemma_held_by_zero(v: LedgerView, mask: Set<int>, r: int, n: int)
    requires
        forall|t: int| 0 <= t < n && mask.contains(t) ==> v.alloc[t][r] == 0,
    ensures
        v.held_by(mask, r, n) == 0,
    decreases n,
{
    if n > 0 {
        lemma_held_by_zero(v, mask, r, n - 1);
    }
}

/// No thread holds more of a resource than all threads together.
pub proof fn lemma_held_bounds_entry(v: LedgerView, t: int, r: int)
    requires
        v.wf(),
        0 <= t < v.threads(),
        0 <= r < v.resources(),
    ensures
        0 <= v.alloc[t][r] <= v.held(r),
{
    let only: Set<int> = Set::empty().insert(t);
    lemma_held_by_insert(v, Set::empty(), t, r, v.threads());
    lemma_held_by_zero(v, Set::empty(), r, v.threads());
    lemma_held_by_monotone(v, only, Set::full(), r, v.threads());
}

/// Two threads that each hold the only unit of one resource and each ask for
/// the other's form a deadlocked set, so the state is not safe.
pub proof fn lemma_crossed_requests_unsafe(v: LedgerView, t1: int, t2: int, a: int, b: int)
    requires
        v.wf(),
        0 <= t1 < v.threads(),
        0 <= t2 < v.threads(),
        0 <= a < v.resources(),
        0 <= b < v.resources(),
        v.work[a] == 0,
        v.work[b] == 0,
        forall|t: int| 0 <= t < v.threads() && t != t1 ==> v.alloc[t][a] == 0,
        forall|t: int| 0 <= t < v.threads() && t != t2 ==> v.alloc[t][b] == 0,
        v.need[t1][b] >= 1,
        v.need[t2][a] >= 1,
    ensures
        !v.is_safe(),
{
    let blocked: Set<int> = Set::empty().insert(t1).insert(t2);
    assert(blocked.contains(t1));
    lemma_held_by_zero(v, blocked.complement(), a, v.threads());
    lemma_held_by_zero(v, blocked.complement(), b, v.threads());
    assert(v.need[t1][b] > v.free_outside(blocked, b));
    assert(v.need[t2][a] > v.free_outside(blocked, a));
    assert(v.stuck_in(t1, blocked));
    assert(v.stuck_in(t2, blocked));
    assert(v.deadlocked(blocked));
}

/// What the threads below `n` hold together, one step at a time.
pub proof fn lemma_held_by_prefix(v: LedgerView, r: int, n: int)
    requires
        v.wf(),
        0 <= r < v.resources(),
        0 < n <= v.threads(),
    ensures
        v.held_by(Set::full(), r, n) == v.held_by(Set::full(), r, n - 1) + v.alloc[n - 1][r],
        0 <= v.held_by(Set::full(), r, n) <= v.held(r),
{
    lemma_held_by_monotone(v, Set::empty(), Set::full(), r, n);
    lemma_held_by_tail(v, r, n, v.threads());
}

/// What the threads below `n` hold is no more than what the threads below a
/// larger bound hold.
pub proof fn lemma_held_by_tail(v: LedgerView, r: int, n: int, bound: int)
    requires
        v.wf(),
        0 <= r < v.resources(),
        0 <= n <= bound <= v.threads(),
    ensures
        v.held_by(Set::full(), r, n) <= v.held_by(Set::full(), r, bound),
    decreases bound - n,
{
    if n < bound {
        lemma_held_by_tail(v, r, n, bound - 1);
        assert(0 <= v.alloc[bound - 1][r]);
    }
}

/// The numbers in a vector of counts.
pub open spec fn ints(s: Seq<usize>) -> Seq<int> {
    Seq::new(s.len(), |i: int| s[i] as int)
}

/// A request leaves the matrices rectangular.
pub proof fn lemma_request_wf(v: LedgerView, t: int, r: int)
    requires
        v.wf(),
        0 <= t < v.threads(),
        0 <= r < v.resources(),
    ensures
        v.request(t, r).wf(),
        v.request(t, r).threads() == v.threads(),
        v.request(t, r).resources() == v.resources(),
{
    let w = v.request(t, r);
    assert forall|i: int| 0 <= i < w.need.len() implies (#[trigger] w.need[i]).len()
        == w.work.len() by {
        assert(v.need[i].len() == v.work.len());
    }
    assert forall|i: int, c: int| 0 <= i < w.need.len() && 0 <= c < w.work.len() implies 0
        <= #[trigger] w.need[i][c] by {
        assert(0 <= v.need[i][c]);
        assert(v.need[i].len() == v.work.len());
    }
}

/// What each operation of the ledger does to the capacities: a new or reset
/// column has the capacity that it was given; everything else leaves every
/// capacity as it was.
pub proof fn lemma_capacity_add_thread(v: LedgerView)
    requires
        v.wf(),
    ensures
        v.add_thread().wf(),
        forall|c: int| 0 <= c < v.resources() ==> #[trigger] v.add_thread().capacity(c) == v.capacity(c),
{
    let w = v.add_thread();
    assert forall|c: int| 0 <= c < v.resources() implies #[trigger] w.capacity(c) == v.capacity(
        c,
    ) by {
        lemma_held_by_same(v, w, Set::full(), Set::full(), c, v.threads());
    }
}

pub proof fn lemma_capacity_add_resource(v: LedgerView, units: int)
    requires
        v.wf(),
        0 <= units,
    ensures
        v.add_resource(units).wf(),
        v.add_resource(units).capacity(v.resources()) == units,
        forall|c: int|
            0 <= c < v.resources() ==> #[trigger] v.add_resource(units).capacity(c) == v.capacity(c),
{
    let w = v.add_resource(units);
    assert forall|c: int| 0 <= c < v.resources() implies #[trigger] w.capacity(c) == v.capacity(
        c,
    ) by {
        lemma_held_by_same(v, w, Set::full(), Set::full(), c, v.threads());
    }
    lemma_held_by_zero(w, Set::full(), v.resources(), v.threads());
}

pub proof fn lemma_capacity_reset_resource(v: LedgerView, r: int, units: int)
    requires
        v.wf(),
        0 <= r < v.resources(),
        0 <= units,
    ensures
        v.reset_resource(r, units).wf(),
        v.reset_resource(r, units).capacity(r) == units,
        forall|c: int|
            0 <= c < v.resources() && c != r ==> #[trigger] v.reset_resource(r, units).capacity(c)
                == v.capacity(c),
{
    let w = v.reset_resource(r, units);
    assert forall|c: int| 0 <= c < v.resources() && c != r implies #[trigger] w.capacity(c)
        == v.capacity(c) by {
        lemma_held_by_same(v, w, Set::full(), Set::full(), c, v.threads());
    }
    lemma_held_by_zero(w, Set::full(), r, v.threads());
}

pub proof fn lemma_capacity_request(v: LedgerView, t: int, r: int)
    requires
        v.wf(),
        0 <= t < v.threads(),
        0 <= r < v.resources(),
    ensures
        v.request(t, r).wf(),
        forall|c: int| 0 <= c < v.resources() ==> #[trigger] v.request(t, r).capacity(c) == v.capacity(c),
{
    lemma_request_wf(v, t, r);
    let w = v.request(t, r);
    assert forall|c: int| 0 <= c < v.resources() implies #[trigger] w.capacity(c) == v.capacity(
        c,
    ) by {
        lemma_held_by_same(v, w, Set::full(), Set::full(), c, v.threads());
    }
}

pub proof fn lemma_capacity_settle(v: LedgerView, t: int, r: int)
    requires
        v.wf(),
        0 <= t < v.threads(),
        0 <= r < v.resources(),
    ensures
        v.settle(t, r).wf(),
        forall|c: int| 0 <= c < v.resources() ==> #[trigger] v.settle(t, r).capacity(c) == v.capacity(c),
{
    let w = v.settle(t, r);
    assert forall|i: int| 0 <= i < w.need.len() implies (#[trigger] w.need[i]).len()
        == w.work.len() by {
        assert(v.need[i].len() == v.work.len());
    }
    assert forall|i: int, c: int| 0 <= i < w.need.len() && 0 <= c < w.work.len() implies 0
        <= #[trigger] w.need[i][c] by {
        assert(0 <= v.need[i][c]);
        assert(v.need[i].len() == v.work.len());
    }
    assert forall|c: int| 0 <= c < v.resources() implies #[trigger] w.capacity(c) == v.capacity(
        c,
    ) by {
        lemma_held_by_same(v, w, Set::full(), Set::full(), c, v.threads());
    }
}

pub proof fn lemma_capacity_grant(v: LedgerView, t: int, r: int)
    requires
        v.wf(),
        0 <= t < v.threads(),
        0 <= r < v.resources(),
        v.work[r] >= 1,
    ensures
        v.grant(t, r).wf(),
        forall|c: int| 0 <= c < v.resources() ==> #[trigger] v.grant(t, r).capacity(c) == v.capacity(c),
{
    let w = v.grant(t, r);
    assert forall|i: int| 0 <= i < w.alloc.len() implies (#[trigger] w.alloc[i]).len()
        == w.work.len() by {
        assert(v.alloc[i].len() == v.work.len());
    }
    assert forall|i: int, c: int| 0 <= i < w.alloc.len() && 0 <= c < w.work.len() implies 0
        <= #[trigger] w.alloc[i][c] by {
        assert(0 <= v.alloc[i][c]);
        assert(v.alloc[i].len() == v.work.len());
    }
    assert forall|c: int| 0 <= c < v.resources() implies #[trigger] w.capacity(c) == v.capacity(
        c,
    ) by {
        if c == r {
            lemma_held_by_shift(v, w, Set::full(), t, 1, r, v.threads());
        } else {
            assert(v.alloc[t].len() == v.work.len());
            lemma_held_by_same(v, w, Set::full(), Set::full(), c, v.threads());
        }
    }
}

pub proof fn lemma_capacity_release(v: LedgerView, t: int, r: int)
    requires
        v.wf(),
        0 <= t < v.threads(),
        0 <= r < v.resources(),
        v.alloc[t][r] >= 1,
    ensures
        v.release(t, r).wf(),
        forall|c: int| 0 <= c < v.resources() ==> #[trigger] v.release(t, r).capacity(c) == v.capacity(c),
{
    let w = v.release(t, r);
    assert forall|i: int| 0 <= i < w.alloc.len() implies (#[trigger] w.alloc[i]).len()
        == w.work.len() by {
        assert(v.alloc[i].len() == v.work.len());
    }
    assert forall|i: int, c: int| 0 <= i < w.alloc.len() && 0 <= c < w.work.len() implies 0
        <= #[trigger] w.alloc[i][c] by {
        assert(0 <= v.alloc[i][c]);
        assert(v.alloc[i].len() == v.work.len());
    }
    assert forall|c: int| 0 <= c < v.resources() implies #[trigger] w.capacity(c) == v.capacity(
        c,
    ) by {
        if c == r {
            lemma_held_by_shift(v, w, Set::full(), t, -1, r, v.threads());
        } else {
            assert(v.alloc[t].len() == v.work.len());
            lemma_held_by_same(v, w, Set::full(), Set::full(), c, v.threads());
        }
    }
}

pub proof fn lemma_capacity_taken(v: LedgerView, t: int, r: int)
    requires
        v.wf(),
        0 <= t < v.threads(),
        0 <= r < v.resources(),
    ensures
        v.taken(t, r).wf(),
        v.taken(t, r).threads() == v.threads(),
        v.taken(t, r).resources() == v.resources(),
        forall|c: int| 0 <= c < v.resources() ==> #[trigger] v.taken(t, r).capacity(c) == v.capacity(c),
{
    if v.work[r] >= 1 {
        lemma_capacity_grant(v, t, r);
    }
}

pub proof fn lemma_capacity_given(v: LedgerView, t: int, r: int)
    requires
        v.wf(),
        0 <= t < v.threads(),
        0 <= r < v.resources(),
    ensures
        v.given(t, r).wf(),
        v.given(t, r).threads() == v.threads(),
        v.given(t, r).resources() == v.resources(),
        forall|c: int| 0 <= c < v.resources() ==> #[trigger] v.given(t, r).capacity(c) == v.capacity(c),
{
    assert(v.alloc[t].len() == v.work.len());
    if v.alloc[t][r] >= 1 {
        lemma_capacity_release(v, t, r);
    }
}

/// Two ledgers for the same threads make one ledger, in which every
/// resource has the capacity that it had.
pub proof fn lemma_beside(v: LedgerView, w: LedgerView)
    requires
        v.wf(),
        w.wf(),
        v.threads() == w.threads(),
    ensures
        v.beside(w).wf(),
        v.beside(w).threads() == v.threads(),
        v.beside(w).resources() == v.resources() + w.resources(),
        forall|c: int| 0 <= c < v.resources() ==> #[trigger] v.beside(w).capacity(c) == v.capacity(c),
        forall|c: int|
            0 <= c < w.resources() ==> #[trigger] v.beside(w).capacity(v.resources() + c) == w.capacity(c),
{
    let j = v.beside(w);
    assert forall|t: int| 0 <= t < j.alloc.len() implies (#[trigger] j.alloc[t]).len()
        == j.work.len() by {
        assert(v.alloc[t].len() == v.work.len());
        assert(w.alloc[t].len() == w.work.len());
    }
    assert forall|t: int| 0 <= t < j.need.len() implies (#[trigger] j.need[t]).len()
        == j.work.len() by {
        assert(v.need[t].len() == v.work.len());
        assert(w.need[t].len() == w.work.len());
    }
    assert forall|t: int, r: int| 0 <= t < j.alloc.len() && 0 <= r < j.work.len() implies 0
        <= #[trigger] j.alloc[t][r] by {
        assert(v.alloc[t].len() == v.work.len());
        assert(w.alloc[t].len() == w.work.len());
        if r < v.work.len() {
            assert(0 <= v.alloc[t][r]);
        } else {
            assert(0 <= w.alloc[t][r - v.work.len()]);
        }
    }
    assert forall|t: int, r: int| 0 <= t < j.need.len() && 0 <= r < j.work.len() implies 0
        <= #[trigger] j.need[t][r] by {
        assert(v.need[t].len() == v.work.len());
        assert(w.need[t].len() == w.work.len());
        if r < v.work.len() {
            assert(0 <= v.need[t][r]);
        } else {
            assert(0 <= w.need[t][r - v.work.len()]);
        }
    }
    assert forall|r: int| 0 <= r < j.work.len() implies 0 <= #[trigger] j.work[r] by {
        if r < v.work.len() {
            assert(0 <= v.work[r]);
        } else {
            assert(0 <= w.work[r - v.work.len()]);
        }
    }
    assert forall|c: int| 0 <= c < v.resources() implies #[trigger] j.capacity(c) == v.capacity(
        c,
    ) by {
        assert forall|t: int| 0 <= t < v.threads() implies j.alloc[t][c] == v.alloc[t][c] by {
            assert(v.alloc[t].len() == v.work.len());
        }
        lemma_held_by_same_column(j, v, Set::full(), c, c, v.threads());
    }
    assert forall|c: int| 0 <= c < w.resources() implies #[trigger] j.capacity(v.resources() + c)
        == w.capacity(c) by {
        assert forall|t: int| 0 <= t < v.threads() implies j.alloc[t][v.resources() + c]
            == w.alloc[t][c] by {
            assert(v.alloc[t].len() == v.work.len());
        }
        lemma_held_by_same_column(j, w, Set::full(), v.resources() + c, c, v.threads());
    }
}

/// A ledger that one thread takes along is well formed, and every resource
/// has the capacity that it had.
pub proof fn lemma_kept_by(v: LedgerView, t: int)
    requires
        v.wf(),
        0 <= t < v.threads(),
    ensures
        v.kept_by(t).wf(),
        v.kept_by(t).threads() == 1,
        v.kept_by(t).resources() == v.resources(),
        forall|c: int| 0 <= c < v.resources() ==> #[trigger] v.kept_by(t).capacity(c) == v.capacity(c),
{
    let w = v.kept_by(t);
    assert(v.alloc[t].len() == v.work.len());
    assert forall|r: int| 0 <= r < w.work.len() implies 0 <= #[trigger] w.work[r] by {
        lemma_held_bounds_entry(v, t, r);
        assert(0 <= v.work[r]);
    }
    assert forall|i: int, r: int| 0 <= i < w.alloc.len() && 0 <= r < w.work.len() implies 0
        <= #[trigger] w.alloc[i][r] by {
        assert(0 <= v.alloc[t][r]);
    }
    assert forall|c: int| 0 <= c < v.resources() implies #[trigger] w.capacity(c) == v.capacity(
        c,
    ) by {
        assert(w.held_by(Set::full(), c, 1) == w.held_by(Set::full(), c, 0) + w.alloc[0][c]);
    }
}

/// The counts of `left` followed by those of `right`.
fn join(left: &Vec<usize>, right: &Vec<usize>) -> (both: Vec<usize>)
    ensures
        both@ == left@ + right@,
{
    let mut both: Vec<usize> = Vec::new();
    let mut i: usize = 0;
    while i < left.len()
        invariant
            i <= left@.len(),
            both@ == left@.take(i as int),
        decreases left@.len() - i,
    {
        both.push(left[i]);
        assert(left@.take(i as int).push(left@[i as int]) =~= left@.take(i as int + 1));
        i += 1;
    }
    assert(left@.take(left@.len() as int) =~= left@);
    let mut k: usize = 0;
    while k < right.len()
        invariant
            k <= right@.len(),
            both@ == left@ + right@.take(k as int),
        decreases right@.len() - k,
    {
        both.push(right[k]);
        assert((left@ + right@.take(k as int)).push(right@[k as int]) =~= left@ + right@.take(
            k as int + 1,
        ));
        k += 1;
    }
    assert(right@.take(right@.len() as int) =~= right@);
    both
}

/// The accounting matrices of one kind of resource in one process.
pub struct Ledger {
    pub work: Vec<usize>,
    pub alloc: Vec<Vec<usize>>,
    pub need: Vec<Vec<usize>>,
}

impl View for Ledger {
    type V = LedgerView;

    open spec fn view(&self) -> LedgerView {
        LedgerView {
            work: Seq::new(self.work@.len(), |r: int| self.work@[r] as int),
            alloc: Seq::new(
                self.alloc@.len(),
                |t: int| Seq::new(self.alloc@[t]@.len(), |r: int| self.alloc@[t]@[r] as int),
            ),
            need: Seq::new(
                self.need@.len(),
                |t: int| Seq::new(self.need@[t]@.len(), |r: int| self.need@[t]@[r] as int),
            ),
        }
    }
}

impl Ledger {
    /// The matrices are rectangular, and the units of each resource, free and
    /// held together, can be counted in a machine word.
    pub open spec fn wf(&self) -> bool {
        &&& self@.wf()
        &&& forall|r: int| 0 <= r < self@.resources() ==> #[trigger] self@.capacity(r) <= usize::MAX
    }

    /// A ledger for `threads` threads and no resource yet.
    pub fn new(threads: usize) -> (ledger: Ledger)
        ensures
            ledger.wf(),
            ledger@.threads() == threads,
            ledger@.resources() == 0,
            ledger@.need.len() == threads,
    {
        let mut alloc: Vec<Vec<usize>> = Vec::new();
        let mut need: Vec<Vec<usize>> = Vec::new();
        let mut t: usize = 0;
        while t < threads
            invariant
                t <= threads,
                alloc@.len() == t,
                need@.len() == t,
                forall|i: int| 0 <= i < t ==> (#[trigger] alloc@[i])@.len() == 0,
                forall|i: int| 0 <= i < t ==> (#[trigger] need@[i])@.len() == 0,
            decreases threads - t,
        {
            alloc.push(Vec::new());
            need.push(Vec::new());
            t += 1;
        }
        Ledger { work: Vec::new(), alloc, need }
    }

    /// Number of threads that the ledger has a row for.
    pub fn threads(&self) -> (n: usize)
        ensures
            n == self@.threads(),
    {
        self.alloc.len()
    }

    /// Number of resources that the ledger has a column for.
    pub fn resources(&self) -> (m: usize)
        ensures
            m == self@.resources(),
    {
        self.work.len()
    }

    /// Free units of resource `r`.
    pub fn available(&self, r: usize) -> (units: usize)
        requires
            self.wf(),
            r < self@.resources(),
        ensures
            units == self@.work[r as int],
    {
        self.work[r]
    }

    /// Units of resource `r` that thread `t` holds.
    pub fn holding(&self, t: usize, r: usize) -> (units: usize)
        requires
            self.wf(),
            t < self@.threads(),
            r < self@.resources(),
        ensures
            units == self@.alloc[t as int][r as int],
    {
        assert(self@.alloc[t as int].len() == self@.work.len());
        self.alloc[t][r]
    }

    /// Units of resource `r` that thread `t` waits for.
    pub fn awaiting(&self, t: usize, r: usize) -> (units: usize)
        requires
            self.wf(),
            t < self@.threads(),
            r < self@.resources(),
        ensures
            units == self@.need[t as int][r as int],
    {
        assert(self@.need[t as int].len() == self@.work.len());
        self.need[t][r]
    }

    /// All units of resource `r`, free or held, counted row by row.
    pub fn capacity(&self, r: usize) -> (units: usize)
        requires
            self.wf(),
            r < self@.resources(),
        ensures
            units == self@.capacity(r as int),
    {
        let n = self.alloc.len();
        let mut sum: usize = self.work[r];
        let mut t: usize = 0;
        assert(self@.capacity(r as int) <= usize::MAX);
        while t < n
            invariant
                self.wf(),
                r < self@.resources(),
                n == self@.threads(),
                t <= n,
                sum == self@.work[r as int] + self@.held_by(Set::full(), r as int, t as int),
            decreases n - t,
        {
            proof {
                lemma_held_by_prefix(self@, r as int, t as int + 1);
                assert(self@.alloc[t as int].len() == self@.work.len());
                assert(self@.capacity(r as int) <= usize::MAX);
            }
            sum = sum + self.alloc[t][r];
            t += 1;
        }
        sum
    }

    /// Gives a new thread the next row: it holds and awaits nothing.
    pub fn add_thread(&mut self)
        requires
            old(self).wf(),
        ensures
            final(self).wf(),
            final(self)@ == old(self)@.add_thread(),
    {
        let m = self.work.len();
        let mut held: Vec<usize> = Vec::new();
        let mut asked: Vec<usize> = Vec::new();
        let mut r: usize = 0;
        while r < m
            invariant
                r <= m,
                held@.len() == r,
                asked@.len() == r,
                forall|i: int| 0 <= i < r ==> held@[i] == 0,
                forall|i: int| 0 <= i < r ==> asked@[i] == 0,
            decreases m - r,
        {
            held.push(0);
            asked.push(0);
            r += 1;
        }
        self.alloc.push(held);
        self.need.push(asked);
        proof {
            let before = old(self)@;
            let after = self@;
            assert(after =~~= before.add_thread());
            lemma_capacity_add_thread(before);
        }
    }

    /// Gives a new resource with `units` free units the next column.
    pub fn add_resource(&mut self, units: usize)
        requires
            old(self).wf(),
        ensures
            final(self).wf(),
            final(self)@ == old(self)@.add_resource(units as int),
    {
        let n = self.alloc.len();
        self.work.push(units);
        let mut t: usize = 0;
        while t < n
            invariant
                old(self).wf(),
                n == old(self)@.threads(),
                t <= n,
                self.work@ == old(self).work@.push(units),
                self.alloc@.len() == n,
                self.need@.len() == n,
                forall|i: int| 0 <= i < t ==> (#[trigger] self.alloc@[i])@ == old(self).alloc@[i]@.push(0),
                forall|i: int| 0 <= i < t ==> (#[trigger] self.need@[i])@ == old(self).need@[i]@.push(0),
                forall|i: int| t <= i < n ==> #[trigger] self.alloc@[i] == old(self).alloc@[i],
                forall|i: int| t <= i < n ==> #[trigger] self.need@[i] == old(self).need@[i],
            decreases n - t,
        {
            self.alloc[t].push(0);
            self.need[t].push(0);
            t += 1;
        }
        proof {
            let before = old(self)@;
            let after = self@;
            assert forall|i: int| 0 <= i < n implies (#[trigger] after.alloc[i])
                =~= before.alloc[i].push(0) by {
                assert(self.alloc@[i]@ == old(self).alloc@[i]@.push(0));
                assert(before.alloc[i].len() == before.work.len());
            }
            assert forall|i: int| 0 <= i < n implies (#[trigger] after.need[i])
                =~= before.need[i].push(0) by {
                assert(self.need@[i]@ == old(self).need@[i]@.push(0));
                assert(before.need[i].len() == before.work.len());
            }
            assert(after =~~= before.add_resource(units as int));
            lemma_capacity_add_resource(before, units as int);
        }
    }

    /// Starts column `r` afresh with `units` free units, held and awaited by nobody.
    pub fn reset_resource(&mut self, r: usize, units: usize)
        requires
            old(self).wf(),
            r < old(self)@.resources(),
        ensures
            final(self).wf(),
            final(self)@ == old(self)@.reset_resource(r as int, units as int),
    {
        let n = self.alloc.len();
        self.work[r] = units;
        let mut t: usize = 0;
        while t < n
            invariant
                old(self).wf(),
                r < old(self)@.resources(),
                n == old(self)@.threads(),
                t <= n,
                self.work@ == old(self).work@.update(r as int, units),
                self.alloc@.len() == n,
                self.need@.len() == n,
                forall|i: int|
                    0 <= i < t ==> (#[trigger] self.alloc@[i])@ == old(self).alloc@[i]@.update(
                        r as int,
                        0,
                    ),
                forall|i: int|
                    0 <= i < t ==> (#[trigger] self.need@[i])@ == old(self).need@[i]@.update(
                        r as int,
                        0,
                    ),
                forall|i: int| t <= i < n ==> #[trigger] self.alloc@[i] == old(self).alloc@[i],
                forall|i: int| t <= i < n ==> #[trigger] self.need@[i] == old(self).need@[i],
            decreases n - t,
        {
            proof {
                assert(old(self)@.alloc[t as int].len() == old(self)@.work.len());
                assert(old(self)@.need[t as int].len() == old(self)@.work.len());
            }
            self.alloc[t][r] = 0;
            self.need[t][r] = 0;
            t += 1;
        }
        proof {
            let before = old(self)@;
            let after = self@;
            assert forall|i: int| 0 <= i < n implies (#[trigger] after.alloc[i])
                =~= before.alloc[i].update(r as int, 0) by {
                assert(self.alloc@[i]@ == old(self).alloc@[i]@.update(r as int, 0));
                assert(before.alloc[i].len() == before.work.len());
            }
            assert forall|i: int| 0 <= i < n implies (#[trigger] after.need[i])
                =~= before.need[i].update(r as int, 0) by {
                assert(self.need@[i]@ == old(self).need@[i]@.update(r as int, 0));
                assert(before.need[i].len() == before.work.len());
            }
            assert(after =~~= before.reset_resource(r as int, units as int));
            lemma_capacity_reset_resource(before, r as int, units as int);
        }
    }

    /// Records that thread `t` asks for one more unit of `r`, unless the
    /// entry is at the largest machine word already.
    pub fn request(&mut self, t: usize, r: usize)
        requires
            old(self).wf(),
            t < old(self)@.threads(),
            r < old(self)@.resources(),
        ensures
            final(self).wf(),
            final(self)@ == if old(self)@.need[t as int][r as int] < usize::MAX {
                old(self)@.request(t as int, r as int)
            } else {
                old(self)@
            },
    {
        assert(self@.need[t as int].len() == self@.work.len());
        if self.need[t][r] < usize::MAX {
            self.need[t][r] = self.need[t][r] + 1;
            proof {
                let before = old(self)@;
                let after = self@;
                assert(after.need[t as int] =~= before.need[t as int].update(
                    r as int,
                    before.need[t as int][r as int] + 1,
                ));
                assert(after =~~= before.request(t as int, r as int));
                lemma_capacity_request(before, t as int, r as int);
            }
        }
    }

    /// Records that thread `t` no longer waits for a unit of `r`.
    pub fn settle(&mut self, t: usize, r: usize)
        requires
            old(self).wf(),
            t < old(self)@.threads(),
            r < old(self)@.resources(),
        ensures
            final(self).wf(),
            final(self)@ == old(self)@.settle(t as int, r as int),
    {
        assert(self@.need[t as int].len() == self@.work.len());
        if self.need[t][r] > 0 {
            self.need[t][r] = self.need[t][r] - 1;
            proof {
                let before = old(self)@;
                let after = self@;
                assert(after.need[t as int] =~= before.need[t as int].update(
                    r as int,
                    before.need[t as int][r as int] - 1,
                ));
                assert(after =~~= before.settle(t as int, r as int));
                lemma_capacity_settle(before, t as int, r as int);
            }
        }
    }

    /// Hands one free unit of `r` to thread `t`.
    pub fn grant(&mut self, t: usize, r: usize)
        requires
            old(self).wf(),
            t < old(self)@.threads(),
            r < old(self)@.resources(),
            old(self)@.work[r as int] >= 1,
        ensures
            final(self).wf(),
            final(self)@ == old(self)@.grant(t as int, r as int),
    {
        proof {
            assert(self@.alloc[t as int].len() == self@.work.len());
            lemma_held_bounds_entry(self@, t as int, r as int);
            assert(self@.capacity(r as int) <= usize::MAX);
        }
        self.work[r] = self.work[r] - 1;
        self.alloc[t][r] = self.alloc[t][r] + 1;
        proof {
            let before = old(self)@;
            let after = self@;
            assert(after.alloc[t as int] =~= before.alloc[t as int].update(
                r as int,
                before.alloc[t as int][r as int] + 1,
            ));
            assert(after =~~= before.grant(t as int, r as int));
            lemma_capacity_grant(before, t as int, r as int);
        }
    }

    /// Takes one unit of `r` back from thread `t`.
    pub fn release(&mut self, t: usize, r: usize)
        requires
            old(self).wf(),
            t < old(self)@.threads(),
            r < old(self)@.resources(),
            old(self)@.alloc[t as int][r as int] >= 1,
        ensures
            final(self).wf(),
            final(self)@ == old(self)@.release(t as int, r as int),
    {
        proof {
            assert(self@.alloc[t as int].len() == self@.work.len());
            lemma_held_bounds_entry(self@, t as int, r as int);
            assert(self@.capacity(r as int) <= usize::MAX);
        }
        self.work[r] = self.work[r] + 1;
        self.alloc[t][r] = self.alloc[t][r] - 1;
        proof {
            let before = old(self)@;
            let after = self@;
            assert(after.alloc[t as int] =~= before.alloc[t as int].update(
                r as int,
                before.alloc[t as int][r as int] - 1,
            ));
            assert(after =~~= before.release(t as int, r as int));
            lemma_capacity_release(before, t as int, r as int);
        }
    }

    /// Hands one free unit of `r` to thread `t`, if one is free.
    pub fn take(&mut self, t: usize, r: usize)
        requires
            old(self).wf(),
            t < old(self)@.threads(),
            r < old(self)@.resources(),
        ensures
            final(self).wf(),
            final(self)@ == old(self)@.taken(t as int, r as int),
    {
        if self.available(r) >= 1 {
            self.grant(t, r);
        }
    }

    /// Takes one unit of `r` back from thread `t`, if it holds one.
    pub fn give(&mut self, t: usize, r: usize)
        requires
            old(self).wf(),
            t < old(self)@.threads(),
            r < old(self)@.resources(),
        ensures
            final(self).wf(),
            final(self)@ == old(self)@.given(t as int, r as int),
    {
        if self.holding(t, r) >= 1 {
            self.release(t, r);
        }
    }

    /// The two ledgers as one: the columns of `other` follow those of `self`.
    pub fn beside(&self, other: &Ledger) -> (joint: Ledger)
        requires
            self.wf(),
            other.wf(),
            self@.threads() == other@.threads(),
        ensures
            joint.wf(),
            joint@ == self@.beside(other@),
    {
        let n = self.alloc.len();
        let work = join(&self.work, &other.work);
        let mut alloc: Vec<Vec<usize>> = Vec::new();
        let mut need: Vec<Vec<usize>> = Vec::new();
        let mut t: usize = 0;
        while t < n
            invariant
                self.wf(),
                other.wf(),
                n == self@.threads(),
                n == other@.threads(),
                t <= n,
                alloc@.len() == t,
                need@.len() == t,
                forall|i: int|
                    0 <= i < t ==> (#[trigger] alloc@[i])@ == self.alloc@[i]@ + other.alloc@[i]@,
                forall|i: int|
                    0 <= i < t ==> (#[trigger] need@[i])@ == self.need@[i]@ + other.need@[i]@,
            decreases n - t,
        {
            alloc.push(join(&self.alloc[t], &other.alloc[t]));
            need.push(join(&self.need[t], &other.need[t]));
            t += 1;
        }
        let joint = Ledger { work, alloc, need };
        proof {
            let want = self@.beside(other@);
            assert(joint@.work =~= want.work);
            assert forall|i: int| 0 <= i < n implies #[trigger] joint@.alloc[i] =~= want.alloc[i] by {
                assert(joint.alloc@[i]@ == self.alloc@[i]@ + other.alloc@[i]@);
            }
            assert forall|i: int| 0 <= i < n implies #[trigger] joint@.need[i] =~= want.need[i] by {
                assert(joint.need@[i]@ == self.need@[i]@ + other.need@[i]@);
            }
            assert(joint@ =~~= want);
            lemma_beside(self@, other@);
            assert forall|c: int| 0 <= c < joint@.resources() implies #[trigger] joint@.capacity(c)
                <= usize::MAX by {
                if c < self@.resources() {
                    assert(self@.capacity(c) <= usize::MAX);
                } else {
                    let d = c - self@.resources();
                    assert(other@.capacity(d) <= usize::MAX);
                    assert(want.capacity(self@.resources() + d) == other@.capacity(d));
                }
            }
        }
        joint
    }

    /// The ledger of a process that starts as a copy of this one with
    /// thread `t` as its only thread.
    pub fn kept_by(&self, t: usize) -> (copy: Ledger)
        requires
            self.wf(),
            t < self@.threads(),
        ensures
            copy.wf(),
            copy@ == self@.kept_by(t as int),
    {
        let m = self.work.len();
        let mut work: Vec<usize> = Vec::new();
        let mut held: Vec<usize> = Vec::new();
        let mut asked: Vec<usize> = Vec::new();
        let mut r: usize = 0;
        assert(self@.alloc[t as int].len() == self@.work.len());
        while r < m
            invariant
                self.wf(),
                t < self@.threads(),
                m == self@.resources(),
                self.alloc@[t as int]@.len() == m,
                r <= m,
                work@.len() == r,
                held@.len() == r,
                asked@.len() == r,
                forall|c: int|
                    0 <= c < r ==> #[trigger] work@[c] == self@.capacity(c) - self@.alloc[t as int][c],
                forall|c: int| 0 <= c < r ==> #[trigger] held@[c] == self@.alloc[t as int][c],
                forall|c: int| 0 <= c < r ==> #[trigger] asked@[c] == 0,
            decreases m - r,
        {
            let all = self.capacity(r);
            let mine = self.alloc[t][r];
            proof {
                lemma_held_bounds_entry(self@, t as int, r as int);
            }
            work.push(all - mine);
            held.push(mine);
            asked.push(0);
            r += 1;
        }
        let mut alloc: Vec<Vec<usize>> = Vec::new();
        let mut need: Vec<Vec<usize>> = Vec::new();
        alloc.push(held);
        need.push(asked);
        let copy = Ledger { work, alloc, need };
        proof {
            let want = self@.kept_by(t as int);
            assert(copy@.work =~= want.work);
            assert(copy@.alloc[0] =~= want.alloc[0]);
            assert(copy@.need[0] =~= want.need[0]);
            assert(copy@ =~~= want);
            lemma_kept_by(self@, t as int);
            assert forall|c: int| 0 <= c < copy@.resources() implies #[trigger] copy@.capacity(c)
                <= usize::MAX by {
                assert(self@.capacity(c) <= usize::MAX);
            }
        }
        copy
    }

    /// Whether every request of thread `t` can be met out of `avail`, once
    /// thread `t0` has asked for one more unit of `r0`.
    fn row_satisfied_after(&self, t: usize, avail: &Vec<usize>, t0: usize, r0: usize) -> (ok: bool)
        requires
            self.wf(),
            t < self@.threads(),
            t0 < self@.threads(),
            r0 < self@.resources(),
            avail@.len() == self@.resources(),
        ensures
            ok == self@.request(t0 as int, r0 as int).row_satisfied(t as int, ints(avail@)),
    {
        let m = self.work.len();
        let ghost v = self@.request(t0 as int, r0 as int);
        let mut r: usize = 0;
        let mut ok = true;
        assert(self@.need[t as int].len() == self@.work.len());
        while r < m && ok
            invariant
                self.wf(),
                m == self@.resources(),
                t < self@.threads(),
                t0 < self@.threads(),
                r0 < self@.resources(),
                avail@.len() == m,
                v == self@.request(t0 as int, r0 as int),
                r <= m,
                ok ==> forall|c: int| 0 <= c < r ==> #[trigger] v.need[t as int][c] <= ints(avail@)[c],
                !ok ==> exists|c: int| 0 <= c < m && #[trigger] v.need[t as int][c] > ints(avail@)[c],
            decreases m - r,
        {
            assert(self@.need[t as int].len() == self@.work.len());
            let asked = self.need[t][r];
            let enough = if t == t0 && r == r0 {
                asked < avail[r]
            } else {
                asked <= avail[r]
            };
            if !enough {
                ok = false;
                assert(v.need[t as int][r as int] > ints(avail@)[r as int]);
            }
            r += 1;
        }
        ok
    }

    /// Runs the safety algorithm on the ledger as it would be once thread
    /// `t0` had asked for one more unit of `r0`. The ledger itself is not
    /// changed. The answer is `true` exactly when no set of threads would be
    /// deadlocked.
    pub fn is_safe_after_request(&self, t0: usize, r0: usize) -> (safe: bool)
        requires
            self.wf(),
            t0 < self@.threads(),
            r0 < self@.resources(),
        ensures
            safe == self@.request(t0 as int, r0 as int).is_safe(),
    {
        let n = self.alloc.len();
        let m = self.work.len();
        let ghost v = self@.request(t0 as int, r0 as int);
        proof {
            lemma_request_wf(self@, t0 as int, r0 as int);
        }
        let mut finish: Vec<bool> = Vec::new();
        let mut t: usize = 0;
        while t < n
            invariant
                t <= n,
                finish@.len() == t,
                forall|i: int| 0 <= i < t ==> !finish@[i],
            decreases n - t,
        {
            finish.push(false);
            t += 1;
        }
        let mut avail: Vec<usize> = Vec::new();
        let mut r: usize = 0;
        while r < m
            invariant
                m == self.work@.len(),
                r <= m,
                avail@.len() == r,
                forall|c: int| 0 <= c < r ==> avail@[c] == self.work@[c],
            decreases m - r,
        {
            avail.push(self.work[r]);
            r += 1;
        }
        proof {
            assert forall|c: int| 0 <= c < m implies avail@[c] == v.work[c] + #[trigger] v.held_by(
                flagged(finish@),
                c,
                n as int,
            ) by {
                lemma_held_by_zero(v, flagged(finish@), c, n as int);
            }
        }
        let mut progress = true;
        while progress
            invariant
                self.wf(),
                v.wf(),
                n == self@.threads(),
                m == self@.resources(),
                t0 < n,
                r0 < m,
                v == self@.request(t0 as int, r0 as int),
                finish@.len() == n,
                avail@.len() == m,
                forall|c: int|
                    0 <= c < m ==> avail@[c] == v.work[c] + #[trigger] v.held_by(
                        flagged(finish@),
                        c,
                        n as int,
                    ),
                forall|blocked: Set<int>, i: int|
                    #[trigger] v.deadlocked(blocked) && 0 <= i < n && finish@[i]
                        ==> !#[trigger] blocked.contains(i),
                !progress ==> forall|i: int|
                    0 <= i < n && !finish@[i] ==> !#[trigger] v.row_satisfied(i, ints(avail@)),
            decreases unset_count(finish@), (if progress { 1int } else { 0int }),
        {
            let mut pick: Option<usize> = None;
            let mut i: usize = 0;
            while i < n && pick.is_none()
                invariant
                    self.wf(),
                    n == self@.threads(),
                    m == self@.resources(),
                    t0 < n,
                    r0 < m,
                    v == self@.request(t0 as int, r0 as int),
                    finish@.len() == n,
                    avail@.len() == m,
                    i <= n,
                    pick is None ==> forall|j: int|
                        0 <= j < i && !finish@[j] ==> !#[trigger] v.row_satisfied(j, ints(avail@)),
                    pick matches Some(x) ==> x < n && !finish@[x as int] && v.row_satisfied(
                        x as int,
                        ints(avail@),
                    ),
                decreases n - i,
            {
                if !finish[i] && self.row_satisfied_after(i, &avail, t0, r0) {
                    pick = Some(i);
                }
                i += 1;
            }
            match pick {
                None => {
                    progress = false;
                },
                Some(x) => {
                    let ghost flags_before = finish@;
                    let ghost avail_before = avail@;
                    let ghost done = flagged(flags_before);
                    let mut c: usize = 0;
                    while c < m
                        invariant
                            self.wf(),
                            v.wf(),
                            n == self@.threads(),
                            m == self@.resources(),
                            v == self@.request(t0 as int, r0 as int),
                            x < n,
                            !flags_before[x as int],
                            flags_before.len() == n,
                            done == flagged(flags_before),
                            avail@.len() == m,
                            avail_before.len() == m,
                            c <= m,
                            forall|k: int|
                                0 <= k < m ==> avail_before[k] == v.work[k] + #[trigger] v.held_by(
                                    done,
                                    k,
                                    n as int,
                                ),
                            forall|k: int|
                                0 <= k < c ==> #[trigger] avail@[k] == avail_before[k]
                                    + self@.alloc[x as int][k],
                            forall|k: int| c <= k < m ==> #[trigger] avail@[k] == avail_before[k],
                        decreases m - c,
                    {
                        proof {
                            let k = c as int;
                            assert(self@.alloc[x as int].len() == self@.work.len());
                            lemma_held_by_insert(v, done, x as int, k, n as int);
                            lemma_held_by_monotone(v, done.insert(x as int), Set::full(), k, n as int);
                            lemma_held_by_same(self@, v, Set::full(), Set::full(), k, n as int);
                            assert(self@.capacity(k) <= usize::MAX);
                            assert(avail_before[k] == v.work[k] + v.held_by(done, k, n as int));
                        }
                        avail[c] = avail[c] + self.alloc[x][c];
                        c += 1;
                    }
                    finish[x] = true;
                    proof {
                        assert(flagged(finish@) =~= done.insert(x as int));
                        lemma_unset_count_set(flags_before, x as int);
                        assert(finish@ =~= flags_before.update(x as int, true));
                        assert forall|k: int| 0 <= k < m implies avail@[k] == v.work[k]
                            + #[trigger] v.held_by(flagged(finish@), k, n as int) by {
                            lemma_held_by_insert(v, done, x as int, k, n as int);
                            assert(avail_before[k] == v.work[k] + v.held_by(done, k, n as int));
                        }
                        assert forall|blocked: Set<int>, i: int|
                            #[trigger] v.deadlocked(blocked) && 0 <= i < n && finish@[i]
                                implies !#[trigger] blocked.contains(i) by {
                            if i == x {
                                if blocked.contains(x as int) {
                                    assert(v.stuck_in(x as int, blocked));
                                    let k = choose|k: int|
                                        0 <= k < v.resources() && #[trigger] v.need[x as int][k]
                                            > v.free_outside(blocked, k);
                                    assert forall|j: int|
                                        0 <= j < n && done.contains(j) implies blocked.complement().contains(
                                        j,
                                    ) by {
                                        assert(flags_before[j]);
                                        assert(!blocked.contains(j));
                                    }
                                    lemma_held_by_monotone(v, done, blocked.complement(), k, n as int);
                                    assert(avail_before[k] == v.work[k] + v.held_by(done, k, n as int));
                                    assert(v.need[x as int][k] <= ints(avail_before)[k]);
                                    assert(false);
                                }
                            } else {
                                assert(flags_before[i]);
                            }
                        }
                    }
                },
            }
        }
        let mut all = true;
        let mut i: usize = 0;
        while i < n
            invariant
                finish@.len() == n,
                i <= n,
                all == (forall|j: int| 0 <= j < i ==> finish@[j]),
            decreases n - i,
        {
            if !finish[i] {
                all = false;
            }
            i += 1;
        }
        proof {
            if all {
                assert forall|blocked: Set<int>| !#[trigger] v.deadlocked(blocked) by {
                    if v.deadlocked(blocked) {
                        let j = choose|j: int| #[trigger] blocked.contains(j);
                        assert(0 <= j < n);
                        assert(finish@[j]);
                    }
                }
            } else {
                let blocked = Set::new(|j: int| 0 <= j < n && !finish@[j]);
                let w = choose|j: int| 0 <= j < n && !finish@[j];
                assert(blocked.contains(w));
                assert forall|j: int| #[trigger] blocked.contains(j) implies 0 <= j < v.threads()
                    && v.stuck_in(j, blocked) by {
                    assert(!v.row_satisfied(j, ints(avail@)));
                    let k = choose|k: int|
                        0 <= k < v.resources() && !(#[trigger] v.need[j][k] <= ints(avail@)[k]);
                    lemma_held_by_same(v, v, flagged(finish@), blocked.complement(), k, n as int);
                    assert(avail@[k] == v.work[k] + v.held_by(flagged(finish@), k, n as int));
                    assert(v.need[j][k] > v.free_outside(blocked, k));
                }
                assert(v.deadlocked(blocked));
            }
        }
        all
    }
}

} // verus!
