//! Safe states by another name: a ledger is safe exactly when its threads
//! can finish one after another, each with what is free once those before
//! it have given back all that they hold.
use vstd::prelude::*;
use vstd::set_lib::{lemma_int_range, lemma_len_subset, set_int_range};
use crate::deadlock::{LedgerView, lemma_held_by_monotone, lemma_held_by_same};

verus! {

impl LedgerView {
    /// The units of `r` that are free once the threads of `done` have given
    /// back all that they hold.
    pub open spec fn free_after(self, done: Set<int>, r: int) -> int {
        self.work[r] + self.held_by(done, r, self.threads())
    }

    /// Thread `t` can finish once the threads of `done` have: each of its
    /// requests can be met then.
    pub open spec fn can_finish_after(self, t: int, done: Set<int>) -> bool {
        forall|r: int|
            0 <= r < self.resources() ==> #[trigger] self.need[t][r] <= self.free_after(done, r)
    }

    /// The threads of `part` can finish in this order, one after another.
    pub open spec fn finishes_part(self, part: Seq<int>) -> bool {
        &&& part.no_duplicates()
        &&& forall|k: int|
            0 <= k < part.len() ==> 0 <= #[trigger] part[k] < self.threads() && self.can_finish_after(
                part[k],
                part.take(k).to_set(),
            )
    }

    /// All threads can finish in the order `order`, one after another.
    pub open spec fn finishes_in(self, order: Seq<int>) -> bool {
        &&& self.finishes_part(order)
        &&& forall|t: int| 0 <= t < self.threads() ==> #[trigger] order.contains(t)
    }
}

/// The first place in `order`, up to `i`, that holds a member of `set`.
proof fn lemma_first_member(order: Seq<int>, set: Set<int>, i: int) -> (k: int)
    requires
        0 <= i < order.len(),
        set.contains(order[i]),
    ensures
        0 <= k <= i,
        set.contains(order[k]),
        forall|j: int| 0 <= j < k ==> !set.contains(#[trigger] order[j]),
    decreases i,
{
    if exists|j: int| 0 <= j < i && set.contains(#[trigger] order[j]) {
        let j = choose|j: int| 0 <= j < i && set.contains(#[trigger] order[j]);
        lemma_first_member(order, set, j)
    } else {
        i
    }
}

/// Threads that can finish one after another leave no set of threads
/// deadlocked.
pub proof fn lemma_order_is_safe(v: LedgerView, order: Seq<int>)
    requires
        v.wf(),
        v.finishes_in(order),
    ensures
        v.is_safe(),
{
    assert forall|blocked: Set<int>| !#[trigger] v.deadlocked(blocked) by {
        if v.deadlocked(blocked) {
            let member = choose|t: int| #[trigger] blocked.contains(t);
            assert(0 <= member < v.threads());
            assert(order.contains(member));
            let i = choose|i: int| 0 <= i < order.len() && order[i] == member;
            let k = lemma_first_member(order, blocked, i);
            let t = order[k];
            let before = order.take(k).to_set();
            assert(v.stuck_in(t, blocked));
            let r = choose|r: int|
                0 <= r < v.resources() && #[trigger] v.need[t][r] > v.free_outside(blocked, r);
            assert forall|x: int| 0 <= x < v.threads() && before.contains(x) implies blocked.complement().contains(
                x,
            ) by {
                let j = choose|j: int| 0 <= j < order.take(k).len() && order.take(k)[j] == x;
                assert(order[j] == x);
            }
            lemma_held_by_monotone(v, before, blocked.complement(), r, v.threads());
            assert(v.can_finish_after(t, before));
            assert(v.need[t][r] <= v.free_after(before, r));
            assert(false);
        }
    }
}

/// No more threads can finish one after another than there are.
proof fn lemma_part_is_short(v: LedgerView, part: Seq<int>, missing: int)
    requires
        v.finishes_part(part),
        0 <= missing < v.threads(),
        !part.contains(missing),
    ensures
        part.len() < v.threads(),
{
    let n = v.threads();
    part.unique_seq_to_set();
    lemma_int_range(0, n);
    let all = set_int_range(0, n);
    let others = all.remove(missing);
    assert(part.to_set().subset_of(others)) by {
        assert forall|x: int| part.to_set().contains(x) implies others.contains(x) by {
            let j = choose|j: int| 0 <= j < part.len() && part[j] == x;
            assert(0 <= part[j] < n);
        }
    }
    lemma_len_subset(part.to_set(), others);
}

/// In a safe ledger, threads that can finish one after another can be
/// followed by the others until all have finished.
proof fn lemma_grow_order(v: LedgerView, part: Seq<int>) -> (order: Seq<int>)
    requires
        v.wf(),
        v.is_safe(),
        v.finishes_part(part),
    ensures
        v.finishes_in(order),
    decreases v.threads() - part.len(),
{
    let n = v.threads();
    if forall|t: int| 0 <= t < n ==> #[trigger] part.contains(t) {
        part
    } else {
        let missing = choose|t: int| 0 <= t < n && !#[trigger] part.contains(t);
        lemma_part_is_short(v, part, missing);
        let blocked = Set::new(|t: int| 0 <= t < n && !part.contains(t));
        assert(blocked.contains(missing));
        assert(!v.deadlocked(blocked));
        let t = choose|t: int| #[trigger]
            blocked.contains(t) && !(0 <= t < v.threads() && v.stuck_in(t, blocked));
        let done = part.to_set();
        assert forall|r: int| 0 <= r < v.resources() implies #[trigger] v.need[t][r] <= v.free_after(
            done,
            r,
        ) by {
            assert forall|x: int| 0 <= x < n implies done.contains(x) == blocked.complement().contains(
                x,
            ) by {
                if part.contains(x) {
                    let j = choose|j: int| 0 <= j < part.len() && part[j] == x;
                    assert(done.contains(part[j]));
                }
            }
            lemma_held_by_same(v, v, done, blocked.complement(), r, n);
            assert(!(v.need[t][r] > v.free_outside(blocked, r)));
        }
        let next = part.push(t);
        assert(next.no_duplicates()) by {
            assert forall|a: int, b: int| 0 <= a < next.len() && 0 <= b < next.len() && a != b implies next[a]
                != next[b] by {
                if a < part.len() && b < part.len() {
                } else if a < part.len() {
                    assert(part.contains(part[a]));
                } else {
                    assert(part.contains(part[b]));
                }
            }
        }
        assert forall|k: int| 0 <= k < next.len() implies 0 <= #[trigger] next[k] < v.threads()
            && v.can_finish_after(next[k], next.take(k).to_set()) by {
            if k < part.len() {
                assert(next.take(k) =~= part.take(k));
                assert(next[k] == part[k]);
            } else {
                assert(next.take(k) =~= part);
            }
        }
        lemma_grow_order(v, next)
    }
}

/// In a safe ledger the threads can finish one after another.
pub proof fn lemma_safe_has_order(v: LedgerView) -> (order: Seq<int>)
    requires
        v.wf(),
        v.is_safe(),
    ensures
        v.finishes_in(order),
{
    lemma_grow_order(v, Seq::empty())
}

/// A ledger is safe exactly when its threads can finish one after another.
pub proof fn lemma_safe_iff_order(v: LedgerView)
    requires
        v.wf(),
    ensures
        v.is_safe() <==> exists|order: Seq<int>| #[trigger] v.finishes_in(order),
{
    if v.is_safe() {
        let order = lemma_safe_has_order(v);
        assert(v.finishes_in(order));
    }
    if exists|order: Seq<int>| #[trigger] v.finishes_in(order) {
        let order = choose|order: Seq<int>| #[trigger] v.finishes_in(order);
        lemma_order_is_safe(v, order);
    }
}

} // verus!
