//! Mutexes, semaphores and condition variables of a process.
//!
//! A mutex or a semaphore is a slot in a [`Pool`]: the slot holds how many
//! of its units are free and the tasks that wait for it. A mutex is a
//! resource of one unit. A unit that is given back while a task waits is
//! kept for that task, which becomes ready.
//!
//! The pool's [`Ledger`] is the book of deadlock detection. It is written
//! only while detection is on: a request is entered when it is made, a unit
//! given back is entered when it is given back, and a unit taken is entered
//! when the task that took it is on the processor with it.
use vstd::prelude::*;
use std::collections::VecDeque;
use crate::deadlock::{
    Ledger, LedgerView, lemma_capacity_add_resource, lemma_capacity_add_thread,
    lemma_capacity_given, lemma_capacity_request, lemma_capacity_reset_resource,
    lemma_capacity_settle, lemma_capacity_taken, lemma_kept_by,
};
use crate::slots::{SlotTable, first_free, is_first_free, live, vacated};
use crate::task::{Pending, TaskControlBlock, TaskStatus};

verus! {

/// How an attempt to take one unit of a resource ended.
#[derive(Clone, Copy, PartialEq, Eq, Structural, Debug)]
pub enum Acquire {
    /// The id names no live resource. Nothing has changed.
    NoSuchResource,
    /// Granting the request could leave a set of threads waiting for each
    /// other for ever. Nothing has changed.
    Refused,
    /// The caller holds one more unit.
    Granted,
    /// No unit is free and the resource is waited for busily: the caller is
    /// to give up the processor and to try again.
    Spinning,
    /// No unit is free: the caller has been put on the wait list.
    Parked,
}

/// How an attempt to give one unit of a resource back ended.
#[derive(Clone, Copy, PartialEq, Eq, Structural, Debug)]
pub enum Release {
    /// The id names no live resource. Nothing has changed.
    NoSuchResource,
    /// Every unit is free already, and the resource takes back only what
    /// was taken. Nothing has changed.
    NotHeld,
    /// The resource cannot count one free unit more. Nothing has changed.
    Full,
    /// One unit has come back; it is free now, or is kept for the task that
    /// waited longest.
    Released,
}

/// The task as it goes onto a wait list.
pub open spec fn parked(task: TaskControlBlock) -> TaskControlBlock {
    TaskControlBlock { status: TaskStatus::Blocked, spinning: None, pending: None, ..task }
}

/// The task as it leaves the wait list of resource `id` with a unit, for
/// the ready queue. A task that asked by a system call has its acquisition
/// to complete; one that took its mutex again after a wait on a condition
/// variable has nothing left to settle.
pub open spec fn handed(task: TaskControlBlock, id: usize, semaphore: bool) -> TaskControlBlock {
    TaskControlBlock {
        status: TaskStatus::Ready,
        pending: match task.pending {
            Some(Pending::Relock(_)) => None,
            _ => if semaphore {
                Some(Pending::TookSemaphore(id))
            } else {
                Some(Pending::TookMutex(id))
            },
        },
        ..task
    }
}

/// The task as it leaves a wait list for the ready queue.
pub open spec fn woken(task: TaskControlBlock) -> TaskControlBlock {
    TaskControlBlock { status: TaskStatus::Ready, ..task }
}

/// A task that waits on a condition variable, and the mutex that it gave
/// up to wait and takes again before it goes on.
#[derive(Clone, Copy, Debug)]
pub struct CondWaiter {
    pub task: TaskControlBlock,
    pub mutex_id: usize,
}

/// A condition variable: the tasks that wait to be signalled.
pub struct Condvar {
    pub wait_queue: VecDeque<CondWaiter>,
}

/// One mutex or semaphore: its kind, its units and the tasks that wait for
/// it.
pub struct Resource {
    /// Whether a task that finds no unit free keeps the processor busy
    /// (a spin mutex) in place of being parked here.
    pub busy_wait: bool,
    /// The units that the resource was made with: 1 for a mutex, the count
    /// for a semaphore.
    pub units: usize,
    /// The units that are free. A unit kept for a task that has been woken
    /// is not free.
    pub count: usize,
    pub tasks: VecDeque<TaskControlBlock>,
}

/// The mutexes, or the semaphores, of one process.
pub struct Pool {
    /// The process that the pool belongs to.
    pub owner: usize,
    pub slots: SlotTable<Resource>,
    pub ledger: Ledger,
}

impl Pool {
    /// `w` can wait in this pool: it is a blocked thread of the owner.
    pub open spec fn waiter_ok(&self, w: TaskControlBlock) -> bool {
        w.pid == self.owner && w.tid < self.ledger@.threads() && w.status == TaskStatus::Blocked
    }

    /// The ledger has a column for every slot; in the ledger, the free
    /// units of every resource and the units that the threads hold add up to
    /// the units that the resource was made with; and the tasks on the
    /// wait lists are blocked threads of the owner.
    pub open spec fn wf(&self) -> bool {
        &&& self.ledger.wf()
        &&& self.ledger@.resources() == self.slots@.len()
        &&& forall|id: int|
            live(self.slots@, id) ==> #[trigger] self.ledger@.capacity(id) == self.slots@[id]->0.units
        &&& forall|id: int, k: int|
            live(self.slots@, id) && 0 <= k < self.slots@[id]->0.tasks@.len() ==> self.waiter_ok(
                #[trigger] self.slots@[id]->0.tasks@[k],
            )
    }

    /// A step that leaves every capacity and every slot's units alone, and
    /// changes the wait lists at most by one valid task that joins the list
    /// of `id` or by the head of that list leaving, keeps the pool well
    /// formed.
    pub proof fn lemma_wf_step(
        before: Pool,
        after: Pool,
        id: int,
        joined: Option<TaskControlBlock>,
        left: bool,
    )
        requires
            before.wf(),
            after.owner == before.owner,
            after.ledger.wf(),
            after.ledger@.threads() >= before.ledger@.threads(),
            after.ledger@.resources() == before.ledger@.resources(),
            forall|c: int|
                0 <= c < before.ledger@.resources() ==> #[trigger] after.ledger@.capacity(c)
                    == before.ledger@.capacity(c),
            after.slots@.len() == before.slots@.len(),
            forall|j: int|
                0 <= j < before.slots@.len() ==> ((#[trigger] after.slots@[j]) is Some) == (
                before.slots@[j] is Some),
            forall|j: int|
                live(before.slots@, j) ==> (#[trigger] after.slots@[j])->0.units
                    == before.slots@[j]->0.units,
            forall|j: int|
                live(before.slots@, j) && j != id ==> (#[trigger] after.slots@[j])->0.tasks@
                    == before.slots@[j]->0.tasks@,
            live(before.slots@, id) ==> after.slots@[id]->0.tasks@ == match joined {
                Some(w) => before.slots@[id]->0.tasks@.push(w),
                None => if left {
                    before.slots@[id]->0.tasks@.drop_first()
                } else {
                    before.slots@[id]->0.tasks@
                },
            },
            joined matches Some(w) ==> before.waiter_ok(w),
            left && live(before.slots@, id) ==> before.slots@[id]->0.tasks@.len() > 0,
        ensures
            after.wf(),
    {
        assert forall|j: int| live(after.slots@, j) implies #[trigger] after.ledger@.capacity(j)
            == after.slots@[j]->0.units by {
            assert(before.ledger@.capacity(j) == before.slots@[j]->0.units);
        }
        assert forall|j: int, k: int|
            live(after.slots@, j) && 0 <= k < after.slots@[j]->0.tasks@.len() implies after.waiter_ok(
            #[trigger] after.slots@[j]->0.tasks@[k],
        ) by {
            let old_tasks = before.slots@[j]->0.tasks@;
            if j != id {
                assert(before.waiter_ok(old_tasks[k]));
            } else {
                match joined {
                    Some(w) => {
                        if k < old_tasks.len() {
                            assert(before.waiter_ok(old_tasks[k]));
                        }
                    },
                    None => {
                        if left {
                            assert(before.waiter_ok(old_tasks[k + 1]));
                        } else {
                            assert(before.waiter_ok(old_tasks[k]));
                        }
                    },
                }
            }
        }
    }

    /// The ledger after thread `t` has asked for a unit of `r`. An entry at
    /// the largest machine word stays as it is.
    pub open spec fn asked(&self, t: int, r: int) -> LedgerView {
        if self.ledger@.need[t][r] < usize::MAX {
            self.ledger@.request(t, r)
        } else {
            self.ledger@
        }
    }

    /// How `task` fares when it asks for one unit of resource `id`, with
    /// deadlock detection on or off as `detect` says. With detection, the
    /// safety check looks at the ledger of this pool and at that of the
    /// process's other pool, `other`, together; a task that repeats its
    /// attempt on a spin mutex is not checked again. Whether a unit is free
    /// is for the resource to say, not for the ledger.
    pub open spec fn acquire_outcome(
        &self,
        task: TaskControlBlock,
        id: int,
        detect: bool,
        other: LedgerView,
    ) -> Acquire {
        if !live(self.slots@, id) {
            Acquire::NoSuchResource
        } else if detect && task.spinning != Some(id as usize) && !self.ledger@.beside(
            other,
        ).request(task.tid as int, id).is_safe() {
            Acquire::Refused
        } else if self.slots@[id]->0.count >= 1 {
            Acquire::Granted
        } else if self.slots@[id]->0.busy_wait {
            Acquire::Spinning
        } else {
            Acquire::Parked
        }
    }

    /// The ledger after that attempt. Without detection it is as it was.
    /// With detection, a request that has to wait is entered, and a unit
    /// that is taken at once passes from the free units to the task, as far
    /// as the ledger has one free; a refused request leaves no trace.
    pub open spec fn acquire_ledger(
        &self,
        task: TaskControlBlock,
        id: int,
        detect: bool,
        other: LedgerView,
    ) -> LedgerView {
        let again = task.spinning == Some(id as usize);
        let t = task.tid as int;
        match self.acquire_outcome(task, id, detect, other) {
            Acquire::Granted => if !detect {
                self.ledger@
            } else if again {
                self.ledger@.settle(t, id).taken(t, id)
            } else {
                self.ledger@.taken(t, id)
            },
            Acquire::Spinning | Acquire::Parked => if detect && !again {
                self.asked(t, id)
            } else {
                self.ledger@
            },
            _ => self.ledger@,
        }
    }

    /// The pool `after` is what `self` becomes by that attempt: a unit that
    /// is granted is no longer free, and a task that is parked joins the
    /// wait list.
    pub open spec fn acquired(
        &self,
        after: Pool,
        task: TaskControlBlock,
        id: int,
        detect: bool,
        other: LedgerView,
    ) -> bool {
        &&& after.owner == self.owner
        &&& after.ledger@ == self.acquire_ledger(task, id, detect, other)
        &&& match self.acquire_outcome(task, id, detect, other) {
            Acquire::NoSuchResource | Acquire::Refused => after == *self,
            Acquire::Spinning => after.slots == self.slots,
            Acquire::Granted => self.slot_changed(
                after,
                id,
                self.slots@[id]->0.count - 1,
                self.slots@[id]->0.tasks@,
            ),
            Acquire::Parked => self.slot_changed(
                after,
                id,
                self.slots@[id]->0.count as int,
                self.slots@[id]->0.tasks@.push(parked(task)),
            ),
        }
    }

    /// The slots of `after` are those of `self`, but that resource `id` has
    /// `count` free units and the wait list `tasks`.
    pub open spec fn slot_changed(
        &self,
        after: Pool,
        id: int,
        count: int,
        tasks: Seq<TaskControlBlock>,
    ) -> bool {
        &&& after.slots@.len() == self.slots@.len()
        &&& forall|j: int| 0 <= j < self.slots@.len() && j != id ==> after.slots@[j] == self.slots@[j]
        &&& after.slots@[id] is Some
        &&& after.slots@[id]->0.busy_wait == self.slots@[id]->0.busy_wait
        &&& after.slots@[id]->0.units == self.slots@[id]->0.units
        &&& after.slots@[id]->0.count == count
        &&& after.slots@[id]->0.tasks@ == tasks
    }

    /// How a task fares that takes mutex `id` again after a wait on a
    /// condition variable. Nothing is checked and nothing is entered in the
    /// ledger.
    pub open spec fn reacquire_outcome(&self, id: int) -> Acquire {
        if !live(self.slots@, id) {
            Acquire::NoSuchResource
        } else if self.slots@[id]->0.count >= 1 {
            Acquire::Granted
        } else if self.slots@[id]->0.busy_wait {
            Acquire::Spinning
        } else {
            Acquire::Parked
        }
    }

    /// The pool `after` is what `self` becomes when `task` takes mutex `id`
    /// again: the ledger is as it was; a task that is parked keeps the mark
    /// of what it is about.
    pub open spec fn reacquired(&self, after: Pool, task: TaskControlBlock, id: int) -> bool {
        &&& after.owner == self.owner
        &&& after.ledger == self.ledger
        &&& match self.reacquire_outcome(id) {
            Acquire::Granted => self.slot_changed(
                after,
                id,
                self.slots@[id]->0.count - 1,
                self.slots@[id]->0.tasks@,
            ),
            Acquire::Parked => self.slot_changed(
                after,
                id,
                self.slots@[id]->0.count as int,
                self.slots@[id]->0.tasks@.push(
                    TaskControlBlock {
                        pending: Some(Pending::Relock(id as usize)),
                        ..parked(task)
                    },
                ),
            ),
            _ => after.slots == self.slots,
        }
    }

    /// How a release of one unit of resource `id` fares. A mutex
    /// (`may_supply` is false) takes back only a unit that is taken; a
    /// semaphore takes any unit.
    pub open spec fn release_outcome(&self, id: int, may_supply: bool) -> Release {
        if !live(self.slots@, id) {
            Release::NoSuchResource
        } else if !may_supply && self.slots@[id]->0.count >= 1 {
            Release::NotHeld
        } else if self.slots@[id]->0.tasks@.len() == 0 && self.slots@[id]->0.count >= usize::MAX {
            Release::Full
        } else {
            Release::Released
        }
    }

    /// The ledger after thread `tid` has released a unit of `id`. Without
    /// detection it is as it was, whether or not a task waits. With
    /// detection the unit passes from the thread to the free units, as far
    /// as the ledger has the thread hold one.
    pub open spec fn release_ledger(&self, tid: int, id: int, may_supply: bool, detect: bool) -> LedgerView {
        if detect && self.release_outcome(id, may_supply) == Release::Released {
            self.ledger@.given(tid, id)
        } else {
            self.ledger@
        }
    }

    /// The task that the release sets going, as it comes to the ready queue:
    /// the task at the head of the wait list, if the release succeeds.
    pub open spec fn next_holder(&self, id: int, may_supply: bool) -> Option<TaskControlBlock> {
        if self.release_outcome(id, may_supply) == Release::Released
            && self.slots@[id]->0.tasks@.len() > 0 {
            Some(handed(self.slots@[id]->0.tasks@[0], id as usize, may_supply))
        } else {
            None
        }
    }

    /// The pool `after` is what that release leads to: the unit is kept for
    /// the task at the head of the wait list, which leaves the list; where
    /// nobody waits the unit is free.
    pub open spec fn released(
        &self,
        after: Pool,
        tid: int,
        id: int,
        may_supply: bool,
        detect: bool,
    ) -> bool {
        &&& after.owner == self.owner
        &&& after.ledger@ == self.release_ledger(tid, id, may_supply, detect)
        &&& match self.release_outcome(id, may_supply) {
            Release::Released => {
                let queue = self.slots@[id]->0.tasks@;
                if queue.len() > 0 {
                    self.slot_changed(after, id, self.slots@[id]->0.count as int, queue.drop_first())
                } else {
                    self.slot_changed(after, id, self.slots@[id]->0.count + 1, queue)
                }
            },
            _ => after == *self,
        }
    }

    /// The ledger after thread `tid` has come to the processor with the
    /// unit of `id` that was kept for it. Without detection, or where the
    /// ledger has no such column, it is as it was. With detection the
    /// thread's request is struck out and the unit passes from the free
    /// units to the thread, as far as the ledger has one free.
    pub open spec fn complete_ledger(&self, tid: int, id: int, detect: bool) -> LedgerView {
        if detect && 0 <= id < self.ledger@.resources() {
            self.ledger@.settle(tid, id).taken(tid, id)
        } else {
            self.ledger@
        }
    }

    /// Resource `id` is live, nobody waits for it and none of its units is
    /// taken.
    pub open spec fn idle(&self, id: int) -> bool {
        &&& live(self.slots@, id)
        &&& self.slots@[id]->0.tasks@.len() == 0
        &&& self.slots@[id]->0.count >= self.slots@[id]->0.units
    }

    /// `copy` is this pool as the new process `owner` gets it when thread
    /// `t` forks: the same resources are live, of the same kind and with as
    /// many units free; nobody waits for any; in the ledger the one thread
    /// of the new process holds what `t` held, and every other unit is
    /// free.
    pub open spec fn inherited(&self, copy: Pool, owner: usize, t: int) -> bool {
        &&& copy.owner == owner
        &&& copy.slots@.len() == self.slots@.len()
        &&& forall|id: int|
            0 <= id < self.slots@.len() ==> ((#[trigger] copy.slots@[id]) is Some) == (
            self.slots@[id] is Some)
        &&& forall|id: int|
            live(self.slots@, id) ==> {
                let made = (#[trigger] copy.slots@[id])->0;
                &&& made.busy_wait == self.slots@[id]->0.busy_wait
                &&& made.units == self.slots@[id]->0.units
                &&& made.count == self.slots@[id]->0.count
                &&& made.tasks@.len() == 0
            }
        &&& copy.ledger@ == self.ledger@.kept_by(t)
    }

    /// This pool as the new process `owner` gets it when thread `t` forks.
    pub fn kept_by(&self, owner: usize, t: usize) -> (copy: Pool)
        requires
            self.wf(),
            t < self.ledger@.threads(),
        ensures
            copy.wf(),
            self.inherited(copy, owner, t as int),
    {
        let n = self.slots.slots.len();
        let mut slots: Vec<Option<Resource>> = Vec::new();
        let mut id: usize = 0;
        while id < n
            invariant
                n == self.slots@.len(),
                id <= n,
                slots@.len() == id,
                forall|j: int| 0 <= j < id ==> ((#[trigger] slots@[j]) is Some) == (self.slots@[j] is Some),
                forall|j: int|
                    0 <= j < id && self.slots@[j] is Some ==> {
                        let made = (#[trigger] slots@[j])->0;
                        &&& made.busy_wait == self.slots@[j]->0.busy_wait
                        &&& made.units == self.slots@[j]->0.units
                        &&& made.count == self.slots@[j]->0.count
                        &&& made.tasks@.len() == 0
                    },
            decreases n - id,
        {
            let slot = match &self.slots.slots[id] {
                Some(resource) => Some(
                    Resource {
                        busy_wait: resource.busy_wait,
                        units: resource.units,
                        count: resource.count,
                        tasks: VecDeque::new(),
                    },
                ),
                None => None,
            };
            slots.push(slot);
            id += 1;
        }
        proof {
            lemma_kept_by(self.ledger@, t as int);
        }
        let copy = Pool { owner, slots: SlotTable { slots }, ledger: self.ledger.kept_by(t) };
        proof {
            assert forall|j: int| live(copy.slots@, j) implies #[trigger] copy.ledger@.capacity(j)
                == copy.slots@[j]->0.units by {
                assert(self.ledger@.capacity(j) == self.slots@[j]->0.units);
            }
        }
        copy
    }

    /// A pool without resources for the process `owner` with `threads` threads.
    pub fn new(owner: usize, threads: usize) -> (pool: Pool)
        ensures
            pool.wf(),
            pool.owner == owner,
            pool.slots@.len() == 0,
            pool.ledger@.threads() == threads,
    {
        Pool { owner, slots: SlotTable::new(), ledger: Ledger::new(threads) }
    }

    /// The pool `after` is this pool with one resource more, of `units`
    /// units, all free: it sits in the first free slot, nobody waits for
    /// it, and the ledger has a new column for it or has started the slot's
    /// old column afresh. The other resources are as they were.
    pub open spec fn created(&self, after: Pool, busy_wait: bool, units: int) -> bool {
        let id = first_free(self.slots@);
        &&& after.owner == self.owner
        &&& after.slots@.len() == if id < self.slots@.len() {
            self.slots@.len()
        } else {
            self.slots@.len() + 1
        }
        &&& forall|j: int| 0 <= j < self.slots@.len() && j != id ==> after.slots@[j] == self.slots@[j]
        &&& after.slots@[id] is Some
        &&& after.slots@[id]->0.busy_wait == busy_wait
        &&& after.slots@[id]->0.units == units
        &&& after.slots@[id]->0.count == units
        &&& after.slots@[id]->0.tasks@.len() == 0
        &&& after.ledger@ == if id < self.slots@.len() {
            self.ledger@.reset_resource(id, units)
        } else {
            self.ledger@.add_resource(units)
        }
    }

    /// Makes a resource of `units` units in the first free slot and returns
    /// its id. The ledger gets a column for it, or starts the slot's old
    /// column afresh.
    pub fn create(&mut self, busy_wait: bool, units: usize) -> (id: usize)
        requires
            old(self).wf(),
        ensures
            final(self).wf(),
            id == first_free(old(self).slots@),
            is_first_free(old(self).slots@, id as int),
            old(self).created(*final(self), busy_wait, units as int),
            final(self).ledger@.threads() == old(self).ledger@.threads(),
            final(self).ledger@.capacity(id as int) == units,
            final(self).ledger@.work[id as int] == units,
    {
        let resource = Resource { busy_wait, units, count: units, tasks: VecDeque::new() };
        let id = self.slots.insert(resource);
        if id < self.ledger.resources() {
            proof {
                lemma_capacity_reset_resource(self.ledger@, id as int, units as int);
            }
            self.ledger.reset_resource(id, units);
        } else {
            proof {
                lemma_capacity_add_resource(self.ledger@, units as int);
            }
            self.ledger.add_resource(units);
        }
        proof {
            assert forall|j: int| live(self.slots@, j) implies #[trigger] self.ledger@.capacity(j)
                == self.slots@[j]->0.units by {
                if j != id {
                    assert(self.slots@[j] == old(self).slots@[j]);
                    assert(old(self).ledger@.capacity(j) == old(self).slots@[j]->0.units);
                }
            }
            assert forall|j: int, k: int|
                live(self.slots@, j) && 0 <= k < self.slots@[j]->0.tasks@.len() implies self.waiter_ok(
                #[trigger] self.slots@[j]->0.tasks@[k],
            ) by {
                assert(self.slots@[j] == old(self).slots@[j]);
                assert(old(self).waiter_ok(old(self).slots@[j]->0.tasks@[k]));
            }
        }
        id
    }

    /// Takes resource `id` out of its slot if nobody waits for it and none
    /// of its units is taken, and says whether it did.
    pub fn destroy(&mut self, id: usize) -> (done: bool)
        requires
            old(self).wf(),
        ensures
            final(self).wf(),
            final(self).owner == old(self).owner,
            final(self).ledger == old(self).ledger,
            done == old(self).idle(id as int),
            done ==> final(self).slots@ == vacated(old(self).slots@, id as int),
            !done ==> final(self).slots == old(self).slots,
    {
        if !self.slots.is_live(id) {
            return false;
        }
        let resource = self.slots.slots[id].as_ref().unwrap();
        if resource.tasks.len() > 0 || resource.count < resource.units {
            return false;
        }
        self.slots.vacate(id);
        proof {
            assert forall|j: int| live(self.slots@, j) implies #[trigger] self.ledger@.capacity(j)
                == self.slots@[j]->0.units by {
                assert(self.slots@[j] == old(self).slots@[j]);
            }
            assert forall|j: int, k: int|
                live(self.slots@, j) && 0 <= k < self.slots@[j]->0.tasks@.len() implies self.waiter_ok(
                #[trigger] self.slots@[j]->0.tasks@[k],
            ) by {
                assert(self.slots@[j] == old(self).slots@[j]);
                assert(old(self).waiter_ok(old(self).slots@[j]->0.tasks@[k]));
            }
        }
        true
    }

    /// Gives a new thread of the owner its row in the ledger.
    pub fn add_thread(&mut self)
        requires
            old(self).wf(),
        ensures
            final(self).wf(),
            final(self).owner == old(self).owner,
            final(self).slots == old(self).slots,
            final(self).ledger@ == old(self).ledger@.add_thread(),
            final(self).ledger@.threads() == old(self).ledger@.threads() + 1,
    {
        proof {
            lemma_capacity_add_thread(self.ledger@);
        }
        self.ledger.add_thread();
        proof {
            Self::lemma_wf_step(*old(self), *self, -1, None, false);
        }
    }

    /// `task` asks for one unit of resource `id`, with deadlock detection
    /// on or off as `detect` says; `other` is the ledger of the process's
    /// other pool.
    pub fn acquire(
        &mut self,
        task: TaskControlBlock,
        id: usize,
        detect: bool,
        other: &Ledger,
    ) -> (outcome: Acquire)
        requires
            old(self).wf(),
            other.wf(),
            other@.threads() == old(self).ledger@.threads(),
            task.pid == old(self).owner,
            task.tid < old(self).ledger@.threads(),
        ensures
            final(self).wf(),
            outcome == old(self).acquire_outcome(task, id as int, detect, other@),
            old(self).acquired(*final(self), task, id as int, detect, other@),
            !detect ==> final(self).ledger == old(self).ledger,
            final(self).ledger@.threads() == old(self).ledger@.threads(),
            old(self).same_resources(*final(self)),
    {
        if !self.slots.is_live(id) {
            return Acquire::NoSuchResource;
        }
        let again = match task.spinning {
            Some(x) => x == id,
            None => false,
        };
        if detect && !again {
            let joint = self.ledger.beside(other);
            if !joint.is_safe_after_request(task.tid, id) {
                return Acquire::Refused;
            }
        }
        let ghost t = task.tid as int;
        let ghost r = id as int;
        let resource = self.slots.slots[id].as_ref().unwrap();
        let free = resource.count;
        let busy = resource.busy_wait;
        if free >= 1 {
            let resource = self.slots.slots[id].as_mut().unwrap();
            resource.count = free - 1;
            if detect {
                if again {
                    proof {
                        lemma_capacity_settle(self.ledger@, t, r);
                    }
                    self.ledger.settle(task.tid, id);
                }
                proof {
                    lemma_capacity_taken(self.ledger@, t, r);
                }
                self.ledger.take(task.tid, id);
            }
            proof {
                Self::lemma_wf_step(*old(self), *self, r, None, false);
            }
            return Acquire::Granted;
        }
        if detect && !again {
            proof {
                lemma_capacity_request(self.ledger@, t, r);
            }
            self.ledger.request(task.tid, id);
        }
        if busy {
            proof {
                Self::lemma_wf_step(*old(self), *self, r, None, false);
            }
            return Acquire::Spinning;
        }
        let mut waiter = task;
        waiter.status = TaskStatus::Blocked;
        waiter.spinning = None;
        waiter.pending = None;
        let resource = self.slots.slots[id].as_mut().unwrap();
        resource.tasks.push_back(waiter);
        proof {
            Self::lemma_wf_step(*old(self), *self, r, Some(waiter), false);
        }
        Acquire::Parked
    }

    /// The same slots are live in `after` as in `self`.
    pub open spec fn same_resources(&self, after: Pool) -> bool {
        &&& after.slots@.len() == self.slots@.len()
        &&& forall|j: int|
            0 <= j < self.slots@.len() ==> live(after.slots@, j) == live(self.slots@, j)
        &&& forall|j: int|
            live(self.slots@, j) ==> (#[trigger] after.slots@[j])->0.busy_wait
                == self.slots@[j]->0.busy_wait && after.slots@[j]->0.units
                == self.slots@[j]->0.units
    }

    /// `task` takes mutex `id` again after a wait on a condition variable.
    /// Nothing is checked and nothing is entered in the ledger.
    pub fn reacquire(&mut self, task: TaskControlBlock, id: usize) -> (outcome: Acquire)
        requires
            old(self).wf(),
            task.pid == old(self).owner,
            task.tid < old(self).ledger@.threads(),
        ensures
            final(self).wf(),
            outcome == old(self).reacquire_outcome(id as int),
            old(self).reacquired(*final(self), task, id as int),
            old(self).same_resources(*final(self)),
    {
        if !self.slots.is_live(id) {
            return Acquire::NoSuchResource;
        }
        let resource = self.slots.slots[id].as_ref().unwrap();
        let free = resource.count;
        if free >= 1 {
            let resource = self.slots.slots[id].as_mut().unwrap();
            resource.count = free - 1;
            proof {
                Self::lemma_wf_step(*old(self), *self, id as int, None, false);
            }
            return Acquire::Granted;
        }
        if resource.busy_wait {
            return Acquire::Spinning;
        }
        let resource = self.slots.slots[id].as_mut().unwrap();
        let mut waiter = task;
        waiter.status = TaskStatus::Blocked;
        waiter.spinning = None;
        waiter.pending = Some(Pending::Relock(id));
        resource.tasks.push_back(waiter);
        proof {
            Self::lemma_wf_step(*old(self), *self, id as int, Some(waiter), false);
        }
        Acquire::Parked
    }

    /// Thread `tid` gives one unit of resource `id` back, with deadlock
    /// detection on or off as `detect` says. The unit is kept for the task
    /// that has waited longest, which is handed out to be made ready; where
    /// nobody waits the unit is free.
    pub fn release(&mut self, tid: usize, id: usize, may_supply: bool, detect: bool) -> (result: (
        Release,
        Option<TaskControlBlock>,
    ))
        requires
            old(self).wf(),
            tid < old(self).ledger@.threads(),
        ensures
            final(self).wf(),
            result.0 == old(self).release_outcome(id as int, may_supply),
            result.1 == old(self).next_holder(id as int, may_supply),
            old(self).released(*final(self), tid as int, id as int, may_supply, detect),
            !detect ==> final(self).ledger == old(self).ledger,
            final(self).ledger@.threads() == old(self).ledger@.threads(),
            old(self).same_resources(*final(self)),
            result.1 matches Some(w) ==> w.pid == old(self).owner && w.tid < old(self).ledger@.threads()
                && w.status == TaskStatus::Ready,
    {
        if !self.slots.is_live(id) {
            return (Release::NoSuchResource, None);
        }
        let resource = self.slots.slots[id].as_ref().unwrap();
        let waiting = resource.tasks.len();
        if !may_supply && resource.count >= 1 {
            return (Release::NotHeld, None);
        }
        if waiting == 0 && resource.count == usize::MAX {
            return (Release::Full, None);
        }
        if detect {
            proof {
                lemma_capacity_given(self.ledger@, tid as int, id as int);
            }
            self.ledger.give(tid, id);
        }
        let resource = self.slots.slots[id].as_mut().unwrap();
        if waiting == 0 {
            resource.count = resource.count + 1;
            proof {
                Self::lemma_wf_step(*old(self), *self, id as int, None, false);
            }
            return (Release::Released, None);
        }
        let head = resource.tasks.pop_front();
        proof {
            Self::lemma_wf_step(*old(self), *self, id as int, None, true);
            assert(old(self).waiter_ok(old(self).slots@[id as int]->0.tasks@[0]));
        }
        match head {
            Some(w) => {
                let mut next = w;
                next.status = TaskStatus::Ready;
                next.pending = match w.pending {
                    Some(Pending::Relock(_)) => None,
                    _ => if may_supply {
                        Some(Pending::TookSemaphore(id))
                    } else {
                        Some(Pending::TookMutex(id))
                    },
                };
                (Release::Released, Some(next))
            },
            None => (Release::Released, None),
        }
    }

    /// Thread `tid` has come to the processor with the unit of resource
    /// `id` that was kept for it: with deadlock detection on, its
    /// acquisition is entered in the ledger.
    pub fn complete(&mut self, tid: usize, id: usize, detect: bool)
        requires
            old(self).wf(),
            tid < old(self).ledger@.threads(),
        ensures
            final(self).wf(),
            final(self).owner == old(self).owner,
            final(self).slots == old(self).slots,
            final(self).ledger@ == old(self).complete_ledger(tid as int, id as int, detect),
            !detect ==> final(self).ledger == old(self).ledger,
            final(self).ledger@.threads() == old(self).ledger@.threads(),
    {
        if detect && id < self.ledger.resources() {
            proof {
                lemma_capacity_settle(self.ledger@, tid as int, id as int);
                lemma_capacity_taken(self.ledger@.settle(tid as int, id as int), tid as int, id as int);
            }
            self.ledger.settle(tid, id);
            self.ledger.take(tid, id);
            proof {
                Self::lemma_wf_step(*old(self), *self, -1, None, false);
            }
        }
    }
}

/// The free units of a resource and the number of tasks that wait for it,
/// after one more task has asked for a unit: with a unit free the task gets
/// it, without it waits.
pub open spec fn after_down(free: int, waiting: int) -> (int, int) {
    if free >= 1 {
        (free - 1, waiting)
    } else {
        (free, waiting + 1)
    }
}

/// The free units of a resource and the number of tasks that wait for it,
/// after one unit has come back: it goes to a task that waits, if there is
/// one, and is free otherwise.
pub open spec fn after_up(free: int, waiting: int) -> (int, int) {
    if waiting >= 1 {
        (free, waiting - 1)
    } else {
        (free + 1, waiting)
    }
}

/// The free units and the number of waiting tasks of a resource that
/// started with `units` free units, after the ups (`true`) and downs
/// (`false`) of `ops`.
pub open spec fn after_ops(units: int, ops: Seq<bool>) -> (int, int)
    decreases ops.len(),
{
    if ops.len() == 0 {
        (units, 0)
    } else {
        let (free, waiting) = after_ops(units, ops.drop_last());
        if ops.last() {
            after_up(free, waiting)
        } else {
            after_down(free, waiting)
        }
    }
}

/// How many of `ops` are ups.
pub open spec fn ups(ops: Seq<bool>) -> int
    decreases ops.len(),
{
    if ops.len() == 0 {
        0
    } else {
        ups(ops.drop_last()) + if ops.last() {
            1int
        } else {
            0int
        }
    }
}

/// Whatever the order of ups and downs on a resource that started with
/// `units` units: the free units never go below zero; tasks wait only while
/// no unit is free; and the downs that have been granted, which are all
/// downs but those that still wait, are the units at the start and the ups
/// less the free units. So a down is granted exactly by a unit that was
/// free or has come by an up.
pub proof fn lemma_semaphore_count(units: int, ops: Seq<bool>)
    requires
        0 <= units,
    ensures
        ({
            let (free, waiting) = after_ops(units, ops);
            let downs = ops.len() - ups(ops);
            &&& 0 <= free
            &&& 0 <= waiting
            &&& waiting > 0 ==> free == 0
            &&& downs - waiting == units + ups(ops) - free
        }),
    decreases ops.len(),
{
    if ops.len() > 0 {
        lemma_semaphore_count(units, ops.drop_last());
    }
}

impl Pool {
    /// The free units of resource `id` and the number of tasks that wait for it.
    pub open spec fn count(&self, id: int) -> (int, int) {
        (self.slots@[id]->0.count as int, self.slots@[id]->0.tasks@.len() as int)
    }

    /// A down that is granted or parked moves the count of the resource as
    /// [`after_down`] says: it is granted at once exactly where a unit is
    /// free.
    pub proof fn lemma_down_counts(
        &self,
        after: Pool,
        task: TaskControlBlock,
        id: int,
        detect: bool,
        other: LedgerView,
    )
        requires
            self.acquired(after, task, id, detect, other),
            self.acquire_outcome(task, id, detect, other) == Acquire::Granted || self.acquire_outcome(
                task,
                id,
                detect,
                other,
            ) == Acquire::Parked,
        ensures
            after.count(id) == after_down(self.count(id).0, self.count(id).1),
            self.acquire_outcome(task, id, detect, other) == Acquire::Granted <==> self.count(id).0 >= 1,
    {
    }

    /// A release that succeeds moves the count of the resource as
    /// [`after_up`] says: the unit is free unless a task waited for it.
    pub proof fn lemma_up_counts(&self, after: Pool, tid: int, id: int, may_supply: bool, detect: bool)
        requires
            self.released(after, tid, id, may_supply, detect),
            self.release_outcome(id, may_supply) == Release::Released,
        ensures
            after.count(id) == after_up(self.count(id).0, self.count(id).1),
    {
    }

    /// With deadlock detection on, a release by a thread that holds a unit
    /// by the ledger raises `work` by one and lowers the thread's `alloc`
    /// by one, whether or not a task waits; the capacity stays. With
    /// detection off the ledger stays as it is.
    pub proof fn lemma_release_in_ledger(
        &self,
        after: Pool,
        tid: int,
        id: int,
        may_supply: bool,
        detect: bool,
    )
        requires
            self.wf(),
            0 <= tid < self.ledger@.threads(),
            self.released(after, tid, id, may_supply, detect),
            self.release_outcome(id, may_supply) == Release::Released,
        ensures
            !detect ==> after.ledger@ == self.ledger@,
            detect && self.ledger@.alloc[tid][id] >= 1 ==> {
                &&& after.ledger@.work[id] == self.ledger@.work[id] + 1
                &&& after.ledger@.alloc[tid][id] == self.ledger@.alloc[tid][id] - 1
                &&& after.ledger@.need == self.ledger@.need
                &&& after.ledger@.capacity(id) == self.ledger@.capacity(id)
            },
    {
        assert(self.ledger@.alloc[tid].len() == self.ledger@.work.len());
        lemma_capacity_given(self.ledger@, tid, id);
    }
}

} // verus!
