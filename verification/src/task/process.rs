//! Processes: an address space, the threads that run in it and the
//! synchronisation primitives that they share.
use vstd::prelude::*;
use std::collections::VecDeque;
use crate::deadlock::lemma_kept_by;
use crate::mm::MemorySet;
use crate::slots::{SlotTable, first_free, is_first_free, live};
use crate::sync::{Acquire, CondWaiter, Condvar, Pool, Release, Resource, parked, woken};
use crate::task::{Pending, TaskControlBlock, TaskStatus};

verus! {

/// Whether a process still runs.
#[derive(Clone, Copy, PartialEq, Eq, Structural, Debug)]
pub enum ProcessStatus {
    Running,
    /// The process has exited and its exit code waits to be collected.
    Zombie,
}

/// A program as the loader hands it over: its address space, the address
/// at which it starts and the top of its stack.
pub struct AppImage {
    pub memory_set: MemorySet,
    pub entry: usize,
    pub user_sp: usize,
}

/// Every mutex has one unit, free or taken.
pub open spec fn mutexes_ok(slots: Seq<Option<Resource>>) -> bool {
    forall|id: int|
        live(slots, id) ==> (#[trigger] slots[id])->0.units == 1 && slots[id]->0.count <= 1
}

/// No semaphore is waited for busily.
pub open spec fn semaphores_ok(slots: Seq<Option<Resource>>) -> bool {
    forall|id: int| live(slots, id) ==> !(#[trigger] slots[id])->0.busy_wait
}

/// Mutexes stay mutexes where one of them changes and still has at most one
/// unit free.
pub proof fn lemma_mutexes_ok(before: Pool, after: Pool, id: int)
    requires
        mutexes_ok(before.slots@),
        before.same_resources(after),
        forall|j: int|
            live(before.slots@, j) && j != id ==> (#[trigger] after.slots@[j])->0.count
                == before.slots@[j]->0.count,
        live(before.slots@, id) ==> after.slots@[id]->0.count <= 1,
    ensures
        mutexes_ok(after.slots@),
{
    assert forall|j: int| live(after.slots@, j) implies (#[trigger] after.slots@[j])->0.units == 1
        && after.slots@[j]->0.count <= 1 by {
        assert(live(before.slots@, j));
        assert(before.slots@[j]->0.units == 1);
    }
}

/// Semaphores stay semaphores where the same resources are live.
pub proof fn lemma_semaphores_ok(before: Pool, after: Pool)
    requires
        semaphores_ok(before.slots@),
        before.same_resources(after),
    ensures
        semaphores_ok(after.slots@),
{
    assert forall|j: int| live(after.slots@, j) implies !(#[trigger] after.slots@[j])->0.busy_wait by {
        assert(live(before.slots@, j));
        assert(!before.slots@[j]->0.busy_wait);
    }
}

/// `w` can wait on a condition variable of process `pid`, which has had
/// `threads` threads: it is a blocked thread of the process with nothing to
/// settle.
pub open spec fn cond_waiter_ok(w: CondWaiter, pid: usize, threads: usize) -> bool {
    &&& w.task.pid == pid
    &&& w.task.tid < threads
    &&& w.task.status == TaskStatus::Blocked
    &&& w.task.spinning is None
    &&& w.task.pending is None
}

/// The tasks that wait on the condition variables can wait there.
pub open spec fn condvars_ok(condvars: Seq<Option<Condvar>>, pid: usize, threads: usize) -> bool {
    forall|cv: int, k: int|
        live(condvars, cv) && 0 <= k < condvars[cv]->0.wait_queue@.len() ==> cond_waiter_ok(
            #[trigger] condvars[cv]->0.wait_queue@[k],
            pid,
            threads,
        )
}

/// The condition variables stay in order where the wait lists change at
/// most by one valid task that joins the list of `id` or by the head of
/// that list leaving, and no thread goes away.
pub proof fn lemma_condvars_ok(
    before: Seq<Option<Condvar>>,
    after: Seq<Option<Condvar>>,
    pid: usize,
    threads: usize,
    more: usize,
    id: int,
    joined: Option<CondWaiter>,
    left: bool,
)
    requires
        condvars_ok(before, pid, threads),
        threads <= more,
        forall|j: int| live(after, j) && j != id ==> live(before, j) && (#[trigger] after[j])->0.wait_queue@
            == before[j]->0.wait_queue@,
        live(after, id) && (joined is Some || left) ==> live(before, id),
        live(after, id) && live(before, id) ==> after[id]->0.wait_queue@ == match joined {
            Some(w) => before[id]->0.wait_queue@.push(w),
            None => if left {
                before[id]->0.wait_queue@.drop_first()
            } else {
                before[id]->0.wait_queue@
            },
        },
        live(after, id) && !live(before, id) ==> after[id]->0.wait_queue@.len() == 0,
        joined matches Some(w) ==> cond_waiter_ok(w, pid, more),
        left && live(before, id) ==> before[id]->0.wait_queue@.len() > 0,
    ensures
        condvars_ok(after, pid, more),
{
    assert forall|j: int, k: int|
        live(after, j) && 0 <= k < after[j]->0.wait_queue@.len() implies cond_waiter_ok(
        #[trigger] after[j]->0.wait_queue@[k],
        pid,
        more,
    ) by {
        let old_queue = before[j]->0.wait_queue@;
        if j != id {
            assert(cond_waiter_ok(old_queue[k], pid, threads));
        } else {
            match joined {
                Some(w) => {
                    if k < old_queue.len() {
                        assert(cond_waiter_ok(old_queue[k], pid, threads));
                    }
                },
                None => {
                    if left {
                        assert(cond_waiter_ok(old_queue[k + 1], pid, threads));
                    } else {
                        assert(cond_waiter_ok(old_queue[k], pid, threads));
                    }
                },
            }
        }
    }
}

/// One process.
pub struct ProcessControlBlock {
    pub pid: usize,
    /// The process that collects this one's exit code.
    pub parent: Option<usize>,
    /// The processes whose exit codes this one collects, oldest first.
    pub children: Vec<usize>,
    pub status: ProcessStatus,
    pub exit_code: i32,
    pub memory_set: MemorySet,
    /// Number of threads that the process has had; the next thread gets this number.
    pub thread_count: usize,
    pub deadlock_detect_enable: bool,
    pub mutexes: Pool,
    pub semaphores: Pool,
    pub condvars: SlotTable<Condvar>,
}

impl ProcessControlBlock {
    /// The parts are well formed and belong together: both pools are the
    /// process's own and have a row for each of its threads, every mutex has
    /// one unit, free or taken, no semaphore is waited for busily, the tasks
    /// that wait on condition variables are blocked threads of the process,
    /// no child is listed twice, and the process is not its own parent.
    pub open spec fn wf(&self) -> bool {
        &&& self.memory_set.wf()
        &&& self.mutexes.wf()
        &&& self.semaphores.wf()
        &&& self.mutexes.owner == self.pid
        &&& self.semaphores.owner == self.pid
        &&& self.thread_count >= 1
        &&& self.mutexes.ledger@.threads() == self.thread_count
        &&& self.semaphores.ledger@.threads() == self.thread_count
        &&& mutexes_ok(self.mutexes.slots@)
        &&& semaphores_ok(self.semaphores.slots@)
        &&& condvars_ok(self.condvars@, self.pid, self.thread_count)
        &&& self.children@.no_duplicates()
        &&& self.parent != Some(self.pid)
    }

    /// `after` is the same process with the same relatives, threads and memory.
    pub open spec fn same_frame(&self, after: ProcessControlBlock) -> bool {
        &&& after.pid == self.pid
        &&& after.parent == self.parent
        &&& after.children == self.children
        &&& after.status == self.status
        &&& after.exit_code == self.exit_code
        &&& after.memory_set == self.memory_set
        &&& after.thread_count == self.thread_count
        &&& after.deadlock_detect_enable == self.deadlock_detect_enable
    }

    /// A running process with one thread, nothing to synchronise on and no children.
    pub fn new(pid: usize, parent: Option<usize>, memory_set: MemorySet) -> (process:
        ProcessControlBlock)
        requires
            memory_set.wf(),
            parent != Some(pid),
        ensures
            process.wf(),
            process.pid == pid,
            process.parent == parent,
            process.children@.len() == 0,
            process.status == ProcessStatus::Running,
            process.exit_code == 0,
            process.memory_set == memory_set,
            process.thread_count == 1,
            !process.deadlock_detect_enable,
            process.mutexes.slots@.len() == 0,
            process.semaphores.slots@.len() == 0,
            process.condvars@.len() == 0,
    {
        ProcessControlBlock {
            pid,
            parent,
            children: Vec::new(),
            status: ProcessStatus::Running,
            exit_code: 0,
            memory_set,
            thread_count: 1,
            deadlock_detect_enable: false,
            mutexes: Pool::new(pid, 1),
            semaphores: Pool::new(pid, 1),
            condvars: SlotTable::new(),
        }
    }

    /// `child` is the process `pid` that a fork of thread `t` of this
    /// process makes: it runs, has one thread and no children yet; it has a
    /// copy of the memory, the same setting of deadlock detection, and the
    /// same mutexes, semaphores and condition variables, for which nobody
    /// waits; its one thread holds what `t` held.
    pub open spec fn forked(&self, child: ProcessControlBlock, pid: usize, t: int) -> bool {
        &&& child.pid == pid
        &&& child.parent == Some(self.pid)
        &&& child.children@.len() == 0
        &&& child.status == ProcessStatus::Running
        &&& child.exit_code == 0
        &&& child.thread_count == 1
        &&& child.deadlock_detect_enable == self.deadlock_detect_enable
        &&& child.memory_set.areas@ == self.memory_set.areas@
        &&& child.memory_set.heap_bottom == self.memory_set.heap_bottom
        &&& child.memory_set.program_brk == self.memory_set.program_brk
        &&& self.mutexes.inherited(child.mutexes, pid, t)
        &&& self.semaphores.inherited(child.semaphores, pid, t)
        &&& child.condvars@.len() == self.condvars@.len()
        &&& forall|cv: int|
            0 <= cv < self.condvars@.len() ==> ((#[trigger] child.condvars@[cv]) is Some) == (
            self.condvars@[cv] is Some)
        &&& forall|cv: int|
            live(self.condvars@, cv) ==> (#[trigger] child.condvars@[cv])->0.wait_queue@.len() == 0
    }

    /// The process `pid` that a fork of thread `t` of this process makes.
    pub fn fork(&self, pid: usize, t: usize) -> (child: ProcessControlBlock)
        requires
            self.wf(),
            t < self.thread_count,
            pid != self.pid,
        ensures
            child.wf(),
            self.forked(child, pid, t as int),
    {
        let n = self.condvars.slots.len();
        let mut condvars: Vec<Option<Condvar>> = Vec::new();
        let mut cv: usize = 0;
        while cv < n
            invariant
                n == self.condvars@.len(),
                cv <= n,
                condvars@.len() == cv,
                forall|j: int|
                    0 <= j < cv ==> ((#[trigger] condvars@[j]) is Some) == (self.condvars@[j] is Some),
                forall|j: int|
                    0 <= j < cv && self.condvars@[j] is Some ==> (#[trigger] condvars@[j])->0.wait_queue@.len()
                        == 0,
            decreases n - cv,
        {
            let slot = match &self.condvars.slots[cv] {
                Some(_) => Some(Condvar { wait_queue: VecDeque::new() }),
                None => None,
            };
            condvars.push(slot);
            cv += 1;
        }
        let child = ProcessControlBlock {
            pid,
            parent: Some(self.pid),
            children: Vec::new(),
            status: ProcessStatus::Running,
            exit_code: 0,
            memory_set: self.memory_set.duplicate(),
            thread_count: 1,
            deadlock_detect_enable: self.deadlock_detect_enable,
            mutexes: self.mutexes.kept_by(pid, t),
            semaphores: self.semaphores.kept_by(pid, t),
            condvars: SlotTable { slots: condvars },
        };
        proof {
            lemma_kept_by(self.mutexes.ledger@, t as int);
            lemma_kept_by(self.semaphores.ledger@, t as int);
            assert forall|id: int| live(child.mutexes.slots@, id) implies (
            #[trigger] child.mutexes.slots@[id])->0.units == 1 && child.mutexes.slots@[id]->0.count
                <= 1 by {
                assert(self.mutexes.slots@[id]->0.units == 1);
            }
            assert forall|id: int| live(child.semaphores.slots@, id) implies !(
            #[trigger] child.semaphores.slots@[id])->0.busy_wait by {
                assert(!self.semaphores.slots@[id]->0.busy_wait);
            }
        }
        child
    }

    /// Makes room for one more thread and returns its number, or `None`
    /// where the threads can no longer be counted.
    pub fn thread_create(&mut self) -> (tid: Option<usize>)
        requires
            old(self).wf(),
        ensures
            final(self).wf(),
            final(self).pid == old(self).pid,
            final(self).parent == old(self).parent,
            final(self).children == old(self).children,
            final(self).status == old(self).status,
            final(self).exit_code == old(self).exit_code,
            final(self).memory_set == old(self).memory_set,
            final(self).deadlock_detect_enable == old(self).deadlock_detect_enable,
            final(self).condvars == old(self).condvars,
            old(self).thread_count == usize::MAX ==> tid is None && *final(self) == *old(self),
            old(self).thread_count < usize::MAX ==> {
                &&& tid == Some(old(self).thread_count)
                &&& final(self).thread_count == old(self).thread_count + 1
                &&& final(self).mutexes.slots == old(self).mutexes.slots
                &&& final(self).semaphores.slots == old(self).semaphores.slots
                &&& final(self).mutexes.ledger@ == old(self).mutexes.ledger@.add_thread()
                &&& final(self).semaphores.ledger@ == old(self).semaphores.ledger@.add_thread()
            },
    {
        if self.thread_count == usize::MAX {
            return None;
        }
        let tid = self.thread_count;
        self.mutexes.add_thread();
        self.semaphores.add_thread();
        self.thread_count = tid + 1;
        proof {
            lemma_condvars_ok(
                self.condvars@,
                self.condvars@,
                self.pid,
                tid,
                self.thread_count,
                -1,
                None,
                false,
            );
        }
        Some(tid)
    }

    /// Switches the safety check of acquisitions on or off.
    pub fn set_deadlock_detect(&mut self, enabled: bool)
        requires
            old(self).wf(),
        ensures
            final(self).wf(),
            final(self).deadlock_detect_enable == enabled,
            final(self).pid == old(self).pid,
            final(self).parent == old(self).parent,
            final(self).children == old(self).children,
            final(self).status == old(self).status,
            final(self).exit_code == old(self).exit_code,
            final(self).memory_set == old(self).memory_set,
            final(self).thread_count == old(self).thread_count,
            final(self).mutexes == old(self).mutexes,
            final(self).semaphores == old(self).semaphores,
            final(self).condvars == old(self).condvars,
    {
        self.deadlock_detect_enable = enabled;
    }

    /// Makes a condition variable in the first free slot and returns its id.
    pub fn condvar_create(&mut self) -> (id: usize)
        requires
            old(self).wf(),
        ensures
            final(self).wf(),
            old(self).same_frame(*final(self)),
            final(self).mutexes == old(self).mutexes,
            final(self).semaphores == old(self).semaphores,
            id == first_free(old(self).condvars@),
            is_first_free(old(self).condvars@, id as int),
            final(self).condvars@.len() == if id < old(self).condvars@.len() {
                old(self).condvars@.len()
            } else {
                old(self).condvars@.len() + 1
            },
            forall|j: int|
                0 <= j < old(self).condvars@.len() && j != id ==> final(self).condvars@[j] == old(
                    self,
                ).condvars@[j],
            final(self).condvars@[id as int] is Some,
            final(self).condvars@[id as int]->0.wait_queue@.len() == 0,
    {
        let id = self.condvars.insert(Condvar { wait_queue: VecDeque::new() });
        proof {
            lemma_condvars_ok(
                old(self).condvars@,
                self.condvars@,
                self.pid,
                self.thread_count,
                self.thread_count,
                id as int,
                None,
                false,
            );
        }
        id
    }

    /// How `task` fares when it asks for mutex `id`
    /// (see [`Pool::acquire_outcome`]).
    pub open spec fn lock_outcome(&self, task: TaskControlBlock, id: int) -> Acquire {
        self.mutexes.acquire_outcome(task, id, self.deadlock_detect_enable, self.semaphores.ledger@)
    }

    /// `after` is what the request of `task` for mutex `id` leads to: the
    /// mutexes change as [`Pool::acquired`] says and nothing else changes.
    /// With deadlock detection off the ledgers are as they were.
    pub open spec fn locked(&self, after: ProcessControlBlock, task: TaskControlBlock, id: int) -> bool {
        &&& self.same_frame(after)
        &&& after.semaphores == self.semaphores
        &&& after.condvars == self.condvars
        &&& self.mutexes.acquired(
            after.mutexes,
            task,
            id,
            self.deadlock_detect_enable,
            self.semaphores.ledger@,
        )
        &&& !self.deadlock_detect_enable ==> after.mutexes.ledger == self.mutexes.ledger
    }

    /// `task` asks for mutex `id`.
    pub fn mutex_lock(&mut self, task: TaskControlBlock, id: usize) -> (outcome: Acquire)
        requires
            old(self).wf(),
            task.pid == old(self).pid,
            task.tid < old(self).thread_count,
        ensures
            final(self).wf(),
            outcome == old(self).lock_outcome(task, id as int),
            old(self).locked(*final(self), task, id as int),
    {
        let detect = self.deadlock_detect_enable;
        let outcome = self.mutexes.acquire(task, id, detect, &self.semaphores.ledger);
        proof {
            lemma_mutexes_ok(old(self).mutexes, self.mutexes, id as int);
        }
        outcome
    }

    /// How a release of mutex `id` fares: it succeeds where the mutex is
    /// live and taken.
    pub open spec fn unlock_outcome(&self, id: int) -> Release {
        self.mutexes.release_outcome(id, false)
    }

    /// `after` is what the release of mutex `id` by thread `tid` leads to:
    /// the mutexes change as [`Pool::released`] says and nothing else
    /// changes. With deadlock detection off the ledgers are as they were.
    pub open spec fn unlocked(&self, after: ProcessControlBlock, tid: int, id: int) -> bool {
        &&& self.same_frame(after)
        &&& after.semaphores == self.semaphores
        &&& after.condvars == self.condvars
        &&& self.mutexes.released(after.mutexes, tid, id, false, self.deadlock_detect_enable)
        &&& !self.deadlock_detect_enable ==> after.mutexes.ledger == self.mutexes.ledger
    }

    /// Thread `tid` gives mutex `id` back. Returns how that went, and the
    /// task for which the mutex is kept, to be made ready.
    pub fn mutex_unlock(&mut self, tid: usize, id: usize) -> (result: (
        Release,
        Option<TaskControlBlock>,
    ))
        requires
            old(self).wf(),
            tid < old(self).thread_count,
        ensures
            final(self).wf(),
            result.0 == old(self).unlock_outcome(id as int),
            result.1 == old(self).mutexes.next_holder(id as int, false),
            old(self).unlocked(*final(self), tid as int, id as int),
            result.1 matches Some(w) ==> w.pid == old(self).pid && w.tid < old(self).thread_count
                && w.status == TaskStatus::Ready,
    {
        let detect = self.deadlock_detect_enable;
        let result = self.mutexes.release(tid, id, false, detect);
        proof {
            lemma_mutexes_ok(old(self).mutexes, self.mutexes, id as int);
        }
        result
    }

    /// How `task` fares when it asks for one unit of semaphore `id`
    /// (see [`Pool::acquire_outcome`]). A semaphore is never waited for
    /// busily.
    pub open spec fn down_outcome(&self, task: TaskControlBlock, id: int) -> Acquire {
        self.semaphores.acquire_outcome(
            TaskControlBlock { spinning: None, ..task },
            id,
            self.deadlock_detect_enable,
            self.mutexes.ledger@,
        )
    }

    /// `after` is what the request of `task` for a unit of semaphore `id`
    /// leads to: the semaphores change as [`Pool::acquired`] says and
    /// nothing else changes. With deadlock detection off the ledgers are as
    /// they were.
    pub open spec fn downed(&self, after: ProcessControlBlock, task: TaskControlBlock, id: int) -> bool {
        &&& self.same_frame(after)
        &&& after.mutexes == self.mutexes
        &&& after.condvars == self.condvars
        &&& self.semaphores.acquired(
            after.semaphores,
            TaskControlBlock { spinning: None, ..task },
            id,
            self.deadlock_detect_enable,
            self.mutexes.ledger@,
        )
        &&& !self.deadlock_detect_enable ==> after.semaphores.ledger == self.semaphores.ledger
    }

    /// `task` asks for one unit of semaphore `id`.
    pub fn semaphore_down(&mut self, task: TaskControlBlock, id: usize) -> (outcome: Acquire)
        requires
            old(self).wf(),
            task.pid == old(self).pid,
            task.tid < old(self).thread_count,
        ensures
            final(self).wf(),
            outcome == old(self).down_outcome(task, id as int),
            outcome != Acquire::Spinning,
            old(self).downed(*final(self), task, id as int),
    {
        let detect = self.deadlock_detect_enable;
        let mut asker = task;
        asker.spinning = None;
        let outcome = self.semaphores.acquire(asker, id, detect, &self.mutexes.ledger);
        proof {
            lemma_semaphores_ok(old(self).semaphores, self.semaphores);
        }
        outcome
    }

    /// How a release of one unit of semaphore `id` fares.
    pub open spec fn up_outcome(&self, id: int) -> Release {
        self.semaphores.release_outcome(id, true)
    }

    /// `after` is what the release of one unit of semaphore `id` by thread
    /// `tid` leads to: the semaphores change as [`Pool::released`] says and
    /// nothing else changes. With deadlock detection off the ledgers are as
    /// they were.
    pub open spec fn upped(&self, after: ProcessControlBlock, tid: int, id: int) -> bool {
        &&& self.same_frame(after)
        &&& after.mutexes == self.mutexes
        &&& after.condvars == self.condvars
        &&& self.semaphores.released(after.semaphores, tid, id, true, self.deadlock_detect_enable)
        &&& !self.deadlock_detect_enable ==> after.semaphores.ledger == self.semaphores.ledger
    }

    /// Thread `tid` gives one unit of semaphore `id` back. Returns how that
    /// went, and the task for which the unit is kept, to be made ready.
    pub fn semaphore_up(&mut self, tid: usize, id: usize) -> (result: (
        Release,
        Option<TaskControlBlock>,
    ))
        requires
            old(self).wf(),
            tid < old(self).thread_count,
        ensures
            final(self).wf(),
            result.0 == old(self).up_outcome(id as int),
            result.1 == old(self).semaphores.next_holder(id as int, true),
            old(self).upped(*final(self), tid as int, id as int),
            result.1 matches Some(w) ==> w.pid == old(self).pid && w.tid < old(self).thread_count
                && w.status == TaskStatus::Ready,
    {
        let detect = self.deadlock_detect_enable;
        let result = self.semaphores.release(tid, id, true, detect);
        proof {
            lemma_semaphores_ok(old(self).semaphores, self.semaphores);
        }
        result
    }

    /// `after` is this process with one mutex more
    /// (see [`Pool::created`]).
    pub open spec fn with_mutex(&self, after: ProcessControlBlock, blocking: bool) -> bool {
        &&& self.same_frame(after)
        &&& after.semaphores == self.semaphores
        &&& after.condvars == self.condvars
        &&& self.mutexes.created(after.mutexes, !blocking, 1)
    }

    /// Makes a mutex in the first free slot and returns its id. With
    /// `blocking`, a task that finds the mutex taken is parked; without, it
    /// spins.
    pub fn mutex_create(&mut self, blocking: bool) -> (id: usize)
        requires
            old(self).wf(),
        ensures
            final(self).wf(),
            id == first_free(old(self).mutexes.slots@),
            is_first_free(old(self).mutexes.slots@, id as int),
            old(self).with_mutex(*final(self), blocking),
    {
        let id = self.mutexes.create(!blocking, 1);
        proof {
            assert forall|j: int| live(self.mutexes.slots@, j) implies (
            #[trigger] self.mutexes.slots@[j])->0.units == 1 && self.mutexes.slots@[j]->0.count
                <= 1 by {
                if j != id {
                    assert(self.mutexes.slots@[j] == old(self).mutexes.slots@[j]);
                }
            }
        }
        id
    }

    /// `after` is this process with one semaphore more, of `units` units
    /// (see [`Pool::created`]).
    pub open spec fn with_semaphore(&self, after: ProcessControlBlock, units: usize) -> bool {
        &&& self.same_frame(after)
        &&& after.mutexes == self.mutexes
        &&& after.condvars == self.condvars
        &&& self.semaphores.created(after.semaphores, false, units as int)
        &&& after.semaphores.ledger@.work[first_free(self.semaphores.slots@)] == units
    }

    /// Makes a semaphore of `units` units in the first free slot and
    /// returns its id.
    pub fn semaphore_create(&mut self, units: usize) -> (id: usize)
        requires
            old(self).wf(),
        ensures
            final(self).wf(),
            id == first_free(old(self).semaphores.slots@),
            is_first_free(old(self).semaphores.slots@, id as int),
            old(self).with_semaphore(*final(self), units),
    {
        let id = self.semaphores.create(false, units);
        proof {
            assert forall|j: int| live(self.semaphores.slots@, j) implies !(
            #[trigger] self.semaphores.slots@[j])->0.busy_wait by {
                if j != id {
                    assert(self.semaphores.slots@[j] == old(self).semaphores.slots@[j]);
                }
            }
        }
        id
    }

    /// `task` can wait on condition variable `cv` with mutex `mutex_id`: both
    /// are live and the mutex is taken.
    pub open spec fn can_wait(&self, cv: int, mutex_id: int) -> bool {
        &&& live(self.condvars@, cv)
        &&& self.mutexes.release_outcome(mutex_id, false) == Release::Released
    }

    /// The task for which the mutex is kept when a task goes to wait on
    /// `cv`, as it comes to the ready queue.
    pub open spec fn wait_successor(&self, cv: int, mutex_id: int) -> Option<TaskControlBlock> {
        if self.can_wait(cv, mutex_id) {
            self.mutexes.next_holder(mutex_id, false)
        } else {
            None
        }
    }

    /// `after` is what the wait of `task` on `cv` leads to: the mutex is
    /// given back as by a release without deadlock detection, so that the
    /// ledger is as it was, and the task joins the tasks that wait on `cv`.
    /// A task that cannot wait changes nothing.
    pub open spec fn waited(
        &self,
        after: ProcessControlBlock,
        task: TaskControlBlock,
        cv: int,
        mutex_id: int,
    ) -> bool {
        &&& self.same_frame(after)
        &&& after.semaphores == self.semaphores
        &&& if self.can_wait(cv, mutex_id) {
            &&& self.mutexes.released(after.mutexes, task.tid as int, mutex_id, false, false)
            &&& after.mutexes.ledger == self.mutexes.ledger
            &&& after.condvars@.len() == self.condvars@.len()
            &&& forall|j: int|
                0 <= j < self.condvars@.len() && j != cv ==> after.condvars@[j] == self.condvars@[j]
            &&& after.condvars@[cv] is Some
            &&& after.condvars@[cv]->0.wait_queue@ == self.condvars@[cv]->0.wait_queue@.push(
                CondWaiter { task: parked(task), mutex_id: mutex_id as usize },
            )
        } else {
            &&& after.mutexes == self.mutexes
            &&& after.condvars == self.condvars
        }
    }

    /// `task` gives mutex `mutex_id` back and waits on condition variable
    /// `cv`, in one step. Returns whether it waits now, and the task for
    /// which the mutex is kept, to be made ready.
    pub fn condvar_wait(&mut self, task: TaskControlBlock, cv: usize, mutex_id: usize) -> (result: (
        bool,
        Option<TaskControlBlock>,
    ))
        requires
            old(self).wf(),
            task.pid == old(self).pid,
            task.tid < old(self).thread_count,
        ensures
            final(self).wf(),
            result.0 == old(self).can_wait(cv as int, mutex_id as int),
            result.1 == old(self).wait_successor(cv as int, mutex_id as int),
            old(self).waited(*final(self), task, cv as int, mutex_id as int),
            result.1 matches Some(w) ==> w.pid == old(self).pid && w.tid < old(self).thread_count
                && w.status == TaskStatus::Ready,
    {
        if !self.condvars.is_live(cv) {
            return (false, None);
        }
        if !self.mutexes.slots.is_live(mutex_id) {
            return (false, None);
        }
        let mutex = self.mutexes.slots.slots[mutex_id].as_ref().unwrap();
        if mutex.count >= 1 {
            return (false, None);
        }
        let (_, next) = self.mutexes.release(task.tid, mutex_id, false, false);
        let mut waiter = task;
        waiter.status = TaskStatus::Blocked;
        waiter.spinning = None;
        waiter.pending = None;
        let condvar = self.condvars.slots[cv].as_mut().unwrap();
        let joined = CondWaiter { task: waiter, mutex_id };
        condvar.wait_queue.push_back(joined);
        proof {
            lemma_mutexes_ok(old(self).mutexes, self.mutexes, mutex_id as int);
            lemma_condvars_ok(
                old(self).condvars@,
                self.condvars@,
                self.pid,
                self.thread_count,
                self.thread_count,
                cv as int,
                Some(joined),
                false,
            );
        }
        (true, next)
    }

    /// The task that a signal on `cv` wakes, as it comes to the ready
    /// queue: the task that has waited longest, which has its mutex to take
    /// again when it runs.
    pub open spec fn signalled_task(&self, cv: int) -> Option<TaskControlBlock> {
        if live(self.condvars@, cv) && self.condvars@[cv]->0.wait_queue@.len() > 0 {
            let w = self.condvars@[cv]->0.wait_queue@[0];
            Some(TaskControlBlock { pending: Some(Pending::Relock(w.mutex_id)), ..woken(w.task) })
        } else {
            None
        }
    }

    /// `after` is what a signal on `cv` leads to: the task that has waited
    /// longest leaves `cv`, the others stay. Mutexes, semaphores and both
    /// ledgers are as they were.
    pub open spec fn signalled(&self, after: ProcessControlBlock, cv: int) -> bool {
        &&& self.same_frame(after)
        &&& after.semaphores == self.semaphores
        &&& after.mutexes == self.mutexes
        &&& if live(self.condvars@, cv) && self.condvars@[cv]->0.wait_queue@.len() > 0 {
            &&& after.condvars@.len() == self.condvars@.len()
            &&& forall|j: int|
                0 <= j < self.condvars@.len() && j != cv ==> after.condvars@[j] == self.condvars@[j]
            &&& after.condvars@[cv] is Some
            &&& after.condvars@[cv]->0.wait_queue@ == self.condvars@[cv]->0.wait_queue@.drop_first()
        } else {
            after.condvars == self.condvars
        }
    }

    /// Wakes the task that has waited longest on condition variable `cv`, if
    /// there is one. Returns whether `cv` is live, and the task to be made
    /// ready.
    pub fn condvar_signal(&mut self, cv: usize) -> (result: (bool, Option<TaskControlBlock>))
        requires
            old(self).wf(),
        ensures
            final(self).wf(),
            result.0 == live(old(self).condvars@, cv as int),
            result.1 == old(self).signalled_task(cv as int),
            old(self).signalled(*final(self), cv as int),
            result.1 matches Some(w) ==> w.pid == old(self).pid && w.tid < old(self).thread_count
                && w.status == TaskStatus::Ready,
    {
        if !self.condvars.is_live(cv) {
            return (false, None);
        }
        let condvar = self.condvars.slots[cv].as_ref().unwrap();
        if condvar.wait_queue.len() == 0 {
            return (true, None);
        }
        let condvar = self.condvars.slots[cv].as_mut().unwrap();
        let head = condvar.wait_queue.pop_front();
        proof {
            assert(cond_waiter_ok(
                old(self).condvars@[cv as int]->0.wait_queue@[0],
                self.pid,
                self.thread_count,
            ));
            lemma_condvars_ok(
                old(self).condvars@,
                self.condvars@,
                self.pid,
                self.thread_count,
                self.thread_count,
                cv as int,
                None,
                true,
            );
        }
        match head {
            None => (true, None),
            Some(w) => {
                let mut next = w.task;
                next.status = TaskStatus::Ready;
                next.pending = Some(Pending::Relock(w.mutex_id));
                (true, Some(next))
            },
        }
    }

    /// `after` is what the process becomes when its thread `task` is on the
    /// processor and settles `pending`: a unit that was kept for it is
    /// entered in the ledger, if deadlock detection is on; a mutex that it
    /// has to take again is taken as [`Pool::reacquired`] says.
    pub open spec fn settled(&self, after: ProcessControlBlock, task: TaskControlBlock, pending: Pending) -> bool {
        &&& self.same_frame(after)
        &&& after.condvars == self.condvars
        &&& match pending {
            Pending::TookMutex(id) => {
                &&& after.semaphores == self.semaphores
                &&& after.mutexes.owner == self.mutexes.owner
                &&& after.mutexes.slots == self.mutexes.slots
                &&& after.mutexes.ledger@ == self.mutexes.complete_ledger(
                    task.tid as int,
                    id as int,
                    self.deadlock_detect_enable,
                )
            },
            Pending::TookSemaphore(id) => {
                &&& after.mutexes == self.mutexes
                &&& after.semaphores.owner == self.semaphores.owner
                &&& after.semaphores.slots == self.semaphores.slots
                &&& after.semaphores.ledger@ == self.semaphores.complete_ledger(
                    task.tid as int,
                    id as int,
                    self.deadlock_detect_enable,
                )
            },
            Pending::Relock(id) => {
                &&& after.semaphores == self.semaphores
                &&& self.mutexes.reacquired(after.mutexes, task, id as int)
            },
        }
    }

    /// How the thread `task` goes on after it has settled `pending`: as
    /// after an acquisition that was granted, unless it has to take a mutex
    /// again and finds it taken.
    pub open spec fn settle_outcome(&self, pending: Pending) -> Acquire {
        match pending {
            Pending::Relock(id) => match self.mutexes.reacquire_outcome(id as int) {
                Acquire::NoSuchResource => Acquire::Granted,
                outcome => outcome,
            },
            _ => Acquire::Granted,
        }
    }

    /// The thread `task` of this process, on the processor again, settles
    /// `pending`. Returns how it goes on.
    pub fn settle(&mut self, task: TaskControlBlock, pending: Pending) -> (outcome: Acquire)
        requires
            old(self).wf(),
            task.pid == old(self).pid,
            task.tid < old(self).thread_count,
        ensures
            final(self).wf(),
            outcome == old(self).settle_outcome(pending),
            old(self).settled(*final(self), task, pending),
    {
        let detect = self.deadlock_detect_enable;
        match pending {
            Pending::TookMutex(id) => {
                self.mutexes.complete(task.tid, id, detect);
                Acquire::Granted
            },
            Pending::TookSemaphore(id) => {
                self.semaphores.complete(task.tid, id, detect);
                Acquire::Granted
            },
            Pending::Relock(id) => {
                let outcome = self.mutexes.reacquire(task, id);
                proof {
                    lemma_mutexes_ok(old(self).mutexes, self.mutexes, id as int);
                }
                match outcome {
                    Acquire::NoSuchResource => Acquire::Granted,
                    _ => outcome,
                }
            },
        }
    }
}

} // verus!
