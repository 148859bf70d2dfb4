//! System calls for sleeping and for synchronisation between the threads of
//! a process, and the step by which a task that was taken off the processor
//! settles what it has pending when it is on the processor again.
use vstd::prelude::*;
use crate::config::DEADLOCK;
use crate::kernel::{Kernel, Sleeper, lemma_proc_changed, picked, rest};
use crate::slots::{first_free, is_first_free, live};
use crate::sync::{Acquire, Release, parked, woken};
use crate::task::{TaskControlBlock, TaskStatus};

verus! {

/// What an acquisition returns to its caller.
pub open spec fn acquire_result(outcome: Acquire) -> int {
    match outcome {
        Acquire::NoSuchResource => -1,
        Acquire::Refused => DEADLOCK as int,
        _ => 0,
    }
}

/// What a release returns to its caller.
pub open spec fn release_result(outcome: Release) -> int {
    match outcome {
        Release::Released => 0,
        _ => -1,
    }
}

/// The id of a new resource as a system call returns it, or -1 where the id
/// is too large to be returned.
pub open spec fn id_result(id: int) -> int {
    if id <= isize::MAX {
        id
    } else {
        -1
    }
}

impl Kernel {
    /// The task that makes the system call.
    pub open spec fn caller(&self) -> TaskControlBlock {
        self.current->0
    }

    /// The id of the process that makes the system call.
    pub open spec fn caller_pid(&self) -> int {
        self.current->0.pid as int
    }

    /// The process that makes the system call.
    pub open spec fn caller_proc(&self) -> crate::task::process::ProcessControlBlock {
        self.proc(self.caller_pid())
    }

    /// Where the task that was on the processor and the ready tasks are
    /// after the task's attempt to take a resource has ended with
    /// `outcome`: a task that was granted the unit, or was turned away,
    /// stays on the processor as `stays`; one that has to try again goes to
    /// the back of the ready queue as `again`; one that was parked has left
    /// for the wait list. In the last two cases the next ready task runs.
    pub open spec fn after_acquire(
        &self,
        after: Kernel,
        outcome: Acquire,
        stays: TaskControlBlock,
        again: TaskControlBlock,
    ) -> bool {
        match outcome {
            Acquire::Spinning => {
                &&& after.current == picked(self.manager@.push(woken(again)))
                &&& after.manager@ == rest(self.manager@.push(woken(again)))
            },
            Acquire::Parked => {
                &&& after.current == picked(self.manager@)
                &&& after.manager@ == rest(self.manager@)
            },
            _ => {
                &&& after.current == Some(stays)
                &&& after.manager@ == self.manager@
            },
        }
    }

    /// Where the tasks are after a release that has woken `next`: the
    /// caller stays on the processor and `next` joins the ready queue.
    pub open spec fn after_release(&self, after: Kernel, next: Option<TaskControlBlock>) -> bool {
        &&& after.current == self.current
        &&& after.manager@ == match next {
            Some(t) => self.manager@.push(woken(t)),
            None => self.manager@,
        }
    }

    /// Puts into effect how the attempt of the task on the processor to
    /// take a resource has ended.
    fn finish_acquire(
        &mut self,
        outcome: Acquire,
        stays: TaskControlBlock,
        again: TaskControlBlock,
    )
        requires
            old(self).wf(),
            old(self).current is Some,
            old(self).runs(stays),
            old(self).runs(again),
            stays.status == TaskStatus::Running,
        ensures
            final(self).wf(),
            final(self).procs == old(self).procs,
            final(self).sleepers == old(self).sleepers,
            final(self).clock_us == old(self).clock_us,
            old(self).after_acquire(*final(self), outcome, stays, again),
    {
        match outcome {
            Acquire::Spinning => {
                self.current = None;
                self.make_ready(again);
                self.run_next();
            },
            Acquire::Parked => {
                self.block_current_and_run_next();
            },
            _ => {
                self.current = Some(stays);
            },
        }
    }
}

/// Creates a mutex in the caller's process and returns its id: the lowest
/// id that is free. With `blocking`, a task that finds the mutex taken is
/// parked; without, it spins.
pub fn sys_mutex_create(kernel: &mut Kernel, blocking: bool) -> (ret: isize)
    requires
        old(kernel).wf(),
        old(kernel).current is Some,
    ensures
        final(kernel).wf(),
        old(kernel).same_tasks(*final(kernel)),
        old(kernel).same_but_proc(*final(kernel), old(kernel).caller_pid()),
        ({
            let before = old(kernel).caller_proc();
            let after = final(kernel).proc(old(kernel).caller_pid());
            let id = first_free(before.mutexes.slots@);
            &&& is_first_free(before.mutexes.slots@, id)
            &&& ret == id_result(id)
            &&& if ret == -1 {
                after == before
            } else {
                before.with_mutex(after, blocking)
            }
        }),
{
    let task = kernel.current.unwrap();
    let pid = task.pid;
    let mut ret: isize = -1;
    let process = kernel.procs.slots[pid].as_mut().unwrap();
    let id = process.mutexes.slots.first_free();
    if id <= isize::MAX as usize {
        let made = process.mutex_create(blocking);
        ret = made as isize;
    }
    proof {
        lemma_proc_changed(old(kernel).procs@, kernel.procs@, pid as int);
    }
    ret
}

impl Kernel {
    /// `after` and `ret` are what the caller's request for mutex `mutex_id`
    /// leads to: the caller's process changes as
    /// [`crate::task::process::ProcessControlBlock::locked`] says, the tasks
    /// move as [`Kernel::after_acquire`] says, and nothing else changes. A
    /// caller that stays on the processor spins no longer; one that spins
    /// goes to the back of the ready queue, marked as spinning on the mutex.
    pub open spec fn mutex_locked(&self, after: Kernel, mutex_id: usize, ret: int) -> bool {
        let task = self.caller();
        let before = self.caller_proc();
        let outcome = before.lock_outcome(task, mutex_id as int);
        &&& self.same_but_proc(after, self.caller_pid())
        &&& ret == acquire_result(outcome)
        &&& before.locked(after.proc(self.caller_pid()), task, mutex_id as int)
        &&& self.after_acquire(
            after,
            outcome,
            TaskControlBlock { spinning: None, ..task },
            TaskControlBlock { spinning: Some(mutex_id), ..task },
        )
    }
}

/// The caller asks for mutex `mutex_id`. Returns 0 where the caller has the
/// mutex or will have it when it runs again, -1 where no such mutex exists,
/// and [`DEADLOCK`] where deadlock detection is on and granting the request
/// could leave threads waiting for each other for ever, over mutexes,
/// semaphores or both. With deadlock detection off the ledgers are not
/// touched.
pub fn sys_mutex_lock(kernel: &mut Kernel, mutex_id: usize) -> (ret: isize)
    requires
        old(kernel).wf(),
        old(kernel).current is Some,
    ensures
        final(kernel).wf(),
        old(kernel).mutex_locked(*final(kernel), mutex_id, ret as int),
{
    let task = kernel.current.unwrap();
    let pid = task.pid;
    let process = kernel.procs.slots[pid].as_mut().unwrap();
    let outcome = process.mutex_lock(task, mutex_id);
    proof {
        lemma_proc_changed(old(kernel).procs@, kernel.procs@, pid as int);
    }
    let mut stays = task;
    stays.spinning = None;
    let mut again = task;
    again.spinning = Some(mutex_id);
    kernel.finish_acquire(outcome, stays, again);
    match outcome {
        Acquire::NoSuchResource => -1,
        Acquire::Refused => DEADLOCK,
        _ => 0,
    }
}

/// The caller gives mutex `mutex_id` back. Where a task waits for it, the
/// mutex is kept for the task that has waited longest, which becomes
/// ready; otherwise the mutex is free. With deadlock detection on, the
/// ledger has the unit pass from the caller to the free units, whether or
/// not a task waits. Returns 0, or -1 where no such mutex exists or the
/// mutex is not taken.
pub fn sys_mutex_unlock(kernel: &mut Kernel, mutex_id: usize) -> (ret: isize)
    requires
        old(kernel).wf(),
        old(kernel).current is Some,
    ensures
        final(kernel).wf(),
        old(kernel).same_but_proc(*final(kernel), old(kernel).caller_pid()),
        ({
            let task = old(kernel).caller();
            let before = old(kernel).caller_proc();
            let after = final(kernel).proc(old(kernel).caller_pid());
            &&& ret == release_result(before.unlock_outcome(mutex_id as int))
            &&& before.unlocked(after, task.tid as int, mutex_id as int)
            &&& old(kernel).after_release(
                *final(kernel),
                before.mutexes.next_holder(mutex_id as int, false),
            )
        }),
{
    let task = kernel.current.unwrap();
    let pid = task.pid;
    let process = kernel.procs.slots[pid].as_mut().unwrap();
    let (outcome, next) = process.mutex_unlock(task.tid, mutex_id);
    proof {
        lemma_proc_changed(old(kernel).procs@, kernel.procs@, pid as int);
    }
    kernel.make_ready_if(next);
    match outcome {
        Release::Released => 0,
        _ => -1,
    }
}

/// The caller sleeps for `ms` milliseconds from now: it is handed to the
/// timer with the time at which it is to wake, and the next ready task runs.
/// Returns 0, which the caller sees when it runs again. A waking time beyond
/// the largest machine word is the largest machine word.
pub fn sys_sleep(kernel: &mut Kernel, ms: usize) -> (ret: isize)
    requires
        old(kernel).wf(),
        old(kernel).current is Some,
    ensures
        final(kernel).wf(),
        ret == 0,
        final(kernel).procs == old(kernel).procs,
        final(kernel).clock_us == old(kernel).clock_us,
        final(kernel).current == picked(old(kernel).manager@),
        final(kernel).manager@ == rest(old(kernel).manager@),
        final(kernel).sleepers@ == old(kernel).sleepers@.push(
            Sleeper {
                expire_ms: if old(kernel).clock_us / 1000 + ms <= usize::MAX {
                    (old(kernel).clock_us / 1000 + ms) as usize
                } else {
                    usize::MAX
                },
                task: parked(old(kernel).caller()),
            },
        ),
{
    let task = kernel.current.unwrap();
    let now = kernel.now_ms();
    let expire_ms = if ms <= usize::MAX - now {
        now + ms
    } else {
        usize::MAX
    };
    let mut sleeper = task;
    sleeper.status = TaskStatus::Blocked;
    sleeper.spinning = None;
    sleeper.pending = None;
    kernel.sleepers.push(Sleeper { expire_ms, task: sleeper });
    proof {
        assert forall|i: int| 0 <= i < kernel.sleepers@.len() implies kernel.runs(
            (#[trigger] kernel.sleepers@[i]).task,
        ) && kernel.sleepers@[i].task.status == TaskStatus::Blocked by {
            if i < old(kernel).sleepers@.len() {
                assert(kernel.sleepers@[i] == old(kernel).sleepers@[i]);
            }
        }
    }
    kernel.block_current_and_run_next();
    0
}

/// Creates a semaphore of `res_count` units in the caller's process and
/// returns its id: the lowest id that is free.
pub fn sys_semaphore_create(kernel: &mut Kernel, res_count: usize) -> (ret: isize)
    requires
        old(kernel).wf(),
        old(kernel).current is Some,
    ensures
        final(kernel).wf(),
        old(kernel).same_tasks(*final(kernel)),
        old(kernel).same_but_proc(*final(kernel), old(kernel).caller_pid()),
        ({
            let before = old(kernel).caller_proc();
            let after = final(kernel).proc(old(kernel).caller_pid());
            let id = first_free(before.semaphores.slots@);
            &&& is_first_free(before.semaphores.slots@, id)
            &&& ret == id_result(id)
            &&& if ret == -1 {
                after == before
            } else {
                before.with_semaphore(after, res_count)
            }
        }),
{
    let task = kernel.current.unwrap();
    let pid = task.pid;
    let mut ret: isize = -1;
    let process = kernel.procs.slots[pid].as_mut().unwrap();
    let id = process.semaphores.slots.first_free();
    if id <= isize::MAX as usize {
        let made = process.semaphore_create(res_count);
        ret = made as isize;
    }
    proof {
        lemma_proc_changed(old(kernel).procs@, kernel.procs@, pid as int);
    }
    ret
}

/// The caller gives one unit to semaphore `sem_id`. Where a task waits,
/// the unit is kept for the task that has waited longest, which becomes
/// ready; otherwise the unit is free. With deadlock detection on, the
/// ledger has the unit pass from the caller to the free units, whether or
/// not a task waits, as far as it has the caller hold one. Returns 0, or
/// -1 where no such semaphore exists or its free units can no longer be
/// counted.
pub fn sys_semaphore_up(kernel: &mut Kernel, sem_id: usize) -> (ret: isize)
    requires
        old(kernel).wf(),
        old(kernel).current is Some,
    ensures
        final(kernel).wf(),
        old(kernel).same_but_proc(*final(kernel), old(kernel).caller_pid()),
        ({
            let task = old(kernel).caller();
            let before = old(kernel).caller_proc();
            let after = final(kernel).proc(old(kernel).caller_pid());
            &&& ret == release_result(before.up_outcome(sem_id as int))
            &&& before.upped(after, task.tid as int, sem_id as int)
            &&& old(kernel).after_release(
                *final(kernel),
                before.semaphores.next_holder(sem_id as int, true),
            )
        }),
{
    let task = kernel.current.unwrap();
    let pid = task.pid;
    let process = kernel.procs.slots[pid].as_mut().unwrap();
    let (outcome, next) = process.semaphore_up(task.tid, sem_id);
    proof {
        lemma_proc_changed(old(kernel).procs@, kernel.procs@, pid as int);
    }
    kernel.make_ready_if(next);
    match outcome {
        Release::Released => 0,
        _ => -1,
    }
}

/// The caller asks for one unit of semaphore `sem_id`. Unless the request
/// is refused, it gets the unit at once exactly where one is free;
/// otherwise it is parked until a unit is kept for it. Returns 0 where the
/// caller has the unit or will have it when it runs again, -1 where no such
/// semaphore exists, and [`DEADLOCK`] where deadlock detection is on and
/// granting the request could leave threads waiting for each other for
/// ever. With deadlock detection off the ledgers are not touched.
pub fn sys_semaphore_down(kernel: &mut Kernel, sem_id: usize) -> (ret: isize)
    requires
        old(kernel).wf(),
        old(kernel).current is Some,
    ensures
        final(kernel).wf(),
        old(kernel).same_but_proc(*final(kernel), old(kernel).caller_pid()),
        ({
            let task = old(kernel).caller();
            let before = old(kernel).caller_proc();
            let after = final(kernel).proc(old(kernel).caller_pid());
            let outcome = before.down_outcome(task, sem_id as int);
            &&& ret == acquire_result(outcome)
            &&& outcome != Acquire::Spinning
            &&& before.downed(after, task, sem_id as int)
            &&& old(kernel).after_acquire(*final(kernel), outcome, task, task)
        }),
{
    let task = kernel.current.unwrap();
    let pid = task.pid;
    let process = kernel.procs.slots[pid].as_mut().unwrap();
    let outcome = process.semaphore_down(task, sem_id);
    proof {
        lemma_proc_changed(old(kernel).procs@, kernel.procs@, pid as int);
    }
    kernel.finish_acquire(outcome, task, task);
    match outcome {
        Acquire::NoSuchResource => -1,
        Acquire::Refused => DEADLOCK,
        _ => 0,
    }
}

/// Creates a condition variable in the caller's process and returns its
/// id: the lowest id that is free.
pub fn sys_condvar_create(kernel: &mut Kernel) -> (ret: isize)
    requires
        old(kernel).wf(),
        old(kernel).current is Some,
    ensures
        final(kernel).wf(),
        old(kernel).same_tasks(*final(kernel)),
        old(kernel).same_but_proc(*final(kernel), old(kernel).caller_pid()),
        ({
            let before = old(kernel).proc(old(kernel).caller_pid());
            let after = final(kernel).proc(old(kernel).caller_pid());
            let id = first_free(before.condvars@);
            &&& is_first_free(before.condvars@, id)
            &&& ret == id_result(id)
            &&& before.same_frame(after)
            &&& after.mutexes == before.mutexes
            &&& after.semaphores == before.semaphores
            &&& if ret == -1 {
                after.condvars == before.condvars
            } else {
                &&& after.condvars@.len() == if id < before.condvars@.len() {
                    before.condvars@.len()
                } else {
                    before.condvars@.len() + 1
                }
                &&& forall|j: int|
                    0 <= j < before.condvars@.len() && j != id ==> after.condvars@[j]
                        == before.condvars@[j]
                &&& after.condvars@[id] is Some
                &&& after.condvars@[id]->0.wait_queue@.len() == 0
            }
        }),
{
    let task = kernel.current.unwrap();
    let pid = task.pid;
    let mut ret: isize = -1;
    let process = kernel.procs.slots[pid].as_mut().unwrap();
    let id = process.condvars.first_free();
    if id <= isize::MAX as usize {
        let made = process.condvar_create();
        ret = made as isize;
    }
    proof {
        lemma_proc_changed(old(kernel).procs@, kernel.procs@, pid as int);
    }
    ret
}

/// Wakes the task that has waited longest on condition variable
/// `condvar_id`, if any task waits: it becomes ready, and the others wait
/// on. The woken task takes its mutex again when it is on the processor
/// (see [`settle_current`]). Mutexes, semaphores and the ledgers are not
/// touched. Returns 0, or -1 where no such condition variable exists.
pub fn sys_condvar_signal(kernel: &mut Kernel, condvar_id: usize) -> (ret: isize)
    requires
        old(kernel).wf(),
        old(kernel).current is Some,
    ensures
        final(kernel).wf(),
        old(kernel).same_but_proc(*final(kernel), old(kernel).caller_pid()),
        ({
            let before = old(kernel).caller_proc();
            let after = final(kernel).proc(old(kernel).caller_pid());
            &&& ret == if live(before.condvars@, condvar_id as int) {
                0int
            } else {
                -1int
            }
            &&& before.signalled(after, condvar_id as int)
            &&& final(kernel).current == old(kernel).current
            &&& final(kernel).manager@ == match before.signalled_task(condvar_id as int) {
                Some(t) => old(kernel).manager@.push(t),
                None => old(kernel).manager@,
            }
        }),
{
    let task = kernel.current.unwrap();
    let pid = task.pid;
    let process = kernel.procs.slots[pid].as_mut().unwrap();
    let (ok, next) = process.condvar_signal(condvar_id);
    proof {
        lemma_proc_changed(old(kernel).procs@, kernel.procs@, pid as int);
    }
    kernel.make_ready_if(next);
    if ok {
        0
    } else {
        -1
    }
}

/// The caller gives mutex `mutex_id` back and waits on condition variable
/// `condvar_id`, in one step; the next ready task runs. The mutex is given
/// back as by a release without deadlock detection: the ledgers are not
/// touched. When the caller has been signalled it takes the mutex again
/// before it goes on. Returns 0, which the caller sees when it runs again,
/// or -1 where the condition variable or the mutex does not exist or the
/// mutex is not taken; then nothing has changed.
pub fn sys_condvar_wait(kernel: &mut Kernel, condvar_id: usize, mutex_id: usize) -> (ret: isize)
    requires
        old(kernel).wf(),
        old(kernel).current is Some,
    ensures
        final(kernel).wf(),
        old(kernel).same_but_proc(*final(kernel), old(kernel).caller_pid()),
        ({
            let task = old(kernel).caller();
            let before = old(kernel).caller_proc();
            let after = final(kernel).proc(old(kernel).caller_pid());
            let waits = before.can_wait(condvar_id as int, mutex_id as int);
            &&& ret == if waits {
                0int
            } else {
                -1int
            }
            &&& before.waited(after, task, condvar_id as int, mutex_id as int)
            &&& if waits {
                let queue = match before.wait_successor(condvar_id as int, mutex_id as int) {
                    Some(t) => old(kernel).manager@.push(t),
                    None => old(kernel).manager@,
                };
                &&& final(kernel).current == picked(queue)
                &&& final(kernel).manager@ == rest(queue)
            } else {
                &&& final(kernel).current == old(kernel).current
                &&& final(kernel).manager@ == old(kernel).manager@
            }
        }),
{
    let task = kernel.current.unwrap();
    let pid = task.pid;
    let process = kernel.procs.slots[pid].as_mut().unwrap();
    let (ok, next) = process.condvar_wait(task, condvar_id, mutex_id);
    proof {
        lemma_proc_changed(old(kernel).procs@, kernel.procs@, pid as int);
    }
    if !ok {
        return -1;
    }
    kernel.make_ready_if(next);
    kernel.block_current_and_run_next();
    0
}

/// Switches deadlock detection in the caller's process off (0) or on (1).
/// Returns 0, or -1 for any other value; then nothing has changed.
pub fn sys_enable_deadlock_detect(kernel: &mut Kernel, enabled: usize) -> (ret: isize)
    requires
        old(kernel).wf(),
        old(kernel).current is Some,
    ensures
        final(kernel).wf(),
        old(kernel).same_tasks(*final(kernel)),
        old(kernel).same_but_proc(*final(kernel), old(kernel).caller_pid()),
        ({
            let before = old(kernel).proc(old(kernel).caller_pid());
            let after = final(kernel).proc(old(kernel).caller_pid());
            &&& ret == if enabled <= 1 {
                0int
            } else {
                -1int
            }
            &&& after.deadlock_detect_enable == if enabled <= 1 {
                enabled == 1
            } else {
                before.deadlock_detect_enable
            }
            &&& after.pid == before.pid
            &&& after.parent == before.parent
            &&& after.children == before.children
            &&& after.status == before.status
            &&& after.exit_code == before.exit_code
            &&& after.memory_set == before.memory_set
            &&& after.thread_count == before.thread_count
            &&& after.mutexes == before.mutexes
            &&& after.semaphores == before.semaphores
            &&& after.condvars == before.condvars
        }),
{
    if enabled > 1 {
        return -1;
    }
    let task = kernel.current.unwrap();
    let pid = task.pid;
    let process = kernel.procs.slots[pid].as_mut().unwrap();
    process.set_deadlock_detect(enabled == 1);
    proof {
        lemma_proc_changed(old(kernel).procs@, kernel.procs@, pid as int);
    }
    0
}

impl Kernel {
    /// The task on the processor has something to settle before it goes on
    /// in its program: a unit that was kept for it, a mutex to take again,
    /// or a spin mutex to ask for once more.
    pub open spec fn owes(&self) -> bool {
        self.current matches Some(task) && (task.pending is Some || task.spinning is Some)
    }

    /// `after` is what the kernel becomes when the task on the processor
    /// settles what it has pending.
    ///
    /// - A unit that was kept for the task while it waited: the
    ///   acquisition completes. With deadlock detection on, the ledger
    ///   strikes out the request and has the unit pass from the free units
    ///   to the task; with detection off the ledger is as it was. The task
    ///   stays on the processor.
    /// - A mutex to take again after a wait on a condition variable: the
    ///   task takes it and stays on the processor, or goes to the back of
    ///   the ready queue to try again (spin mutex), or joins the tasks that
    ///   wait for the mutex. The ledgers are as they were.
    /// - A spin mutex: the task asks again as by [`sys_mutex_lock`].
    pub open spec fn settled(&self, after: Kernel) -> bool {
        let task = self.caller();
        let before = self.caller_proc();
        match task.pending {
            Some(pending) => {
                &&& self.same_but_proc(after, self.caller_pid())
                &&& before.settled(after.proc(self.caller_pid()), task, pending)
                &&& self.after_acquire(
                    after,
                    before.settle_outcome(pending),
                    TaskControlBlock { pending: None, ..task },
                    task,
                )
            },
            None => exists|ret: int|
                #[trigger] self.mutex_locked(after, task.spinning->0, ret),
        }
    }
}

/// Lets the task on the processor settle what it has pending
/// (see [`Kernel::settled`]), and says whether there was anything to
/// settle.
pub fn settle_current(kernel: &mut Kernel) -> (tried: bool)
    requires
        old(kernel).wf(),
    ensures
        final(kernel).wf(),
        tried == old(kernel).owes(),
        !tried ==> *final(kernel) == *old(kernel),
        tried ==> old(kernel).settled(*final(kernel)),
        final(kernel).sleepers == old(kernel).sleepers,
        final(kernel).clock_us == old(kernel).clock_us,
{
    let task = match kernel.current {
        Some(task) => task,
        None => {
            return false;
        },
    };
    match task.pending {
        Some(pending) => {
            let pid = task.pid;
            let process = kernel.procs.slots[pid].as_mut().unwrap();
            let outcome = process.settle(task, pending);
            proof {
                lemma_proc_changed(old(kernel).procs@, kernel.procs@, pid as int);
            }
            let mut stays = task;
            stays.pending = None;
            kernel.finish_acquire(outcome, stays, task);
            true
        },
        None => match task.spinning {
            Some(mutex_id) => {
                let ret = sys_mutex_lock(kernel, mutex_id);
                assert(old(kernel).mutex_locked(*kernel, mutex_id, ret as int));
                true
            },
            None => false,
        },
    }
}

impl Kernel {
    /// `trace` leads from this kernel to `after`: it starts with this
    /// kernel and ends with `after`, and each of its states but the last
    /// becomes the next by the task that is on the processor then settling
    /// what it has pending (see [`Kernel::settled`]).
    pub open spec fn settled_along(&self, after: Kernel, trace: Seq<Kernel>) -> bool {
        &&& trace.len() >= 1
        &&& trace[0] == *self
        &&& trace.last() == after
        &&& forall|i: int|
            0 <= i < trace.len() - 1 ==> (#[trigger] trace[i]).owes() && trace[i].settled(trace[i + 1])
    }
}

/// The steps that [`settle_spinners`] takes at most where `ready` tasks
/// are ready: one more than that, as far as a machine word can say so.
pub open spec fn rounds(ready: int) -> int {
    if ready < usize::MAX {
        ready + 1
    } else {
        ready
    }
}

/// Lets the tasks that come to the processor settle what they have
/// pending, one after another, until the task on the processor goes on in
/// its program or the processor is free. A task that spins may come back
/// again and again, so the steps are counted: at most [`rounds`] of the
/// number of tasks that were ready. Returns the number of steps taken:
/// the kernel is what that many steps of [`settle_current`] lead to, and
/// where they are fewer than the bound, the task on the processor has
/// nothing left to settle.
pub fn settle_spinners(kernel: &mut Kernel) -> (steps: usize)
    requires
        old(kernel).wf(),
    ensures
        final(kernel).wf(),
        exists|trace: Seq<Kernel>|
            trace.len() == steps + 1 && #[trigger] old(kernel).settled_along(*final(kernel), trace),
        steps <= rounds(old(kernel).manager@.len() as int),
        steps < rounds(old(kernel).manager@.len() as int) ==> !final(kernel).owes(),
        !old(kernel).owes() ==> *final(kernel) == *old(kernel),
        final(kernel).sleepers == old(kernel).sleepers,
        final(kernel).clock_us == old(kernel).clock_us,
        final(kernel).procs@.len() == old(kernel).procs@.len(),
{
    let ready = kernel.manager.len();
    let bound = if ready < usize::MAX {
        ready + 1
    } else {
        ready
    };
    let mut steps: usize = 0;
    let mut going = true;
    let ghost mut trace = seq![*kernel];
    while going && steps < bound
        invariant
            kernel.wf(),
            bound == rounds(old(kernel).manager@.len() as int),
            steps <= bound,
            trace.len() == steps + 1,
            old(kernel).settled_along(*kernel, trace),
            !going ==> !kernel.owes() && steps < bound,
            !old(kernel).owes() ==> *kernel == *old(kernel),
            kernel.sleepers == old(kernel).sleepers,
            kernel.clock_us == old(kernel).clock_us,
            kernel.procs@.len() == old(kernel).procs@.len(),
        decreases bound - steps, (if going { 1int } else { 0int }),
    {
        if settle_current(kernel) {
            steps = steps + 1;
            proof {
                trace = trace.push(*kernel);
            }
        } else {
            going = false;
        }
    }
    steps
}

} // verus!
