//! The state of the kernel: the process table, the ready queue, the task on
//! the processor, the sleeping tasks and the clock.
use vstd::prelude::*;
use crate::config::{MAX_SYSCALL_NUM, ROOT_PID};
use crate::slots::{SlotTable, live};
use crate::sync::woken;
use crate::task::manager::{TaskManager, dispatched, is_next, next_index};
use crate::task::process::{AppImage, ProcessControlBlock, ProcessStatus};
use crate::task::{TaskControlBlock, TaskStatus, TrapContext};

verus! {

/// A task that sleeps until the clock reaches `expire_ms`.
#[derive(Clone, Copy, Debug)]
pub struct Sleeper {
    pub expire_ms: usize,
    pub task: TaskControlBlock,
}

/// The task as it is put on the processor.
pub open spec fn running(task: TaskControlBlock) -> TaskControlBlock {
    TaskControlBlock { status: TaskStatus::Running, ..task }
}

/// The task that a dispatch takes out of `queue` and puts on the processor.
pub open spec fn picked(queue: Seq<TaskControlBlock>) -> Option<TaskControlBlock> {
    if queue.len() == 0 {
        None
    } else {
        Some(running(dispatched(queue[next_index(queue)])))
    }
}

/// The ready queue that a dispatch leaves behind.
pub open spec fn rest(queue: Seq<TaskControlBlock>) -> Seq<TaskControlBlock> {
    if queue.len() == 0 {
        queue
    } else {
        queue.remove(next_index(queue))
    }
}

/// The whole state of the kernel.
pub struct Kernel {
    /// The processes; the number of a slot is the process id.
    pub procs: SlotTable<ProcessControlBlock>,
    pub manager: TaskManager,
    /// The task on the processor.
    pub current: Option<TaskControlBlock>,
    /// The tasks that sleep, in the order in which they went to sleep.
    pub sleepers: Vec<Sleeper>,
    /// The time in microseconds, as last read from the clock.
    pub clock_us: usize,
}

/// Holds of the sleepers that do not belong to process `pid`.
pub open spec fn sleeper_not_of(pid: usize) -> spec_fn(Sleeper) -> bool {
    |sleeper: Sleeper| sleeper.task.pid != pid
}

/// Holds of the sleepers that are to wake at `now_ms` or before.
pub open spec fn due(now_ms: usize) -> spec_fn(Sleeper) -> bool {
    |sleeper: Sleeper| sleeper.expire_ms <= now_ms
}

/// Holds of the sleepers that are to wake after `now_ms`.
pub open spec fn not_due(now_ms: usize) -> spec_fn(Sleeper) -> bool {
    |sleeper: Sleeper| sleeper.expire_ms > now_ms
}

/// The tasks of `sleepers` as they come to the ready queue.
pub open spec fn risen(sleepers: Seq<Sleeper>) -> Seq<TaskControlBlock> {
    Seq::new(sleepers.len(), |i: int| woken(sleepers[i].task))
}

/// The sleepers of `sleepers` that do not belong to process `pid`, in
/// their order.
pub fn sleepers_without(sleepers: &Vec<Sleeper>, pid: usize) -> (kept: Vec<Sleeper>)
    ensures
        kept@ == sleepers@.filter(sleeper_not_of(pid)),
{
    let n = sleepers.len();
    let mut kept: Vec<Sleeper> = Vec::new();
    let mut i: usize = 0;
    proof {
        reveal(Seq::filter);
        assert(sleepers@.take(0) =~= Seq::<Sleeper>::empty());
    }
    while i < n
        invariant
            n == sleepers@.len(),
            i <= n,
            kept@ == sleepers@.take(i as int).filter(sleeper_not_of(pid)),
        decreases n - i,
    {
        let sleeper = sleepers[i];
        proof {
            reveal(Seq::filter);
            assert(sleepers@.take(i as int + 1).drop_last() =~= sleepers@.take(i as int));
            assert(sleepers@.take(i as int + 1).last() == sleeper);
        }
        if sleeper.task.pid != pid {
            kept.push(sleeper);
        }
        i += 1;
    }
    assert(sleepers@.take(n as int) =~= sleepers@);
    kept
}

/// `task` is a thread of a process of `procs` that runs.
pub open spec fn runs_in(procs: Seq<Option<ProcessControlBlock>>, task: TaskControlBlock) -> bool {
    &&& live(procs, task.pid as int)
    &&& procs[task.pid as int]->0.status == ProcessStatus::Running
    &&& task.tid < procs[task.pid as int]->0.thread_count
}

/// The root process exists and has no parent, the process ids can be
/// returned from system calls, every process is well formed and sits in the
/// slot of its id, and every child that a process lists exists and names
/// that process as its parent.
pub open spec fn table_wf(procs: Seq<Option<ProcessControlBlock>>) -> bool {
    &&& live(procs, ROOT_PID as int)
    &&& procs[ROOT_PID as int]->0.parent is None
    &&& procs.len() <= isize::MAX
    &&& forall|pid: int|
        live(procs, pid) ==> (#[trigger] procs[pid])->0.wf() && procs[pid]->0.pid == pid
    &&& forall|pid: int, k: int|
        live(procs, pid) && 0 <= k < procs[pid]->0.children@.len() ==> {
            let c = #[trigger] procs[pid]->0.children@[k];
            live(procs, c as int) && procs[c as int]->0.parent == Some(pid as usize)
        }
}

/// The tasks of `queue` are ready threads of running processes.
pub open spec fn queue_wf(
    procs: Seq<Option<ProcessControlBlock>>,
    queue: Seq<TaskControlBlock>,
) -> bool {
    forall|i: int|
        0 <= i < queue.len() ==> runs_in(procs, #[trigger] queue[i]) && queue[i].status
            == TaskStatus::Ready
}

/// The sleeping tasks are blocked threads of running processes.
pub open spec fn sleepers_wf(procs: Seq<Option<ProcessControlBlock>>, sleepers: Seq<Sleeper>) -> bool {
    forall|i: int|
        0 <= i < sleepers.len() ==> runs_in(procs, (#[trigger] sleepers[i]).task)
            && sleepers[i].task.status == TaskStatus::Blocked
}

/// A change to one process that leaves its relatives and its status alone
/// and takes no thread away keeps the process table well formed, and every
/// task that was a thread of a running process still is one.
pub proof fn lemma_proc_changed(
    before: Seq<Option<ProcessControlBlock>>,
    after: Seq<Option<ProcessControlBlock>>,
    pid: int,
)
    requires
        table_wf(before),
        live(before, pid),
        after.len() == before.len(),
        forall|p: int| 0 <= p < before.len() && p != pid ==> after[p] == before[p],
        after[pid] is Some,
        after[pid]->0.wf(),
        after[pid]->0.pid == before[pid]->0.pid,
        after[pid]->0.parent == before[pid]->0.parent,
        after[pid]->0.children@ == before[pid]->0.children@,
        after[pid]->0.status == before[pid]->0.status,
        after[pid]->0.thread_count >= before[pid]->0.thread_count,
    ensures
        table_wf(after),
        forall|task: TaskControlBlock| #[trigger] runs_in(before, task) ==> runs_in(after, task),
        forall|queue: Seq<TaskControlBlock>| #[trigger] queue_wf(before, queue) ==> queue_wf(after, queue),
        forall|sleepers: Seq<Sleeper>|
            #[trigger] sleepers_wf(before, sleepers) ==> sleepers_wf(after, sleepers),
{
    assert forall|p: int| live(after, p) implies (#[trigger] after[p])->0.wf() && after[p]->0.pid
        == p by {
        if p != pid {
            assert(before[p]->0.wf());
        } else {
            assert(before[pid]->0.pid == pid);
        }
    }
    assert forall|p: int, k: int| live(after, p) && 0 <= k < after[p]->0.children@.len() implies {
        let c = #[trigger] after[p]->0.children@[k];
        live(after, c as int) && after[c as int]->0.parent == Some(p as usize)
    } by {
        let c = before[p]->0.children@[k];
        assert(live(before, c as int) && before[c as int]->0.parent == Some(p as usize));
    }
    lemma_tasks_kept(before, after);
}

/// Where every process that was there is still there, with the status it
/// had and no thread fewer, the tasks that were threads of running processes
/// still are.
pub proof fn lemma_tasks_kept(
    before: Seq<Option<ProcessControlBlock>>,
    after: Seq<Option<ProcessControlBlock>>,
)
    requires
        forall|p: int|
            live(before, p) && (#[trigger] before[p])->0.status == ProcessStatus::Running ==> live(
                after,
                p,
            ) && after[p]->0.status == ProcessStatus::Running && after[p]->0.thread_count
                >= before[p]->0.thread_count,
    ensures
        forall|task: TaskControlBlock| #[trigger] runs_in(before, task) ==> runs_in(after, task),
        forall|queue: Seq<TaskControlBlock>| #[trigger] queue_wf(before, queue) ==> queue_wf(after, queue),
        forall|sleepers: Seq<Sleeper>|
            #[trigger] sleepers_wf(before, sleepers) ==> sleepers_wf(after, sleepers),
{
    assert forall|task: TaskControlBlock| #[trigger] runs_in(before, task) implies runs_in(
        after,
        task,
    ) by {
        let p = task.pid as int;
        assert(before[p]->0.status == ProcessStatus::Running);
    }
    assert forall|queue: Seq<TaskControlBlock>| #[trigger] queue_wf(before, queue) implies queue_wf(
        after,
        queue,
    ) by {
        assert forall|i: int| 0 <= i < queue.len() implies runs_in(after, #[trigger] queue[i])
            && queue[i].status == TaskStatus::Ready by {
            assert(runs_in(before, queue[i]));
        }
    }
    assert forall|sleepers: Seq<Sleeper>| #[trigger] sleepers_wf(before, sleepers) implies sleepers_wf(
        after,
        sleepers,
    ) by {
        assert forall|i: int| 0 <= i < sleepers.len() implies runs_in(
            after,
            (#[trigger] sleepers[i]).task,
        ) && sleepers[i].task.status == TaskStatus::Blocked by {
            assert(runs_in(before, sleepers[i].task));
        }
    }
}

/// Taking the next task out of a ready queue leaves a ready queue.
pub proof fn lemma_rest_wf(procs: Seq<Option<ProcessControlBlock>>, queue: Seq<TaskControlBlock>)
    requires
        queue_wf(procs, queue),
        queue.len() > 0,
        is_next(queue, next_index(queue)),
    ensures
        queue_wf(procs, rest(queue)),
        runs_in(procs, queue[next_index(queue)]),
{
    let i = next_index(queue);
    let left = rest(queue);
    assert forall|j: int| 0 <= j < left.len() implies runs_in(procs, #[trigger] left[j])
        && left[j].status == TaskStatus::Ready by {
        if j < i {
            assert(left[j] == queue[j]);
        } else {
            assert(left[j] == queue[j + 1]);
        }
    }
}

/// A ready thread of a running process can join a ready queue.
pub proof fn lemma_push_wf(
    procs: Seq<Option<ProcessControlBlock>>,
    queue: Seq<TaskControlBlock>,
    task: TaskControlBlock,
)
    requires
        queue_wf(procs, queue),
        runs_in(procs, task),
        task.status == TaskStatus::Ready,
    ensures
        queue_wf(procs, queue.push(task)),
{
    let more = queue.push(task);
    assert forall|j: int| 0 <= j < more.len() implies runs_in(procs, #[trigger] more[j])
        && more[j].status == TaskStatus::Ready by {
        if j < queue.len() {
            assert(more[j] == queue[j]);
        }
    }
}

impl Kernel {
    /// The process with id `pid`.
    pub open spec fn proc(&self, pid: int) -> ProcessControlBlock {
        self.procs@[pid]->0
    }

    /// `task` is a thread of a process that runs.
    pub open spec fn runs(&self, task: TaskControlBlock) -> bool {
        runs_in(self.procs@, task)
    }

    /// The process table is well formed, and the task on the processor, the
    /// ready tasks and the sleeping tasks are threads of running processes,
    /// each with the status of its place.
    pub open spec fn wf(&self) -> bool {
        &&& table_wf(self.procs@)
        &&& self.current matches Some(t) ==> runs_in(self.procs@, t) && t.status
            == TaskStatus::Running
        &&& queue_wf(self.procs@, self.manager@)
        &&& sleepers_wf(self.procs@, self.sleepers@)
    }

    /// `after` differs from `self` in the process `pid` at most, and in its
    /// tasks; the sleepers and the clock are the same.
    pub open spec fn same_but_proc(&self, after: Kernel, pid: int) -> bool {
        &&& after.procs@.len() == self.procs@.len()
        &&& forall|p: int| 0 <= p < self.procs@.len() && p != pid ==> after.procs@[p] == self.procs@[p]
        &&& after.procs@[pid] is Some
        &&& after.sleepers == self.sleepers
        &&& after.clock_us == self.clock_us
    }

    /// `after` has the tasks of `self` in the same places.
    pub open spec fn same_tasks(&self, after: Kernel) -> bool {
        &&& after.current == self.current
        &&& after.manager@ == self.manager@
    }

    /// The kernel with the root process made from `image`, its one task
    /// ready to run, at time `now_us`.
    pub fn new(image: AppImage, now_us: usize) -> (kernel: Kernel)
        requires
            image.memory_set.wf(),
        ensures
            kernel.wf(),
            kernel.current is None,
            kernel.procs@.len() == 1,
            kernel.proc(ROOT_PID as int).parent is None,
            kernel.proc(ROOT_PID as int).status == ProcessStatus::Running,
            kernel.proc(ROOT_PID as int).memory_set == image.memory_set,
            kernel.proc(ROOT_PID as int).children@.len() == 0,
            kernel.proc(ROOT_PID as int).thread_count == 1,
            !kernel.proc(ROOT_PID as int).deadlock_detect_enable,
            kernel.proc(ROOT_PID as int).mutexes.slots@.len() == 0,
            kernel.proc(ROOT_PID as int).semaphores.slots@.len() == 0,
            kernel.proc(ROOT_PID as int).condvars@.len() == 0,
            kernel.manager@.len() == 1,
            kernel.manager@[0].fresh(
                ROOT_PID,
                0,
                image.entry,
                image.user_sp,
                0,
                (now_us / 1000) as usize,
            ),
            kernel.sleepers@.len() == 0,
            kernel.clock_us == now_us,
    {
        let task = TaskControlBlock::new(ROOT_PID, 0, image.entry, image.user_sp, now_us / 1000);
        let root = ProcessControlBlock::new(ROOT_PID, None, image.memory_set);
        let mut procs: SlotTable<ProcessControlBlock> = SlotTable::new();
        procs.insert(root);
        let mut manager = TaskManager::new();
        manager.add(task);
        Kernel { procs, manager, current: None, sleepers: Vec::new(), clock_us: now_us }
    }

    /// Takes the reading `now_us` of the clock, in microseconds.
    pub fn set_clock(&mut self, now_us: usize)
        requires
            old(self).wf(),
        ensures
            final(self).wf(),
            final(self).clock_us == now_us,
            final(self).procs == old(self).procs,
            final(self).manager == old(self).manager,
            final(self).current == old(self).current,
            final(self).sleepers == old(self).sleepers,
    {
        self.clock_us = now_us;
    }

    /// The time in milliseconds.
    pub fn now_ms(&self) -> (ms: usize)
        ensures
            ms == self.clock_us / 1000,
    {
        self.clock_us / 1000
    }

    /// Whether a task is on the processor.
    pub fn has_current(&self) -> (yes: bool)
        ensures
            yes == self.current is Some,
    {
        self.current.is_some()
    }

    /// Whether `task` is a thread of a process that runs.
    pub fn can_run(&self, task: &TaskControlBlock) -> (yes: bool)
        ensures
            yes == self.runs(*task),
    {
        if task.pid >= self.procs.slots.len() {
            return false;
        }
        match &self.procs.slots[task.pid] {
            Some(process) => process.status == ProcessStatus::Running && task.tid
                < process.thread_count,
            None => false,
        }
    }

    /// Puts the next ready task on the processor, if one is ready. The
    /// processor must be free.
    pub fn run_next(&mut self)
        requires
            old(self).wf(),
            old(self).current is None,
        ensures
            final(self).wf(),
            final(self).current == picked(old(self).manager@),
            final(self).manager@ == rest(old(self).manager@),
            final(self).procs == old(self).procs,
            final(self).sleepers == old(self).sleepers,
            final(self).clock_us == old(self).clock_us,
    {
        match self.manager.fetch() {
            Some(task) => {
                let mut task = task;
                task.status = TaskStatus::Running;
                self.current = Some(task);
                proof {
                    lemma_rest_wf(self.procs@, old(self).manager@);
                }
            },
            None => {},
        }
    }

    /// Puts `task` at the back of the ready queue.
    pub fn make_ready(&mut self, task: TaskControlBlock)
        requires
            old(self).wf(),
            old(self).runs(task),
        ensures
            final(self).wf(),
            final(self).manager@ == old(self).manager@.push(woken(task)),
            final(self).current == old(self).current,
            final(self).procs == old(self).procs,
            final(self).sleepers == old(self).sleepers,
            final(self).clock_us == old(self).clock_us,
    {
        let mut task = task;
        task.status = TaskStatus::Ready;
        self.manager.add(task);
        proof {
            lemma_push_wf(self.procs@, old(self).manager@, task);
        }
    }

    /// Puts `task` at the back of the ready queue, if there is one.
    pub fn make_ready_if(&mut self, task: Option<TaskControlBlock>)
        requires
            old(self).wf(),
            task matches Some(t) ==> old(self).runs(t),
        ensures
            final(self).wf(),
            final(self).manager@ == match task {
                Some(t) => old(self).manager@.push(woken(t)),
                None => old(self).manager@,
            },
            final(self).current == old(self).current,
            final(self).procs == old(self).procs,
            final(self).sleepers == old(self).sleepers,
            final(self).clock_us == old(self).clock_us,
    {
        match task {
            Some(t) => {
                self.make_ready(t);
            },
            None => {},
        }
    }

    /// The task on the processor gives the processor up: it goes to the back
    /// of the ready queue and the next ready task runs.
    pub fn suspend_current_and_run_next(&mut self)
        requires
            old(self).wf(),
            old(self).current is Some,
        ensures
            final(self).wf(),
            final(self).current == picked(old(self).manager@.push(woken(old(self).current->0))),
            final(self).manager@ == rest(old(self).manager@.push(woken(old(self).current->0))),
            final(self).procs == old(self).procs,
            final(self).sleepers == old(self).sleepers,
            final(self).clock_us == old(self).clock_us,
    {
        let task = self.current.unwrap();
        self.current = None;
        self.make_ready(task);
        self.run_next();
    }

    /// The task on the processor leaves it without going to the ready
    /// queue, and the next ready task runs.
    pub fn block_current_and_run_next(&mut self)
        requires
            old(self).wf(),
        ensures
            final(self).wf(),
            final(self).current == picked(old(self).manager@),
            final(self).manager@ == rest(old(self).manager@),
            final(self).procs == old(self).procs,
            final(self).sleepers == old(self).sleepers,
            final(self).clock_us == old(self).clock_us,
    {
        self.current = None;
        self.run_next();
    }

    /// Wakes the sleepers whose time has come: they join the ready queue in
    /// the order in which they went to sleep. The others sleep on.
    pub fn check_timer(&mut self)
        requires
            old(self).wf(),
        ensures
            final(self).wf(),
            final(self).sleepers@ == old(self).sleepers@.filter(
                not_due((old(self).clock_us / 1000) as usize),
            ),
            final(self).manager@ == old(self).manager@ + risen(
                old(self).sleepers@.filter(due((old(self).clock_us / 1000) as usize)),
            ),
            final(self).current == old(self).current,
            final(self).procs == old(self).procs,
            final(self).clock_us == old(self).clock_us,
    {
        let now = self.now_ms();
        let n = self.sleepers.len();
        let mut kept: Vec<Sleeper> = Vec::new();
        let mut i: usize = 0;
        proof {
            reveal(Seq::filter);
            assert(self.sleepers@.take(0) =~= Seq::<Sleeper>::empty());
            assert(self.manager@ =~= old(self).manager@ + risen(Seq::<Sleeper>::empty()));
        }
        while i < n
            invariant
                n == self.sleepers@.len(),
                i <= n,
                now == old(self).clock_us / 1000,
                self.sleepers == old(self).sleepers,
                self.procs == old(self).procs,
                self.current == old(self).current,
                self.clock_us == old(self).clock_us,
                sleepers_wf(self.procs@, self.sleepers@),
                queue_wf(self.procs@, self.manager@),
                sleepers_wf(self.procs@, kept@),
                kept@ == self.sleepers@.take(i as int).filter(not_due(now)),
                self.manager@ == old(self).manager@ + risen(
                    self.sleepers@.take(i as int).filter(due(now)),
                ),
            decreases n - i,
        {
            let sleeper = self.sleepers[i];
            let ghost seen = self.sleepers@.take(i as int);
            let ghost queue = self.manager@;
            proof {
                reveal(Seq::filter);
                assert(self.sleepers@.take(i as int + 1).drop_last() =~= seen);
                assert(self.sleepers@.take(i as int + 1).last() == sleeper);
                assert(runs_in(self.procs@, sleeper.task));
            }
            if sleeper.expire_ms <= now {
                let mut task = sleeper.task;
                task.status = TaskStatus::Ready;
                self.manager.add(task);
                proof {
                    lemma_push_wf(self.procs@, queue, task);
                    assert(risen(seen.filter(due(now)).push(sleeper)) =~= risen(
                        seen.filter(due(now)),
                    ).push(task));
                    assert(self.manager@ =~= old(self).manager@ + risen(
                        seen.filter(due(now)).push(sleeper),
                    ));
                }
            } else {
                let ghost kept_before = kept@;
                kept.push(sleeper);
                proof {
                    assert forall|j: int| 0 <= j < kept@.len() implies runs_in(
                        self.procs@,
                        (#[trigger] kept@[j]).task,
                    ) && kept@[j].task.status == TaskStatus::Blocked by {
                        if j < kept_before.len() {
                            assert(kept@[j] == kept_before[j]);
                        }
                    }
                }
            }
            i += 1;
        }
        assert(self.sleepers@.take(n as int) =~= self.sleepers@);
        self.sleepers = kept;
    }

    /// Counts one more invocation of system call number `id` for the task
    /// on the processor. A number that the kernel keeps no count for, or a
    /// count at its largest value, changes nothing.
    pub fn record_syscall(&mut self, id: usize)
        requires
            old(self).wf(),
        ensures
            final(self).wf(),
            final(self).procs == old(self).procs,
            final(self).manager == old(self).manager,
            final(self).sleepers == old(self).sleepers,
            final(self).clock_us == old(self).clock_us,
            match old(self).current {
                Some(task) => if id < MAX_SYSCALL_NUM && task.syscall_times@[id as int] < u32::MAX {
                    final(self).current == Some(
                        TaskControlBlock {
                            syscall_times: final(self).current->0.syscall_times,
                            ..task
                        },
                    ) && final(self).current->0.syscall_times@ == task.syscall_times@.update(
                        id as int,
                        (task.syscall_times@[id as int] + 1) as u32,
                    )
                } else {
                    final(self).current == old(self).current
                },
                None => final(self).current is None,
            },
    {
        match self.current {
            Some(task) => {
                if id < MAX_SYSCALL_NUM && task.syscall_times[id] < u32::MAX {
                    let mut task = task;
                    let mut counts = task.syscall_times;
                    counts[id] = counts[id] + 1;
                    task.syscall_times = counts;
                    self.current = Some(task);
                }
            },
            None => {},
        }
    }

    /// Puts 0 into the result register of the task on the processor: what
    /// the task finds there if the system call that it is about to make
    /// takes it off the processor.
    pub fn clear_result(&mut self)
        requires
            old(self).wf(),
        ensures
            final(self).wf(),
            final(self).procs == old(self).procs,
            final(self).manager == old(self).manager,
            final(self).sleepers == old(self).sleepers,
            final(self).clock_us == old(self).clock_us,
            final(self).current == match old(self).current {
                Some(task) => Some(
                    TaskControlBlock { trap_cx: TrapContext { a0: 0, ..task.trap_cx }, ..task },
                ),
                None => None,
            },
    {
        match self.current {
            Some(task) => {
                let mut task = task;
                task.trap_cx.a0 = 0;
                self.current = Some(task);
            },
            None => {},
        }
    }

    /// The task on the processor is thread `tid` of process `pid` and has
    /// nothing to settle: it goes on in its program with what is in its
    /// result register.
    pub open spec fn goes_on(&self, pid: usize, tid: usize) -> bool {
        self.current matches Some(task) && task.pid == pid && task.tid == tid
            && task.spinning is None && task.pending is None
    }

    /// Hands the result `ret` of a system call to its caller, thread `tid`
    /// of process `pid`: where the caller is on the processor and goes on
    /// in its program, `ret` is put into its result register. A caller that
    /// the call has taken off the processor, or that has something to
    /// settle first, keeps what is in its register.
    pub fn deliver_result(&mut self, pid: usize, tid: usize, ret: isize)
        requires
            old(self).wf(),
        ensures
            final(self).wf(),
            final(self).procs == old(self).procs,
            final(self).manager == old(self).manager,
            final(self).sleepers == old(self).sleepers,
            final(self).clock_us == old(self).clock_us,
            final(self).current == if old(self).goes_on(pid, tid) {
                let task = old(self).current->0;
                Some(
                    TaskControlBlock {
                        trap_cx: TrapContext { a0: ret as usize, ..task.trap_cx },
                        ..task
                    },
                )
            } else {
                old(self).current
            },
    {
        match self.current {
            Some(task) => {
                if task.pid == pid && task.tid == tid && task.spinning.is_none()
                    && task.pending.is_none() {
                    let mut task = task;
                    task.trap_cx.a0 = ret as usize;
                    self.current = Some(task);
                }
            },
            None => {},
        }
    }
}

} // verus!
