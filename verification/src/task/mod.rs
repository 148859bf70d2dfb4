//! Tasks: the schedulable units of the kernel.
pub mod manager;
pub mod process;

use vstd::prelude::*;
use crate::config::{BIG_STRIDE, DEFAULT_PRIORITY, MAX_SYSCALL_NUM};

verus! {

/// Where a task stands in its life.
#[derive(Clone, Copy, PartialEq, Eq, Structural, Debug)]
pub enum TaskStatus {
    /// Waiting in the ready queue.
    Ready,
    /// On the processor.
    Running,
    /// Parked until another task or the timer wakes it.
    Blocked,
}

/// What a task that was taken off the processor has to settle when it is on
/// the processor again, before it goes on in its program.
#[derive(Clone, Copy, PartialEq, Eq, Structural, Debug)]
pub enum Pending {
    /// A unit of the mutex with this id was handed to the task while it
    /// waited: its acquisition completes.
    TookMutex(usize),
    /// A unit of the semaphore with this id was handed to the task while it
    /// waited: its acquisition completes.
    TookSemaphore(usize),
    /// The task was signalled on a condition variable: it takes the mutex
    /// with this id again.
    Relock(usize),
}

/// The registers of a task that the kernel reads or sets.
#[derive(Clone, Copy, Debug)]
pub struct TrapContext {
    /// The register in which a system call hands its result back.
    pub a0: usize,
    /// Where the task goes on in its program.
    pub sepc: usize,
    /// The top of the task's user stack.
    pub sp: usize,
}

/// One task (thread) of a process. A task control block is a plain value
/// that moves between the processor, the ready queue, the wait lists of the
/// synchronisation primitives and the timer.
#[derive(Clone, Copy, Debug)]
pub struct TaskControlBlock {
    /// The process that the task belongs to.
    pub pid: usize,
    /// The number of the task within its process.
    pub tid: usize,
    pub status: TaskStatus,
    /// At least [`crate::config::MIN_PRIORITY`] once set by the task itself.
    pub priority: usize,
    /// Virtual time that the task has used.
    pub stride: usize,
    /// What `stride` grows by at each dispatch.
    pub pass: usize,
    /// How often the task has made each system call.
    pub syscall_times: [u32; MAX_SYSCALL_NUM],
    /// Time in milliseconds at which the task was created.
    pub start_time: usize,
    pub trap_cx: TrapContext,
    /// The spin mutex that the task is busy waiting for, if any. Such a
    /// task asks for that mutex again as soon as it runs.
    pub spinning: Option<usize>,
    /// What the task has to settle as soon as it runs.
    pub pending: Option<Pending>,
}

impl TaskControlBlock {
    /// What a task's stride grows by at each dispatch, given its priority.
    pub open spec fn pass_of(priority: int) -> int {
        if priority > 0 {
            BIG_STRIDE as int / priority
        } else {
            BIG_STRIDE as int
        }
    }

    /// The task is thread `tid` of process `pid` as it is created at time
    /// `now_ms`: ready, with the default priority, no virtual time used and
    /// no system call counted, to start at `entry` with the stack `user_sp`
    /// and `arg` in its result register.
    pub open spec fn fresh(
        self,
        pid: usize,
        tid: usize,
        entry: usize,
        user_sp: usize,
        arg: usize,
        now_ms: usize,
    ) -> bool {
        &&& self.pid == pid
        &&& self.tid == tid
        &&& self.status == TaskStatus::Ready
        &&& self.priority == DEFAULT_PRIORITY
        &&& self.stride == 0
        &&& self.pass == Self::pass_of(DEFAULT_PRIORITY as int)
        &&& forall|i: int| 0 <= i < MAX_SYSCALL_NUM ==> self.syscall_times@[i] == 0
        &&& self.start_time == now_ms
        &&& self.trap_cx == (TrapContext { a0: arg, sepc: entry, sp: user_sp })
        &&& self.spinning is None
        &&& self.pending is None
    }

    /// A task that has not run yet.
    pub fn new(pid: usize, tid: usize, entry: usize, user_sp: usize, now_ms: usize) -> (task:
        TaskControlBlock)
        ensures
            task.fresh(pid, tid, entry, user_sp, 0, now_ms),
    {
        TaskControlBlock {
            pid,
            tid,
            status: TaskStatus::Ready,
            priority: DEFAULT_PRIORITY,
            stride: 0,
            pass: BIG_STRIDE / DEFAULT_PRIORITY,
            syscall_times: [0u32; MAX_SYSCALL_NUM],
            start_time: now_ms,
            trap_cx: TrapContext { a0: 0, sepc: entry, sp: user_sp },
            spinning: None,
            pending: None,
        }
    }
}

} // verus!
