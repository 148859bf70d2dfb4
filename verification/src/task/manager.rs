//! The ready queue and the choice of the next task to run.
use vstd::prelude::*;
use std::collections::VecDeque;
use crate::task::TaskControlBlock;

verus! {

/// The task as it leaves the ready queue: its stride has grown by its pass,
/// and stays at the largest machine word where the sum would exceed it.
pub open spec fn dispatched(task: TaskControlBlock) -> TaskControlBlock {
    TaskControlBlock {
        stride: if task.stride + task.pass <= usize::MAX {
            (task.stride + task.pass) as usize
        } else {
            usize::MAX
        },
        ..task
    }
}

/// The task at `i` has the least stride in `queue`, and is the first to have it.
pub open spec fn is_next(queue: Seq<TaskControlBlock>, i: int) -> bool {
    &&& 0 <= i < queue.len()
    &&& forall|j: int| 0 <= j < queue.len() ==> queue[i].stride <= (#[trigger] queue[j]).stride
    &&& forall|j: int| 0 <= j < i ==> (#[trigger] queue[j]).stride > queue[i].stride
}

/// The place in a non-empty queue of the task that is fetched next.
pub open spec fn next_index(queue: Seq<TaskControlBlock>) -> int {
    choose|i: int| is_next(queue, i)
}

/// The queue after its next task has been fetched and added again, `n` times over.
pub open spec fn round_trips(queue: Seq<TaskControlBlock>, n: nat) -> Seq<TaskControlBlock>
    decreases n,
{
    if n == 0 {
        queue
    } else {
        let before = round_trips(queue, (n - 1) as nat);
        let i = next_index(before);
        before.remove(i).push(dispatched(before[i]))
    }
}

/// Only one place in a queue is the next.
pub proof fn lemma_next_unique(queue: Seq<TaskControlBlock>, i: int)
    requires
        is_next(queue, i),
    ensures
        next_index(queue) == i,
{
    let k = next_index(queue);
    assert(is_next(queue, k));
    if k < i {
        assert(queue[k].stride > queue[i].stride);
    } else if i < k {
        assert(queue[i].stride > queue[k].stride);
    }
}

/// A queue that holds one task alone gives that task out each time. After
/// `n` fetches, each followed by adding the task again, its stride has grown
/// by `n` times its pass, as long as that sum is a machine word.
pub proof fn lemma_single_task_stride(task: TaskControlBlock, n: nat)
    requires
        task.stride + n * task.pass <= usize::MAX,
    ensures
        round_trips(seq![task], n) == seq![
            TaskControlBlock { stride: (task.stride + n * task.pass) as usize, ..task },
        ],
    decreases n,
{
    if n == 0 {
        assert(n * task.pass == 0) by (nonlinear_arith)
            requires
                n == 0,
        ;
        assert(round_trips(seq![task], n) =~= seq![
            TaskControlBlock { stride: (task.stride + n * task.pass) as usize, ..task },
        ]);
    } else {
        let m = (n - 1) as nat;
        assert(m * task.pass + task.pass == n * task.pass) by (nonlinear_arith)
            requires
                m + 1 == n,
        ;
        assert(0 <= m * task.pass) by (nonlinear_arith);
        lemma_single_task_stride(task, m);
        let before = round_trips(seq![task], m);
        let held = TaskControlBlock { stride: (task.stride + m * task.pass) as usize, ..task };
        assert(before == seq![held]);
        assert(is_next(before, 0));
        lemma_next_unique(before, 0);
        assert(before.remove(0).push(dispatched(before[0])) =~= seq![
            TaskControlBlock { stride: (task.stride + n * task.pass) as usize, ..task },
        ]);
    }
}

/// The tasks that are ready to run, in the order in which they were added.
pub struct TaskManager {
    pub ready_queue: VecDeque<TaskControlBlock>,
}

impl View for TaskManager {
    type V = Seq<TaskControlBlock>;

    open spec fn view(&self) -> Seq<TaskControlBlock> {
        self.ready_queue@
    }
}

impl TaskManager {
    /// A manager without tasks.
    pub fn new() -> (manager: TaskManager)
        ensures
            manager@ == Seq::<TaskControlBlock>::empty(),
    {
        TaskManager { ready_queue: VecDeque::new() }
    }

    /// Number of tasks that are ready.
    pub fn len(&self) -> (n: usize)
        ensures
            n == self@.len(),
    {
        self.ready_queue.len()
    }

    /// Puts `task` at the back of the ready queue.
    pub fn add(&mut self, task: TaskControlBlock)
        ensures
            final(self)@ == old(self)@.push(task),
    {
        self.ready_queue.push_back(task);
    }

    /// Takes the task with the least stride out of the ready queue; among
    /// tasks of equal stride the one that was added first. The task comes
    /// out with its stride advanced by its pass. An empty queue gives no task.
    pub fn fetch(&mut self) -> (next: Option<TaskControlBlock>)
        ensures
            old(self)@.len() == 0 ==> next is None && final(self)@ == old(self)@,
            old(self)@.len() > 0 ==> {
                let i = next_index(old(self)@);
                &&& is_next(old(self)@, i)
                &&& next == Some(dispatched(old(self)@[i]))
                &&& final(self)@ == old(self)@.remove(i)
            },
    {
        let n = self.ready_queue.len();
        if n == 0 {
            return None;
        }
        let mut min_idx: usize = 0;
        let mut min_stride: usize = self.ready_queue[0].stride;
        let mut i: usize = 1;
        while i < n
            invariant
                n == self@.len(),
                self@ == old(self)@,
                1 <= i <= n,
                min_idx < i,
                min_stride == self@[min_idx as int].stride,
                forall|j: int| 0 <= j < i ==> min_stride <= (#[trigger] self@[j]).stride,
                forall|j: int| 0 <= j < min_idx ==> (#[trigger] self@[j]).stride > min_stride,
            decreases n - i,
        {
            if self.ready_queue[i].stride < min_stride {
                min_stride = self.ready_queue[i].stride;
                min_idx = i;
            }
            i += 1;
        }
        proof {
            lemma_next_unique(self@, min_idx as int);
        }
        match self.ready_queue.remove(min_idx) {
            Some(task) => {
                let mut task = task;
                task.stride = if task.stride <= usize::MAX - task.pass {
                    task.stride + task.pass
                } else {
                    usize::MAX
                };
                Some(task)
            },
            None => None,
        }
    }
}

/// Holds of the tasks that do not belong to process `pid`.
pub open spec fn not_of(pid: usize) -> spec_fn(TaskControlBlock) -> bool {
    |task: TaskControlBlock| task.pid != pid
}

impl TaskManager {
    /// Takes the tasks of process `pid` out of the ready queue; the others
    /// keep their order.
    pub fn remove_process(&mut self, pid: usize)
        ensures
            final(self)@ == old(self)@.filter(not_of(pid)),
    {
        let n = self.ready_queue.len();
        let mut kept: VecDeque<TaskControlBlock> = VecDeque::new();
        let mut i: usize = 0;
        proof {
            reveal(Seq::filter);
            assert(old(self)@.take(0) =~= Seq::<TaskControlBlock>::empty());
        }
        while i < n
            invariant
                n == self@.len(),
                self@ == old(self)@,
                i <= n,
                kept@ == self@.take(i as int).filter(not_of(pid)),
            decreases n - i,
        {
            let task = self.ready_queue[i];
            proof {
                reveal(Seq::filter);
                assert(self@.take(i as int + 1).drop_last() =~= self@.take(i as int));
                assert(self@.take(i as int + 1).last() == task);
            }
            if task.pid != pid {
                kept.push_back(task);
            }
            i += 1;
        }
        assert(self@.take(n as int) =~= self@);
        self.ready_queue = kept;
    }
}

/// Puts `task` at the back of the ready queue of `manager`.
pub fn add_task(manager: &mut TaskManager, task: TaskControlBlock)
    ensures
        final(manager)@ == old(manager)@.push(task),
{
    manager.add(task);
}

/// Takes the next task out of the ready queue of `manager`, as
/// [`TaskManager::fetch`] does.
pub fn fetch_task(manager: &mut TaskManager) -> (next: Option<TaskControlBlock>)
    ensures
        old(manager)@.len() == 0 ==> next is None && final(manager)@ == old(manager)@,
        old(manager)@.len() > 0 ==> {
            let i = next_index(old(manager)@);
            &&& is_next(old(manager)@, i)
            &&& next == Some(dispatched(old(manager)@[i]))
            &&& final(manager)@ == old(manager)@.remove(i)
        },
{
    manager.fetch()
}

} // verus!
