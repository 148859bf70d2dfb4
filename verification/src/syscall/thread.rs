//! System calls for the threads of a process.
use vstd::prelude::*;
use crate::kernel::{Kernel, lemma_proc_changed, lemma_push_wf};
use crate::task::TaskControlBlock;

verus! {

/// Starts a new thread in the caller's process, which begins at `entry`
/// with `arg` as its argument and `user_sp` as the top of its stack, and is
/// ready to run. Both ledgers of the
/// process get a row for it. Returns the number of the thread, which is the
/// number of threads that the process has had; or -1 where that number is
/// too large to be returned, and then nothing changes.
pub fn sys_thread_create(kernel: &mut Kernel, entry: usize, arg: usize, user_sp: usize) -> (ret:
    isize)
    requires
        old(kernel).wf(),
        old(kernel).current is Some,
    ensures
        final(kernel).wf(),
        final(kernel).current == old(kernel).current,
        old(kernel).same_but_proc(*final(kernel), old(kernel).caller_pid()),
        ({
            let before = old(kernel).proc(old(kernel).caller_pid());
            let after = final(kernel).proc(old(kernel).caller_pid());
            let tid = before.thread_count;
            &&& after.pid == before.pid
            &&& after.parent == before.parent
            &&& after.children == before.children
            &&& after.status == before.status
            &&& after.exit_code == before.exit_code
            &&& after.memory_set == before.memory_set
            &&& after.deadlock_detect_enable == before.deadlock_detect_enable
            &&& after.condvars == before.condvars
            &&& if tid >= isize::MAX {
                &&& ret == -1
                &&& after == before
                &&& final(kernel).manager@ == old(kernel).manager@
            } else {
                let first = final(kernel).manager@.last();
                &&& ret == tid
                &&& after.thread_count == tid + 1
                &&& after.mutexes.slots == before.mutexes.slots
                &&& after.semaphores.slots == before.semaphores.slots
                &&& after.mutexes.ledger@ == before.mutexes.ledger@.add_thread()
                &&& after.semaphores.ledger@ == before.semaphores.ledger@.add_thread()
                &&& final(kernel).manager@ == old(kernel).manager@.push(first)
                &&& first.fresh(
                    before.pid,
                    tid,
                    entry,
                    user_sp,
                    arg,
                    (old(kernel).clock_us / 1000) as usize,
                )
            }
        }),
{
    let task = kernel.current.unwrap();
    let pid = task.pid;
    let now = kernel.now_ms();
    let process = kernel.procs.slots[pid].as_mut().unwrap();
    let made = if process.thread_count >= isize::MAX as usize {
        None
    } else {
        process.thread_create()
    };
    match made {
        None => -1,
        Some(tid) => {
            let mut first = TaskControlBlock::new(pid, tid, entry, user_sp, now);
            first.trap_cx.a0 = arg;
            proof {
                lemma_proc_changed(old(kernel).procs@, kernel.procs@, pid as int);
            }
            let ghost queue = kernel.manager@;
            kernel.manager.add(first);
            proof {
                lemma_push_wf(kernel.procs@, queue, first);
                assert(kernel.manager@.last() == first);
            }
            tid as isize
        },
    }
}

} // verus!
