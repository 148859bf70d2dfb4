//! System calls of process management: the life of a process, its memory,
//! its priority and the time.
use vstd::prelude::*;
use crate::config::{BIG_STRIDE, MAX_SYSCALL_NUM, MIN_PRIORITY, PAGE_SIZE, ROOT_PID};
use crate::kernel::{
    Kernel, Sleeper, lemma_proc_changed, lemma_push_wf, lemma_tasks_kept, picked, queue_wf, rest,
    runs_in, sleeper_not_of, sleepers_wf, sleepers_without, table_wf,
};
use crate::task::manager::not_of;
use crate::mm::{
    MapPermission, MemorySet, ceil_page, floor_page, page_aligned, page_ceil, page_floor, page_range,
};
use crate::slots::{first_free, is_first_free, live};
use crate::sync::woken;
use crate::task::process::{AppImage, ProcessControlBlock, ProcessStatus};
use crate::task::{TaskControlBlock, TaskStatus, TrapContext};

verus! {

/// A time: whole seconds and the microseconds beyond them.
#[derive(Clone, Copy, Debug)]
pub struct TimeVal {
    pub sec: usize,
    pub usec: usize,
}

/// What a task can learn about itself.
#[derive(Clone, Copy, Debug)]
pub struct TaskInfo {
    /// Where the task stands in its life.
    pub status: TaskStatus,
    /// How often the task has made each system call.
    pub syscall_times: [u32; MAX_SYSCALL_NUM],
    /// Milliseconds since the task was created.
    pub time: usize,
}

impl ProcessControlBlock {
    /// `after` is the same process but for its memory.
    pub open spec fn same_but_memory(&self, after: ProcessControlBlock) -> bool {
        &&& after.pid == self.pid
        &&& after.parent == self.parent
        &&& after.children == self.children
        &&& after.status == self.status
        &&& after.exit_code == self.exit_code
        &&& after.thread_count == self.thread_count
        &&& after.deadlock_detect_enable == self.deadlock_detect_enable
        &&& after.mutexes == self.mutexes
        &&& after.semaphores == self.semaphores
        &&& after.condvars == self.condvars
    }
}

/// The permissions that the bits of `port` ask for: bit 0 to read, bit 1 to
/// write, bit 2 to execute; always for the user.
pub open spec fn port_permission(port: usize) -> MapPermission {
    MapPermission {
        readable: port & 0x1 != 0,
        writable: port & 0x2 != 0,
        executable: port & 0x4 != 0,
        user: true,
    }
}

/// `port` has no bit beyond the three permission bits and at least one of
/// those.
pub open spec fn port_valid(port: usize) -> bool {
    port & !0x7usize == 0 && port & 0x7 != 0
}

/// A range of `len` bytes from `start` can be mapped with `port` into
/// `memory`: `start` is the first address of a page, the permission bits are
/// valid, the range ends within the address space, and none of its pages is
/// taken.
pub open spec fn can_mmap(memory: MemorySet, start: usize, len: usize, port: usize) -> bool {
    &&& page_aligned(start as int)
    &&& port_valid(port)
    &&& start + len <= usize::MAX
    &&& !memory.overlaps(page_floor(start as int), page_ceil(start + len))
}

/// A range of `len` bytes from `start` can be unmapped from `memory`: `start`
/// is the first address of a page, the range ends within the address space,
/// and all of its pages are mapped.
pub open spec fn can_munmap(memory: MemorySet, start: usize, len: usize) -> bool {
    &&& page_aligned(start as int)
    &&& start + len <= usize::MAX
    &&& memory.covers(page_floor(start as int), page_ceil(start + len))
}

/// The loader has found an image and its mapping table is well formed.
pub open spec fn usable(image: Option<AppImage>) -> bool {
    image matches Some(found) && found.memory_set.wf()
}

/// The caller gives the processor up: it goes to the back of the ready
/// queue and the next ready task runs. Returns 0.
pub fn sys_yield(kernel: &mut Kernel) -> (ret: isize)
    requires
        old(kernel).wf(),
        old(kernel).current is Some,
    ensures
        final(kernel).wf(),
        ret == 0,
        final(kernel).current == picked(old(kernel).manager@.push(woken(old(kernel).caller()))),
        final(kernel).manager@ == rest(old(kernel).manager@.push(woken(old(kernel).caller()))),
        final(kernel).procs == old(kernel).procs,
        final(kernel).sleepers == old(kernel).sleepers,
        final(kernel).clock_us == old(kernel).clock_us,
{
    kernel.suspend_current_and_run_next();
    0
}

/// The id of the caller's process.
pub fn sys_getpid(kernel: &Kernel) -> (ret: isize)
    requires
        kernel.wf(),
        kernel.current is Some,
    ensures
        ret == kernel.caller().pid,
{
    kernel.current.unwrap().pid as isize
}

/// Writes the time of the kernel's clock to `ts`, in seconds and
/// microseconds. Returns 0.
pub fn sys_get_time(kernel: &Kernel, ts: &mut TimeVal, _tz: usize) -> (ret: isize)
    ensures
        ret == 0,
        final(ts).sec == kernel.clock_us / 1_000_000,
        final(ts).usec == kernel.clock_us % 1_000_000,
{
    ts.sec = kernel.clock_us / 1_000_000;
    ts.usec = kernel.clock_us % 1_000_000;
    0
}

/// Writes to `ti` the caller's status, how often it has made each system
/// call, and the milliseconds since it was created (0 where the clock is
/// behind that time). Returns 0.
pub fn sys_task_info(kernel: &Kernel, ti: &mut TaskInfo) -> (ret: isize)
    requires
        kernel.current is Some,
    ensures
        ret == 0,
        final(ti).status == kernel.caller().status,
        final(ti).syscall_times == kernel.caller().syscall_times,
        final(ti).time == if kernel.clock_us / 1000 >= kernel.caller().start_time {
            kernel.clock_us / 1000 - kernel.caller().start_time
        } else {
            0
        },
{
    let task = kernel.current.unwrap();
    let now = kernel.now_ms();
    ti.status = task.status;
    ti.syscall_times = task.syscall_times;
    ti.time = if now >= task.start_time {
        now - task.start_time
    } else {
        0
    };
    0
}

/// Sets the caller's priority to `prio` and returns it. The task's pass
/// becomes [`BIG_STRIDE`] divided by the priority; its stride stays, so the
/// change shows from the next dispatch on. A priority below 2 is refused
/// with -1 and changes nothing.
pub fn sys_set_priority(kernel: &mut Kernel, prio: isize) -> (ret: isize)
    requires
        old(kernel).wf(),
        old(kernel).current is Some,
    ensures
        final(kernel).wf(),
        final(kernel).procs == old(kernel).procs,
        final(kernel).manager == old(kernel).manager,
        final(kernel).sleepers == old(kernel).sleepers,
        final(kernel).clock_us == old(kernel).clock_us,
        prio < MIN_PRIORITY ==> ret == -1 && final(kernel).current == old(kernel).current,
        prio >= MIN_PRIORITY ==> ret == prio && final(kernel).current == Some(
            TaskControlBlock {
                priority: prio as usize,
                pass: TaskControlBlock::pass_of(prio as int) as usize,
                ..old(kernel).caller()
            },
        ),
{
    if prio < MIN_PRIORITY {
        return -1;
    }
    let mut task = kernel.current.unwrap();
    task.priority = prio as usize;
    task.pass = BIG_STRIDE / (prio as usize);
    kernel.current = Some(task);
    prio
}

/// Maps `len` bytes from address `start` into the caller's address space,
/// with the permissions that `port` asks for. Returns 0, or -1 where
/// `start` is not the first address of a page, `port` has a bit beyond the
/// three permission bits or none of those, the range ends beyond the address
/// space, or a page of the range is taken already; then nothing changes.
pub fn sys_mmap(kernel: &mut Kernel, start: usize, len: usize, port: usize) -> (ret: isize)
    requires
        old(kernel).wf(),
        old(kernel).current is Some,
    ensures
        final(kernel).wf(),
        old(kernel).same_tasks(*final(kernel)),
        old(kernel).same_but_proc(*final(kernel), old(kernel).caller_pid()),
        ({
            let before = old(kernel).proc(old(kernel).caller_pid());
            let after = final(kernel).proc(old(kernel).caller_pid());
            &&& before.same_but_memory(after)
            &&& after.memory_set.heap_bottom == before.memory_set.heap_bottom
            &&& after.memory_set.program_brk == before.memory_set.program_brk
            &&& if can_mmap(before.memory_set, start, len, port) {
                &&& ret == 0
                &&& after.memory_set@ == before.memory_set@.union_prefer_right(
                    Map::new(
                        |vpn: int| page_floor(start as int) <= vpn < page_ceil(start + len),
                        |vpn: int| port_permission(port),
                    ),
                )
            } else {
                &&& ret == -1
                &&& after.memory_set == before.memory_set
            }
        }),
{
    let task = kernel.current.unwrap();
    if start % PAGE_SIZE != 0 {
        return -1;
    }
    if (port & !0x7usize) != 0 || (port & 0x7) == 0 {
        return -1;
    }
    if len > usize::MAX - start {
        return -1;
    }
    let first = floor_page(start);
    let end = ceil_page(start + len);
    let perm = MapPermission {
        readable: (port & 0x1) != 0,
        writable: (port & 0x2) != 0,
        executable: (port & 0x4) != 0,
        user: true,
    };
    let pid = task.pid;
    let mut ret: isize = -1;
    let process = kernel.procs.slots[pid].as_mut().unwrap();
    if !process.memory_set.range_intersect(first, end) {
        proof {
            assert forall|vpn: int| first <= vpn < end implies !process.memory_set@.dom().contains(
                vpn,
            ) by {
                assert(!process.memory_set.occupied(vpn));
            }
        }
        process.memory_set.insert_framed_area(first, end, perm);
        ret = 0;
    }
    proof {
        lemma_proc_changed(old(kernel).procs@, kernel.procs@, pid as int);
    }
    ret
}

/// Unmaps `len` bytes from address `start` from the caller's address space.
/// Returns 0, or -1 where `start` is not the first address of a page, the
/// range ends beyond the address space, or a page of the range is not
/// mapped; then nothing changes.
pub fn sys_munmap(kernel: &mut Kernel, start: usize, len: usize) -> (ret: isize)
    requires
        old(kernel).wf(),
        old(kernel).current is Some,
    ensures
        final(kernel).wf(),
        old(kernel).same_tasks(*final(kernel)),
        old(kernel).same_but_proc(*final(kernel), old(kernel).caller_pid()),
        ({
            let before = old(kernel).proc(old(kernel).caller_pid());
            let after = final(kernel).proc(old(kernel).caller_pid());
            &&& before.same_but_memory(after)
            &&& after.memory_set.heap_bottom == before.memory_set.heap_bottom
            &&& after.memory_set.program_brk == before.memory_set.program_brk
            &&& if can_munmap(before.memory_set, start, len) {
                &&& ret == 0
                &&& after.memory_set@ == before.memory_set@.remove_keys(
                    page_range(page_floor(start as int), page_ceil(start + len)),
                )
            } else {
                &&& ret == -1
                &&& after.memory_set@ == before.memory_set@
                &&& after.memory_set.areas@ == before.memory_set.areas@
            }
        }),
{
    let task = kernel.current.unwrap();
    if start % PAGE_SIZE != 0 {
        return -1;
    }
    if len > usize::MAX - start {
        return -1;
    }
    let first = floor_page(start);
    let end = ceil_page(start + len);
    let pid = task.pid;
    let mut ret: isize = -1;
    let process = kernel.procs.slots[pid].as_mut().unwrap();
    if process.memory_set.unmap_range(first, end) {
        ret = 0;
    }
    proof {
        lemma_proc_changed(old(kernel).procs@, kernel.procs@, pid as int);
    }
    ret
}

/// Moves the caller's program break by `size` bytes and returns the break
/// as it was. Returns -1 where the break cannot move so (see
/// [`MemorySet::brk_can_move`]) or the old break is too large to be
/// returned; then nothing changes.
pub fn sys_sbrk(kernel: &mut Kernel, size: i32) -> (ret: isize)
    requires
        old(kernel).wf(),
        old(kernel).current is Some,
    ensures
        final(kernel).wf(),
        old(kernel).same_tasks(*final(kernel)),
        old(kernel).same_but_proc(*final(kernel), old(kernel).caller_pid()),
        ({
            let before = old(kernel).proc(old(kernel).caller_pid());
            let after = final(kernel).proc(old(kernel).caller_pid());
            &&& before.same_but_memory(after)
            &&& after.memory_set.areas@ == before.memory_set.areas@
            &&& after.memory_set.heap_bottom == before.memory_set.heap_bottom
            &&& if before.memory_set.program_brk <= isize::MAX && before.memory_set.brk_can_move(
                size as int,
            ) {
                &&& ret == before.memory_set.program_brk
                &&& after.memory_set.program_brk == before.memory_set.program_brk + size
            } else {
                &&& ret == -1
                &&& after.memory_set.program_brk == before.memory_set.program_brk
            }
        }),
{
    let task = kernel.current.unwrap();
    let pid = task.pid;
    let mut ret: isize = -1;
    let process = kernel.procs.slots[pid].as_mut().unwrap();
    if process.memory_set.program_brk <= isize::MAX as usize {
        match process.memory_set.change_program_brk(size) {
            Some(old_brk) => {
                ret = old_brk as isize;
            },
            None => {},
        }
    }
    proof {
        lemma_proc_changed(old(kernel).procs@, kernel.procs@, pid as int);
    }
    ret
}

/// Replaces the program of the caller's process by `image`: the process
/// gets the image's address space and the caller starts at the image's
/// entry with the image's stack. The process keeps its id, its parent and
/// its children. Returns 0, or -1 where the loader found no image or the
/// image's mapping table is not well formed; then nothing changes.
pub fn sys_exec(kernel: &mut Kernel, image: Option<AppImage>) -> (ret: isize)
    requires
        old(kernel).wf(),
        old(kernel).current is Some,
    ensures
        final(kernel).wf(),
        final(kernel).manager == old(kernel).manager,
        old(kernel).same_but_proc(*final(kernel), old(kernel).caller_pid()),
        ({
            let before = old(kernel).proc(old(kernel).caller_pid());
            let after = final(kernel).proc(old(kernel).caller_pid());
            &&& before.same_but_memory(after)
            &&& if usable(image) {
                let found = image->0;
                &&& ret == 0
                &&& after.memory_set == found.memory_set
                &&& final(kernel).current == Some(
                    TaskControlBlock {
                        trap_cx: TrapContext { a0: 0, sepc: found.entry, sp: found.user_sp },
                        ..old(kernel).caller()
                    },
                )
            } else {
                &&& ret == -1
                &&& after.memory_set == before.memory_set
                &&& final(kernel).current == old(kernel).current
            }
        }),
{
    let task = kernel.current.unwrap();
    let pid = task.pid;
    match image {
        Some(found) => {
            if !found.memory_set.check() {
                return -1;
            }
            let mut task = task;
            task.trap_cx = TrapContext { a0: 0, sepc: found.entry, sp: found.user_sp };
            let process = kernel.procs.slots[pid].as_mut().unwrap();
            process.memory_set = found.memory_set;
            kernel.current = Some(task);
            proof {
                lemma_proc_changed(old(kernel).procs@, kernel.procs@, pid as int);
            }
            0
        },
        None => -1,
    }
}


impl ProcessControlBlock {
    /// `after` is the same process with `child` as its newest child.
    pub open spec fn with_child(&self, after: ProcessControlBlock, child: usize) -> bool {
        &&& after.children@ == self.children@.push(child)
        &&& after.pid == self.pid
        &&& after.parent == self.parent
        &&& after.status == self.status
        &&& after.exit_code == self.exit_code
        &&& after.memory_set == self.memory_set
        &&& after.thread_count == self.thread_count
        &&& after.deadlock_detect_enable == self.deadlock_detect_enable
        &&& after.mutexes == self.mutexes
        &&& after.semaphores == self.semaphores
        &&& after.condvars == self.condvars
    }

    /// The process is new: it runs, has one thread and no children yet.
    pub open spec fn newborn(&self, pid: usize, parent: usize) -> bool {
        &&& self.pid == pid
        &&& self.parent == Some(parent)
        &&& self.children@.len() == 0
        &&& self.status == ProcessStatus::Running
        &&& self.exit_code == 0
        &&& self.thread_count == 1
    }

    /// The process has nothing to synchronise on, and deadlock detection
    /// is off.
    pub open spec fn without_resources(&self) -> bool {
        &&& !self.deadlock_detect_enable
        &&& self.mutexes.slots@.len() == 0
        &&& self.semaphores.slots@.len() == 0
        &&& self.condvars@.len() == 0
    }
}

/// The first task of the process `child` that a fork of `task` makes: a
/// copy of `task` that is ready and sees 0 as the result of the fork.
pub open spec fn forked(task: TaskControlBlock, child: usize) -> TaskControlBlock {
    TaskControlBlock {
        pid: child,
        tid: 0,
        status: TaskStatus::Ready,
        trap_cx: TrapContext { a0: 0, ..task.trap_cx },
        spinning: None,
        pending: None,
        ..task
    }
}

impl Kernel {
    /// `after` is `self` with one process more: the process `child`, a
    /// child of the caller's process, whose first task `first` is ready.
    /// Nothing else has changed.
    pub open spec fn with_new_process(&self, after: Kernel, child: usize, first: TaskControlBlock) -> bool {
        let pid = self.caller_pid();
        &&& after.procs@.len() == if child < self.procs@.len() {
            self.procs@.len()
        } else {
            self.procs@.len() + 1
        }
        &&& forall|p: int|
            0 <= p < self.procs@.len() && p != pid && p != child ==> after.procs@[p] == self.procs@[p]
        &&& after.procs@[pid] is Some
        &&& self.proc(pid).with_child(after.proc(pid), child)
        &&& after.procs@[child as int] is Some
        &&& after.proc(child as int).newborn(child, pid as usize)
        &&& after.current == self.current
        &&& after.manager@ == self.manager@.push(first)
        &&& after.sleepers == self.sleepers
        &&& after.clock_us == self.clock_us
    }

    /// Puts the new process `child` into the first free slot, lists it as a
    /// child of the caller's process and makes its first task ready.
    fn adopt(&mut self, child: ProcessControlBlock, first: TaskControlBlock)
        requires
            old(self).wf(),
            old(self).current is Some,
            child.wf(),
            child.pid == first_free(old(self).procs@),
            child.pid < isize::MAX,
            child.newborn(child.pid, old(self).caller().pid),
            first.pid == child.pid,
            first.tid == 0,
            first.status == TaskStatus::Ready,
        ensures
            final(self).wf(),
            old(self).with_new_process(*final(self), child.pid, first),
            final(self).proc(child.pid as int) == child,
    {
        let task = self.current.unwrap();
        let pid = task.pid;
        let child_pid = child.pid;
        let made = self.procs.insert(child);
        assert(made == child_pid);
        assert(child_pid != pid);
        let process = self.procs.slots[pid].as_mut().unwrap();
        process.children.push(child_pid);
        self.manager.add(first);
        proof {
            let before = old(self).procs@;
            let after = self.procs@;
            assert(after[pid as int]->0.children@ == before[pid as int]->0.children@.push(child_pid));
            assert forall|k: int| 0 <= k < before[pid as int]->0.children@.len() implies (
            #[trigger] before[pid as int]->0.children@[k]) != child_pid by {
                let c = before[pid as int]->0.children@[k];
                assert(live(before, c as int));
            }
            assert(after[pid as int]->0.children@.no_duplicates());
            assert(before[pid as int]->0.wf());
            assert(after[pid as int]->0.wf());
            assert forall|p: int| live(after, p) implies (#[trigger] after[p])->0.wf() && after[p]->0.pid
                == p by {
                if p != pid && p != child_pid {
                    assert(before[p]->0.wf());
                }
            }
            assert forall|p: int, k: int|
                live(after, p) && 0 <= k < after[p]->0.children@.len() implies {
                let c = #[trigger] after[p]->0.children@[k];
                live(after, c as int) && after[c as int]->0.parent == Some(p as usize)
            } by {
                if p == pid && k == before[pid as int]->0.children@.len() {
                } else {
                    let c = before[p]->0.children@[k];
                    assert(live(before, c as int) && before[c as int]->0.parent == Some(p as usize));
                }
            }
            assert(table_wf(after));
            lemma_tasks_kept(before, after);
            lemma_push_wf(after, old(self).manager@, first);
        }
    }
}

/// Makes a copy of the caller's process (see
/// [`ProcessControlBlock::forked`]): a new process with a copy of the
/// caller's address space and the same synchronisation primitives, whose
/// one task is a copy of the caller, ready to run, and sees 0 as the result
/// of this call. Returns the id of the new process, the lowest id that is
/// free; or -1 where that id is too large to be returned, and then nothing
/// changes.
pub fn sys_fork(kernel: &mut Kernel) -> (ret: isize)
    requires
        old(kernel).wf(),
        old(kernel).current is Some,
    ensures
        final(kernel).wf(),
        is_first_free(old(kernel).procs@, first_free(old(kernel).procs@)),
        first_free(old(kernel).procs@) >= isize::MAX ==> ret == -1 && *final(kernel) == *old(kernel),
        first_free(old(kernel).procs@) < isize::MAX ==> {
            let child = first_free(old(kernel).procs@) as usize;
            &&& ret == child
            &&& old(kernel).with_new_process(*final(kernel), child, forked(old(kernel).caller(), child))
            &&& old(kernel).proc(old(kernel).caller_pid()).forked(
                final(kernel).proc(child as int),
                child,
                old(kernel).caller().tid as int,
            )
        },
{
    let task = kernel.current.unwrap();
    let pid = task.pid;
    let child_pid = kernel.procs.first_free();
    if child_pid >= isize::MAX as usize {
        return -1;
    }
    assert(child_pid != pid);
    let process = kernel.procs.slots[pid].as_ref().unwrap();
    let child = process.fork(child_pid, task.tid);
    let mut first = task;
    first.pid = child_pid;
    first.tid = 0;
    first.status = TaskStatus::Ready;
    first.trap_cx.a0 = 0;
    first.spinning = None;
    first.pending = None;
    kernel.adopt(child, first);
    child_pid as isize
}

/// Makes a new process from `image` as a child of the caller's process;
/// its one task is ready to run at the image's entry. Returns the id of
/// the new process, the lowest id that is free; or -1 where the loader
/// found no image, the image's mapping table is not well formed or the id
/// is too large to be returned, and then nothing changes.
pub fn sys_spawn(kernel: &mut Kernel, image: Option<AppImage>) -> (ret: isize)
    requires
        old(kernel).wf(),
        old(kernel).current is Some,
    ensures
        final(kernel).wf(),
        is_first_free(old(kernel).procs@, first_free(old(kernel).procs@)),
        !usable(image) || first_free(old(kernel).procs@) >= isize::MAX ==> ret == -1 && *final(kernel)
            == *old(kernel),
        usable(image) && first_free(old(kernel).procs@) < isize::MAX ==> {
            let child = first_free(old(kernel).procs@) as usize;
            let first = final(kernel).manager@.last();
            &&& ret == child
            &&& old(kernel).with_new_process(*final(kernel), child, first)
            &&& final(kernel).proc(child as int).without_resources()
            &&& final(kernel).proc(child as int).memory_set == image->0.memory_set
            &&& first.fresh(
                child,
                0,
                image->0.entry,
                image->0.user_sp,
                0,
                (old(kernel).clock_us / 1000) as usize,
            )
        },
{
    let task = kernel.current.unwrap();
    let pid = task.pid;
    let child_pid = kernel.procs.first_free();
    match image {
        None => -1,
        Some(found) => {
            if child_pid >= isize::MAX as usize || !found.memory_set.check() {
                return -1;
            }
            let first = TaskControlBlock::new(
                child_pid,
                0,
                found.entry,
                found.user_sp,
                kernel.now_ms(),
            );
            let child = ProcessControlBlock::new(child_pid, Some(pid), found.memory_set);
            kernel.adopt(child, first);
            assert(kernel.manager@.last() == first);
            child_pid as isize
        },
    }
}


/// A wait for `target` takes the child `child`: `target` is -1, for any
/// child, or the child's id.
pub open spec fn waits_for(target: isize, child: usize) -> bool {
    target == -1 || target == child
}

impl ProcessControlBlock {
    /// `after` is the same process with the children `children`.
    pub open spec fn with_children(&self, after: ProcessControlBlock, children: Seq<usize>) -> bool {
        &&& after.children@ == children
        &&& after.pid == self.pid
        &&& after.parent == self.parent
        &&& after.status == self.status
        &&& after.exit_code == self.exit_code
        &&& after.memory_set == self.memory_set
        &&& after.thread_count == self.thread_count
        &&& after.deadlock_detect_enable == self.deadlock_detect_enable
        &&& after.mutexes == self.mutexes
        &&& after.semaphores == self.semaphores
        &&& after.condvars == self.condvars
    }

    /// `after` is the same process with the parent `parent`.
    pub open spec fn reparented(&self, after: ProcessControlBlock, parent: usize) -> bool {
        &&& after.parent == Some(parent)
        &&& after.pid == self.pid
        &&& after.children == self.children
        &&& after.status == self.status
        &&& after.exit_code == self.exit_code
        &&& after.memory_set == self.memory_set
        &&& after.thread_count == self.thread_count
        &&& after.deadlock_detect_enable == self.deadlock_detect_enable
        &&& after.mutexes == self.mutexes
        &&& after.semaphores == self.semaphores
        &&& after.condvars == self.condvars
    }

    /// `after` is the process after it has exited with `exit_code`: a
    /// zombie without memory, and without children unless it keeps them.
    pub open spec fn exited(&self, after: ProcessControlBlock, exit_code: i32, keeps: bool) -> bool {
        &&& after.status == ProcessStatus::Zombie
        &&& after.exit_code == exit_code
        &&& after.memory_set@ == Map::<int, MapPermission>::empty()
        &&& after.memory_set.heap_bottom == self.memory_set.heap_bottom
        &&& after.memory_set.program_brk == self.memory_set.heap_bottom
        &&& after.children@ == if keeps {
            self.children@
        } else {
            Seq::<usize>::empty()
        }
        &&& after.pid == self.pid
        &&& after.parent == self.parent
        &&& after.thread_count == self.thread_count
        &&& after.deadlock_detect_enable == self.deadlock_detect_enable
        &&& after.mutexes == self.mutexes
        &&& after.semaphores == self.semaphores
        &&& after.condvars == self.condvars
    }
}

impl Kernel {
    /// The children of the caller's process.
    pub open spec fn kids(&self) -> Seq<usize> {
        self.proc(self.caller_pid()).children@
    }

    /// The caller's process has a child that a wait for `target` takes.
    pub open spec fn has_child(&self, target: isize) -> bool {
        exists|k: int| 0 <= k < self.kids().len() && waits_for(target, #[trigger] self.kids()[k])
    }

    /// The `k`th child of the caller's process is a zombie that a wait for
    /// `target` takes.
    pub open spec fn zombie_child(&self, target: isize, k: int) -> bool {
        &&& 0 <= k < self.kids().len()
        &&& waits_for(target, self.kids()[k])
        &&& self.proc(self.kids()[k] as int).status == ProcessStatus::Zombie
    }

    /// `after` is `self` without the `k`th child of the caller's process:
    /// the child has left the children and its slot is empty. Nothing else
    /// has changed.
    pub open spec fn reaped(&self, after: Kernel, k: int) -> bool {
        let pid = self.caller_pid();
        let gone = self.kids()[k] as int;
        &&& after.procs@.len() == self.procs@.len()
        &&& forall|p: int|
            0 <= p < self.procs@.len() && p != pid && p != gone ==> after.procs@[p] == self.procs@[p]
        &&& after.procs@[gone] is None
        &&& after.procs@[pid] is Some
        &&& self.proc(pid).with_children(after.proc(pid), self.kids().remove(k))
        &&& self.same_tasks(after)
        &&& after.sleepers == self.sleepers
        &&& after.clock_us == self.clock_us
    }
}

/// Collects the exit code of a child of the caller's process that has
/// exited: of the child with id `pid`, or of any child where `pid` is -1.
/// The child is taken off the children and out of the process table, its
/// exit code is written to `exit_code`, and its id is returned. Where
/// several children qualify, one of them is taken. Returns -1 where the
/// caller's process has no child that `pid` stands for, and -2 where it has
/// one but none that has exited; then nothing changes.
pub fn sys_waitpid(kernel: &mut Kernel, pid: isize, exit_code: &mut i32) -> (ret: isize)
    requires
        old(kernel).wf(),
        old(kernel).current is Some,
    ensures
        final(kernel).wf(),
        !old(kernel).has_child(pid) ==> ret == -1,
        old(kernel).has_child(pid) && !(exists|k: int| old(kernel).zombie_child(pid, k)) ==> ret == -2,
        (exists|k: int| old(kernel).zombie_child(pid, k)) ==> exists|k: int|
            {
                &&& #[trigger] old(kernel).zombie_child(pid, k)
                &&& ret == old(kernel).kids()[k]
                &&& *final(exit_code) == old(kernel).proc(old(kernel).kids()[k] as int).exit_code
                &&& old(kernel).reaped(*final(kernel), k)
            },
        ret < 0 ==> *final(kernel) == *old(kernel) && *final(exit_code) == *old(exit_code),
        ret >= 0 ==> !final(kernel).kids().contains(ret as usize) && final(kernel).current == old(
            kernel,
        ).current,
{
    let task = kernel.current.unwrap();
    let me = task.pid;
    let ghost kids = kernel.kids();
    let process = kernel.procs.slots[me].as_ref().unwrap();
    let n = process.children.len();
    let mut any = false;
    let mut found: Option<usize> = None;
    let mut k: usize = 0;
    while k < n && found.is_none()
        invariant
            kernel.wf(),
            kernel.current == Some(task),
            me == task.pid,
            kids == kernel.kids(),
            n == kids.len(),
            k <= n,
            any == (exists|j: int| 0 <= j < k && waits_for(pid, #[trigger] kids[j])),
            found is None ==> forall|j: int| 0 <= j < k ==> !kernel.zombie_child(pid, j),
            found matches Some(j) ==> kernel.zombie_child(pid, j as int),
        decreases n - k,
    {
        let process = kernel.procs.slots[me].as_ref().unwrap();
        let child = process.children[k];
        assert(child == kids[k as int]);
        assert(live(kernel.procs@, child as int));
        if pid == -1 || (pid >= 0 && pid as usize == child) {
            any = true;
            let process = kernel.procs.slots[child].as_ref().unwrap();
            let zombie = process.status == ProcessStatus::Zombie;
            if zombie {
                found = Some(k);
            }
        }
        k += 1;
    }
    match found {
        None => {
            if any {
                -2
            } else {
                -1
            }
        },
        Some(idx) => {
            let process = kernel.procs.slots[me].as_mut().unwrap();
            let gone = process.children.remove(idx);
            assert(gone == kids[idx as int]);
            let ghost old_procs = old(kernel).procs@;
            proof {
                assert(live(old_procs, gone as int));
                assert(old_procs[gone as int]->0.parent == Some(me));
                assert(old_procs[me as int]->0.wf());
                assert(old_procs[gone as int]->0.wf());
                assert(gone != me);
            }
            let zombie = kernel.procs.vacate(gone);
            match zombie {
                Some(process) => {
                    *exit_code = process.exit_code;
                },
                None => {},
            }
            proof {
                let after = kernel.procs@;
                let left = kids.remove(idx as int);
                assert(after[me as int]->0.children@ == left);
                assert forall|i: int, j: int| 0 <= i < left.len() && 0 <= j < left.len() && i != j implies left[i]
                    != left[j] by {
                    let oi = if i < idx { i } else { i + 1 };
                    let oj = if j < idx { j } else { j + 1 };
                    assert(left[i] == kids[oi]);
                    assert(left[j] == kids[oj]);
                }
                assert(left.no_duplicates());
                assert forall|i: int| 0 <= i < left.len() implies left[i] != gone by {
                    let oi = if i < idx { i } else { i + 1 };
                    assert(left[i] == kids[oi]);
                }
                assert(!left.contains(gone));
                assert(after[me as int]->0.wf());
                assert forall|p: int| live(after, p) implies (#[trigger] after[p])->0.wf() && after[p]->0.pid
                    == p by {
                    if p != me {
                        assert(old_procs[p]->0.wf());
                    }
                }
                assert forall|p: int, j: int|
                    live(after, p) && 0 <= j < after[p]->0.children@.len() implies {
                    let c = #[trigger] after[p]->0.children@[j];
                    live(after, c as int) && after[c as int]->0.parent == Some(p as usize)
                } by {
                    if p == me {
                        let oj = if j < idx { j } else { j + 1 };
                        assert(left[j] == kids[oj]);
                        let c = old_procs[p]->0.children@[oj];
                        assert(live(old_procs, c as int) && old_procs[c as int]->0.parent == Some(
                            p as usize,
                        ));
                    } else {
                        let c = old_procs[p]->0.children@[j];
                        assert(live(old_procs, c as int) && old_procs[c as int]->0.parent == Some(
                            p as usize,
                        ));
                    }
                }
                assert(table_wf(after));
                lemma_tasks_kept(old_procs, after);
                assert(old(kernel).zombie_child(pid, idx as int));
                assert(old(kernel).reaped(*kernel, idx as int));
            }
            gone as isize
        },
    }
}


impl Kernel {
    /// The processes that lose their parent when the caller's process
    /// exits: its children, unless it is the root process, which keeps them.
    pub open spec fn orphans(&self) -> Seq<usize> {
        handed_on(self.procs@, self.caller().pid)
    }

    /// `after` is what the exit of the caller's process with `exit_code`
    /// leads to. The process is a zombie with that exit code, without
    /// memory; its children have the root process as their parent and
    /// follow the root's own children; its tasks have left the ready queue
    /// and the timer; and the next ready task runs.
    pub open spec fn exited(&self, after: Kernel, exit_code: i32) -> bool {
        let pid = self.caller_pid();
        let orphans = self.orphans();
        let queue = self.manager@.filter(not_of(pid as usize));
        &&& after.procs@.len() == self.procs@.len()
        &&& forall|p: int|
            0 <= p < self.procs@.len() && p != pid && p != ROOT_PID && !orphans.contains(p as usize)
                ==> after.procs@[p] == self.procs@[p]
        &&& after.procs@[pid] is Some
        &&& self.proc(pid).exited(after.proc(pid), exit_code, pid == ROOT_PID)
        &&& forall|k: int|
            0 <= k < orphans.len() ==> after.procs@[(#[trigger] orphans[k]) as int] is Some
                && self.proc(orphans[k] as int).reparented(after.proc(orphans[k] as int), ROOT_PID)
        &&& pid != ROOT_PID ==> after.procs@[ROOT_PID as int] is Some && self.proc(
            ROOT_PID as int,
        ).with_children(
            after.proc(ROOT_PID as int),
            self.proc(ROOT_PID as int).children@ + orphans,
        )
        &&& after.current == picked(queue)
        &&& after.manager@ == rest(queue)
        &&& after.sleepers@ == self.sleepers@.filter(sleeper_not_of(pid as usize))
        &&& after.clock_us == self.clock_us
    }
}

/// The children that a process hands on when it exits: its own, unless it
/// is the root process.
pub open spec fn handed_on(procs: Seq<Option<ProcessControlBlock>>, pid: usize) -> Seq<usize> {
    if pid == ROOT_PID {
        Seq::<usize>::empty()
    } else {
        procs[pid as int]->0.children@
    }
}

/// The process table after process `pid` has exited and handed its
/// children on is well formed, and the tasks of the other running
/// processes are still threads of running processes.
proof fn lemma_exit_table(
    before: Seq<Option<ProcessControlBlock>>,
    after: Seq<Option<ProcessControlBlock>>,
    pid: usize,
    exit_code: i32,
)
    requires
        table_wf(before),
        live(before, pid as int),
        after.len() == before.len(),
        forall|p: int|
            0 <= p < before.len() && p != pid && p != ROOT_PID && !handed_on(before, pid).contains(
                p as usize,
            ) ==> after[p] == before[p],
        forall|k: int|
            0 <= k < handed_on(before, pid).len() ==> after[(#[trigger] handed_on(before, pid)[k]) as int] is Some
                && before[handed_on(before, pid)[k] as int]->0.reparented(
                after[handed_on(before, pid)[k] as int]->0,
                ROOT_PID,
            ),
        after[pid as int] is Some,
        before[pid as int]->0.exited(after[pid as int]->0, exit_code, pid == ROOT_PID),
        after[pid as int]->0.memory_set.wf(),
        pid != ROOT_PID ==> after[ROOT_PID as int] is Some && before[ROOT_PID as int]->0.with_children(
            after[ROOT_PID as int]->0,
            before[ROOT_PID as int]->0.children@ + handed_on(before, pid),
        ),
    ensures
        table_wf(after),
        forall|task: TaskControlBlock|
            #[trigger] runs_in(before, task) && task.pid != pid ==> runs_in(after, task),
{
    let orphans = handed_on(before, pid);
    let root_kids = before[ROOT_PID as int]->0.children@;
    assert(before[pid as int]->0.wf());
    assert(before[ROOT_PID as int]->0.wf());
    assert forall|k: int| 0 <= k < orphans.len() implies live(before, (#[trigger] orphans[k]) as int)
        && before[orphans[k] as int]->0.parent == Some(pid) && orphans[k] != pid && orphans[k]
        != ROOT_PID by {
        let c = before[pid as int]->0.children@[k];
        assert(before[c as int]->0.wf());
    }
    if pid != ROOT_PID {
        let all = root_kids + orphans;
        assert forall|a: int, b: int| 0 <= a < all.len() && 0 <= b < all.len() && a != b implies all[a]
            != all[b] by {
            if a < root_kids.len() && b >= root_kids.len() {
                let c = before[ROOT_PID as int]->0.children@[a];
                assert(before[c as int]->0.parent == Some(ROOT_PID));
                let d = orphans[b - root_kids.len()];
            } else if b < root_kids.len() && a >= root_kids.len() {
                let c = before[ROOT_PID as int]->0.children@[b];
                assert(before[c as int]->0.parent == Some(ROOT_PID));
                let d = orphans[a - root_kids.len()];
            } else if a >= root_kids.len() {
                let c = orphans[a - root_kids.len()];
                let d = orphans[b - root_kids.len()];
            }
        }
        assert(all.no_duplicates());
    }
    assert forall|p: int| live(after, p) implies live(before, p) by {
        if orphans.contains(p as usize) {
            let k = choose|k: int| 0 <= k < orphans.len() && orphans[k] == p as usize;
            assert(live(before, orphans[k] as int));
        }
    }
    assert forall|p: int| live(after, p) implies (#[trigger] after[p])->0.wf() && after[p]->0.pid
        == p by {
        assert(before[p]->0.wf());
        if p != pid && orphans.contains(p as usize) {
            let k = choose|k: int| 0 <= k < orphans.len() && orphans[k] == p as usize;
            assert(before[orphans[k] as int]->0.reparented(after[orphans[k] as int]->0, ROOT_PID));
        }
    }
    assert forall|p: int, j: int|
        live(after, p) && 0 <= j < after[p]->0.children@.len() implies {
        let c = #[trigger] after[p]->0.children@[j];
        live(after, c as int) && after[c as int]->0.parent == Some(p as usize)
    } by {
        let c = after[p]->0.children@[j];
        if p == ROOT_PID && pid != ROOT_PID && j >= root_kids.len() {
            let k = j - root_kids.len();
            assert(c == orphans[k]);
            assert(after[orphans[k] as int] is Some);
        } else {
            if orphans.contains(p as usize) {
                let k = choose|k: int| 0 <= k < orphans.len() && orphans[k] == p as usize;
                assert(before[orphans[k] as int]->0.reparented(
                    after[orphans[k] as int]->0,
                    ROOT_PID,
                ));
            }
            assert(c == before[p]->0.children@[j]);
            let d = before[p]->0.children@[j];
            assert(live(before, d as int) && before[d as int]->0.parent == Some(p as usize));
            if orphans.contains(c) {
                let k = choose|k: int| 0 <= k < orphans.len() && orphans[k] == c;
                assert(before[orphans[k] as int]->0.parent == Some(pid));
            }
        }
    }
    assert forall|task: TaskControlBlock|
        #[trigger] runs_in(before, task) && task.pid != pid implies runs_in(after, task) by {
        let p = task.pid as int;
        if orphans.contains(p as usize) {
            let k = choose|k: int| 0 <= k < orphans.len() && orphans[k] == p as usize;
            assert(before[orphans[k] as int]->0.reparented(after[orphans[k] as int]->0, ROOT_PID));
        }
    }
}

/// A ready queue without the tasks of a process that has exited is a ready
/// queue of the processes that are left.
proof fn lemma_queue_without(
    before: Seq<Option<ProcessControlBlock>>,
    after: Seq<Option<ProcessControlBlock>>,
    queue: Seq<TaskControlBlock>,
    pid: usize,
)
    requires
        queue_wf(before, queue),
        forall|task: TaskControlBlock|
            #[trigger] runs_in(before, task) && task.pid != pid ==> runs_in(after, task),
    ensures
        queue_wf(after, queue.filter(not_of(pid))),
{
    let left = queue.filter(not_of(pid));
    assert forall|j: int| 0 <= j < left.len() implies runs_in(after, #[trigger] left[j])
        && left[j].status == TaskStatus::Ready by {
        queue.lemma_filter_pred(not_of(pid), j);
        queue.lemma_filter_contains_rev(not_of(pid), left[j]);
        let t = left[j];
        assert(left.contains(t));
        let o = choose|o: int| 0 <= o < queue.len() && queue[o] == t;
        assert(runs_in(before, queue[o]));
        assert(not_of(pid)(t));
    }
}

/// The sleepers without those of a process that has exited are sleepers
/// of the processes that are left.
proof fn lemma_sleepers_without(
    before: Seq<Option<ProcessControlBlock>>,
    after: Seq<Option<ProcessControlBlock>>,
    sleepers: Seq<Sleeper>,
    pid: usize,
)
    requires
        sleepers_wf(before, sleepers),
        forall|task: TaskControlBlock|
            #[trigger] runs_in(before, task) && task.pid != pid ==> runs_in(after, task),
    ensures
        sleepers_wf(after, sleepers.filter(sleeper_not_of(pid))),
{
    let left = sleepers.filter(sleeper_not_of(pid));
    assert forall|j: int| 0 <= j < left.len() implies runs_in(after, (#[trigger] left[j]).task)
        && left[j].task.status == TaskStatus::Blocked by {
        sleepers.lemma_filter_pred(sleeper_not_of(pid), j);
        sleepers.lemma_filter_contains_rev(sleeper_not_of(pid), left[j]);
        let s = left[j];
        assert(left.contains(s));
        let o = choose|o: int| 0 <= o < sleepers.len() && sleepers[o] == s;
        assert(runs_in(before, sleepers[o].task));
        assert(sleeper_not_of(pid)(s));
    }
}

/// The caller's process exits with `exit_code` (see [`Kernel::exited`]).
/// The caller does not run again.
pub fn sys_exit(kernel: &mut Kernel, exit_code: i32)
    requires
        old(kernel).wf(),
        old(kernel).current is Some,
    ensures
        final(kernel).wf(),
        old(kernel).exited(*final(kernel), exit_code),
{
    let task = kernel.current.unwrap();
    let pid = task.pid;
    let ghost before = old(kernel).procs@;
    let ghost orphans = old(kernel).orphans();
    let mut leaving: Vec<usize> = Vec::new();
    let process = kernel.procs.slots[pid].as_mut().unwrap();
    process.status = ProcessStatus::Zombie;
    process.exit_code = exit_code;
    process.memory_set.recycle();
    if pid != ROOT_PID {
        core::mem::swap(&mut process.children, &mut leaving);
    }
    assert(leaving@ == orphans);
    proof {
        assert(before[pid as int]->0.wf());
        assert(before[ROOT_PID as int]->0.wf());
        assert forall|k: int| 0 <= k < orphans.len() implies live(before, (#[trigger] orphans[k]) as int)
            && before[orphans[k] as int]->0.parent == Some(pid) && orphans[k] != pid && orphans[k]
            != ROOT_PID by {
            let c = before[pid as int]->0.children@[k];
            assert(before[c as int]->0.wf());
        }
    }
    let n = leaving.len();
    let mut i: usize = 0;
    while i < n
        invariant
            table_wf(before),
            live(before, pid as int),
            pid != ROOT_PID || n == 0,
            n == orphans.len(),
            leaving@ == orphans,
            orphans.no_duplicates(),
            i <= n,
            forall|k: int|
                0 <= k < orphans.len() ==> live(before, (#[trigger] orphans[k]) as int) && before[orphans[k] as int]->0.parent
                    == Some(pid) && orphans[k] != pid && orphans[k] != ROOT_PID,
            kernel.procs@.len() == before.len(),
            forall|p: int|
                0 <= p < before.len() && p != pid && p != ROOT_PID && !orphans.contains(p as usize)
                    ==> kernel.procs@[p] == before[p],
            forall|k: int|
                i <= k < orphans.len() ==> kernel.procs@[(#[trigger] orphans[k]) as int] == before[orphans[k] as int],
            forall|k: int|
                0 <= k < i ==> kernel.procs@[(#[trigger] orphans[k]) as int] is Some && before[orphans[k] as int]->0.reparented(
                    kernel.procs@[orphans[k] as int]->0,
                    ROOT_PID,
                ),
            kernel.procs@[pid as int] is Some,
            before[pid as int]->0.exited(kernel.procs@[pid as int]->0, exit_code, pid == ROOT_PID),
            kernel.procs@[pid as int]->0.memory_set.wf(),
            pid != ROOT_PID ==> kernel.procs@[ROOT_PID as int] is Some && before[ROOT_PID as int]->0.with_children(
                kernel.procs@[ROOT_PID as int]->0,
                before[ROOT_PID as int]->0.children@ + orphans.take(i as int),
            ),
            kernel.manager == old(kernel).manager,
            kernel.sleepers == old(kernel).sleepers,
            kernel.clock_us == old(kernel).clock_us,
        decreases n - i,
    {
        let child = leaving[i];
        assert(child == orphans[i as int]);
        let ghost mid = kernel.procs@;
        let process = kernel.procs.slots[child].as_mut().unwrap();
        process.parent = Some(ROOT_PID);
        let root = kernel.procs.slots[ROOT_PID].as_mut().unwrap();
        root.children.push(child);
        proof {
            assert(orphans.take(i as int).push(child) =~= orphans.take(i as int + 1));
            assert(before[ROOT_PID as int]->0.children@ + orphans.take(i as int + 1)
                =~= (before[ROOT_PID as int]->0.children@ + orphans.take(i as int)).push(child));
            assert forall|k: int| i + 1 <= k < orphans.len() implies kernel.procs@[(
            #[trigger] orphans[k]) as int] == before[orphans[k] as int] by {
                assert(orphans[k] != child);
                assert(mid[orphans[k] as int] == before[orphans[k] as int]);
            }
            assert forall|k: int| 0 <= k < i + 1 implies kernel.procs@[(#[trigger] orphans[k]) as int] is Some
                && before[orphans[k] as int]->0.reparented(
                kernel.procs@[orphans[k] as int]->0,
                ROOT_PID,
            ) by {
                if k < i {
                    assert(orphans[k] != child);
                    assert(mid[orphans[k] as int] is Some);
                }
            }
        }
        i += 1;
    }
    assert(orphans.take(n as int) =~= orphans);
    kernel.manager.remove_process(pid);
    kernel.sleepers = sleepers_without(&kernel.sleepers, pid);
    kernel.current = None;
    proof {
        lemma_exit_table(before, kernel.procs@, pid, exit_code);
        lemma_queue_without(before, kernel.procs@, old(kernel).manager@, pid);
        lemma_sleepers_without(before, kernel.procs@, old(kernel).sleepers@, pid);
    }
    kernel.run_next();
}


impl Kernel {
    /// A child is collected once: where `after` is `self` without the
    /// `k`th child of the caller's process, no wait in `after`, whatever it
    /// waits for, can take that child again.
    pub proof fn lemma_collected_once(&self, after: Kernel, k: int, target: isize, again: int)
        requires
            self.wf(),
            self.current is Some,
            0 <= k < self.kids().len(),
            self.reaped(after, k),
            after.zombie_child(target, again),
        ensures
            after.kids()[again] != self.kids()[k],
    {
        let kids = self.kids();
        let pid = self.caller_pid();
        assert(self.procs@[pid]->0.wf());
        assert(after.kids() == kids.remove(k));
        let at = if again < k {
            again
        } else {
            again + 1
        };
        assert(after.kids()[again] == kids[at]);
    }
}

/// Mapping a range and unmapping it again leaves it free: where a range can
/// be mapped into `before`, `mapped` is `before` with the range mapped and
/// `unmapped` is `mapped` without it, the range can be unmapped from
/// `mapped` and can be mapped into `unmapped` once more.
pub proof fn lemma_mmap_munmap_mmap(
    before: MemorySet,
    mapped: MemorySet,
    unmapped: MemorySet,
    start: usize,
    len: usize,
    port: usize,
)
    requires
        can_mmap(before, start, len, port),
        mapped@ == before@.union_prefer_right(
            Map::new(
                |vpn: int| page_floor(start as int) <= vpn < page_ceil(start + len),
                |vpn: int| port_permission(port),
            ),
        ),
        mapped.heap_bottom == before.heap_bottom,
        mapped.program_brk == before.program_brk,
        unmapped@ == mapped@.remove_keys(
            page_range(page_floor(start as int), page_ceil(start + len)),
        ),
        unmapped.heap_bottom == before.heap_bottom,
        unmapped.program_brk == before.program_brk,
    ensures
        can_munmap(mapped, start, len),
        can_mmap(unmapped, start, len, port),
        unmapped@ == before@,
{
    before.lemma_map_unmap_frees(
        mapped,
        unmapped,
        page_floor(start as int),
        page_ceil(start + len),
        port_permission(port),
    );
}

} // verus!
