use kernel_core::config::{BIG_STRIDE, MAX_SYSCALL_NUM, ROOT_PID};
use kernel_core::kernel::Kernel;
use kernel_core::mm::{MapArea, MapPermission, MemorySet};
use kernel_core::syscall::process::{
    sys_exec, sys_exit, sys_fork, sys_get_time, sys_getpid, sys_mmap, sys_munmap, sys_sbrk,
    sys_set_priority, sys_spawn, sys_task_info, sys_waitpid, sys_yield, TaskInfo, TimeVal,
};
use kernel_core::syscall::sync::{
    sys_condvar_create, sys_enable_deadlock_detect, sys_mutex_create, sys_mutex_lock,
    sys_mutex_unlock, sys_semaphore_create, sys_semaphore_down, sys_sleep,
};
use kernel_core::syscall::thread::sys_thread_create;
use kernel_core::task::process::{AppImage, ProcessStatus};
use kernel_core::task::TaskStatus;

fn image(heap: usize) -> AppImage {
    AppImage { memory_set: MemorySet::new(heap), entry: 0x1000, user_sp: 0x8000 }
}

fn boot() -> Kernel {
    let mut k = Kernel::new(image(0x10000), 0);
    k.run_next();
    k
}

fn pid(k: &Kernel) -> usize {
    k.current.as_ref().unwrap().pid
}

/// Gives the processor to a task of process `want` by yielding until one runs.
fn switch_to(k: &mut Kernel, want: usize) {
    for _ in 0..32 {
        if pid(k) == want {
            return;
        }
        assert_eq!(sys_yield(k), 0);
    }
    panic!("process {} never ran", want);
}

#[test]
fn boot_makes_the_root_process_ready() {
    let k = Kernel::new(image(0x10000), 7_000);
    assert!(k.current.is_none());
    assert!(!k.has_current());
    assert_eq!(k.manager.len(), 1);
    assert_eq!(k.procs.len(), 1);
    assert_eq!(k.clock_us, 7_000);
    assert_eq!(k.now_ms(), 7);
    let t = k.manager.ready_queue[0];
    assert_eq!((t.pid, t.tid), (ROOT_PID, 0));
    assert_eq!(t.start_time, 7);
    let p = k.procs.slots[0].as_ref().unwrap();
    assert_eq!(p.pid, 0);
    assert!(p.parent.is_none());
    assert_eq!(p.status, ProcessStatus::Running);
    assert_eq!(p.thread_count, 1);
}

#[test]
fn run_next_puts_the_task_on_the_processor() {
    let mut k = Kernel::new(image(0x10000), 0);
    k.run_next();
    assert!(k.has_current());
    let t = k.current.unwrap();
    assert_eq!(t.status, TaskStatus::Running);
    assert_eq!(t.stride, BIG_STRIDE / 16);
    assert_eq!(k.manager.len(), 0);
}

#[test]
fn getpid_gives_the_process_id() {
    let mut k = boot();
    assert_eq!(sys_getpid(&k), 0);
    assert_eq!(sys_fork(&mut k), 1);
    switch_to(&mut k, 1);
    assert_eq!(sys_getpid(&k), 1);
}

#[test]
fn yield_with_nobody_else_keeps_the_caller() {
    let mut k = boot();
    let before = k.current.unwrap().stride;
    assert_eq!(sys_yield(&mut k), 0);
    let t = k.current.unwrap();
    assert_eq!(t.pid, 0);
    assert_eq!(t.status, TaskStatus::Running);
    assert_eq!(t.stride, before + t.pass);
}

#[test]
fn yield_alternates_between_equal_tasks() {
    let mut k = boot();
    sys_thread_create(&mut k, 0x2000, 0, 0x9000);
    let mut seen = Vec::new();
    for _ in 0..6 {
        sys_yield(&mut k);
        seen.push(k.current.unwrap().tid);
    }
    assert_eq!(seen, vec![1, 0, 1, 0, 1, 0]);
}

#[test]
fn set_priority_checks_the_lower_bound() {
    let mut k = boot();
    let before = k.current.unwrap();
    assert_eq!(sys_set_priority(&mut k, 1), -1);
    assert_eq!(sys_set_priority(&mut k, 0), -1);
    assert_eq!(sys_set_priority(&mut k, -5), -1);
    assert_eq!(sys_set_priority(&mut k, isize::MIN), -1);
    let t = k.current.unwrap();
    assert_eq!(t.priority, before.priority);
    assert_eq!(t.pass, before.pass);
    assert_eq!(sys_set_priority(&mut k, 2), 2);
    let t = k.current.unwrap();
    assert_eq!(t.priority, 2);
    assert_eq!(t.pass, BIG_STRIDE / 2);
    assert_eq!(t.pass, 524288);
    assert_eq!(t.stride, before.stride);
}

#[test]
fn set_priority_changes_the_pass_not_the_stride() {
    let mut k = boot();
    let stride = k.current.unwrap().stride;
    assert_eq!(sys_set_priority(&mut k, 64), 64);
    let t = k.current.unwrap();
    assert_eq!(t.stride, stride);
    assert_eq!(t.pass, BIG_STRIDE / 64);
    sys_yield(&mut k);
    assert_eq!(k.current.unwrap().stride, stride + BIG_STRIDE / 64);
    assert_eq!(sys_set_priority(&mut k, isize::MAX), isize::MAX);
    assert_eq!(k.current.unwrap().pass, 0);
}

#[test]
fn get_time_splits_seconds_and_microseconds() {
    let mut k = boot();
    k.set_clock(3_000_456);
    let mut ts = TimeVal { sec: 9, usec: 9 };
    assert_eq!(sys_get_time(&k, &mut ts, 0), 0);
    assert_eq!((ts.sec, ts.usec), (3, 456));
    k.set_clock(999_999);
    assert_eq!(sys_get_time(&k, &mut ts, 5), 0);
    assert_eq!((ts.sec, ts.usec), (0, 999_999));
    k.set_clock(0);
    sys_get_time(&k, &mut ts, 0);
    assert_eq!((ts.sec, ts.usec), (0, 0));
}

#[test]
fn task_info_reports_status_counts_and_time() {
    let mut k = Kernel::new(image(0x10000), 2_000_000);
    k.run_next();
    k.record_syscall(64);
    k.record_syscall(64);
    k.record_syscall(93);
    k.record_syscall(MAX_SYSCALL_NUM);
    k.record_syscall(usize::MAX);
    k.set_clock(2_750_999);
    let mut ti = TaskInfo { status: TaskStatus::Blocked, syscall_times: [7; MAX_SYSCALL_NUM], time: 1 };
    assert_eq!(sys_task_info(&k, &mut ti), 0);
    assert_eq!(ti.status, TaskStatus::Running);
    assert_eq!(ti.time, 750);
    assert_eq!(ti.syscall_times[64], 2);
    assert_eq!(ti.syscall_times[93], 1);
    assert_eq!(ti.syscall_times.iter().map(|c| *c as usize).sum::<usize>(), 3);
    k.set_clock(1_000_000);
    sys_task_info(&k, &mut ti);
    assert_eq!(ti.time, 0);
}

#[test]
fn syscall_count_stops_at_its_largest_value() {
    let mut k = boot();
    let mut t = k.current.unwrap();
    t.syscall_times[3] = u32::MAX;
    k.current = Some(t);
    k.record_syscall(3);
    assert_eq!(k.current.unwrap().syscall_times[3], u32::MAX);
}

#[test]
fn mmap_checks_its_arguments() {
    let mut k = boot();
    assert_eq!(sys_mmap(&mut k, 0x20001, 4096, 3), -1);
    assert_eq!(sys_mmap(&mut k, 0x20000, 4096, 0), -1);
    assert_eq!(sys_mmap(&mut k, 0x20000, 4096, 8), -1);
    assert_eq!(sys_mmap(&mut k, 0x20000, 4096, 0x13), -1);
    assert_eq!(sys_mmap(&mut k, 0x20000, 4096, usize::MAX), -1);
    assert_eq!(sys_mmap(&mut k, usize::MAX - 4095, 4097, 3), -1);
    assert!(k.procs.slots[0].as_ref().unwrap().memory_set.areas.is_empty());
}

#[test]
fn mmap_maps_whole_pages_with_the_permissions_asked_for() {
    let mut k = boot();
    assert_eq!(sys_mmap(&mut k, 0x20000, 4097, 0x3), 0);
    assert_eq!(sys_mmap(&mut k, 0x30000, 1, 0x4), 0);
    assert_eq!(sys_mmap(&mut k, 0x40000, 4096, 0x7), 0);
    assert_eq!(sys_mmap(&mut k, 0x50000, 4096, 0x1), 0);
    let ms = &k.procs.slots[0].as_ref().unwrap().memory_set;
    assert_eq!(ms.areas.len(), 4);
    assert_eq!((ms.areas[0].start_vpn, ms.areas[0].end_vpn), (0x20, 0x22));
    assert_eq!(
        ms.areas[0].perm,
        MapPermission { readable: true, writable: true, executable: false, user: true }
    );
    assert_eq!((ms.areas[1].start_vpn, ms.areas[1].end_vpn), (0x30, 0x31));
    assert_eq!(
        ms.areas[1].perm,
        MapPermission { readable: false, writable: false, executable: true, user: true }
    );
    assert_eq!(
        ms.areas[2].perm,
        MapPermission { readable: true, writable: true, executable: true, user: true }
    );
    assert_eq!(
        ms.areas[3].perm,
        MapPermission { readable: true, writable: false, executable: false, user: true }
    );
}

#[test]
fn mmap_refuses_pages_that_are_taken() {
    let mut k = boot();
    assert_eq!(sys_mmap(&mut k, 0x20000, 2 * 4096, 3), 0);
    assert_eq!(sys_mmap(&mut k, 0x20000, 4096, 3), -1);
    assert_eq!(sys_mmap(&mut k, 0x21000, 4096, 1), -1);
    assert_eq!(sys_mmap(&mut k, 0x1f000, 4097, 1), -1);
    assert_eq!(sys_mmap(&mut k, 0x1f000, 4096, 1), 0);
    assert_eq!(sys_mmap(&mut k, 0x22000, 4096, 1), 0);
    assert_eq!(sys_sbrk(&mut k, 1), 0x10000);
    assert_eq!(sys_mmap(&mut k, 0x10000, 1, 1), -1);
    assert_eq!(sys_mmap(&mut k, 0x11000, 1, 1), 0);
}

#[test]
fn mmap_of_nothing_succeeds_and_maps_nothing() {
    let mut k = boot();
    assert_eq!(sys_mmap(&mut k, 0x20000, 0, 1), 0);
    assert!(k.procs.slots[0].as_ref().unwrap().memory_set.areas.is_empty());
}

#[test]
fn munmap_checks_alignment_and_coverage() {
    let mut k = boot();
    assert_eq!(sys_mmap(&mut k, 0x20000, 3 * 4096, 3), 0);
    assert_eq!(sys_munmap(&mut k, 0x20001, 4096), -1);
    assert_eq!(sys_munmap(&mut k, 0x1f000, 4096), -1);
    assert_eq!(sys_munmap(&mut k, 0x22000, 4097), -1);
    assert_eq!(sys_munmap(&mut k, usize::MAX - 4095, 4097), -1);
    assert_eq!(k.procs.slots[0].as_ref().unwrap().memory_set.areas.len(), 1);
    assert_eq!(sys_munmap(&mut k, 0x21000, 4096), 0);
    let ms = &k.procs.slots[0].as_ref().unwrap().memory_set;
    let mut r: Vec<(usize, usize)> = ms.areas.iter().map(|a| (a.start_vpn, a.end_vpn)).collect();
    r.sort();
    assert_eq!(r, vec![(0x20, 0x21), (0x22, 0x23)]);
    assert_eq!(sys_munmap(&mut k, 0x21000, 4096), -1);
}

#[test]
fn mmap_munmap_mmap_of_the_same_range() {
    let mut k = boot();
    for (start, len) in [(0x20000usize, 4096usize), (0x40000, 5 * 4096 + 17), (0x80000, 1)] {
        assert_eq!(sys_mmap(&mut k, start, len, 3), 0);
        assert_eq!(sys_mmap(&mut k, start, len, 3), -1);
        assert_eq!(sys_munmap(&mut k, start, len), 0);
        assert_eq!(sys_mmap(&mut k, start, len, 5), 0);
        assert_eq!(sys_munmap(&mut k, start, len), 0);
        assert!(k.procs.slots[0].as_ref().unwrap().memory_set.areas.is_empty());
    }
}

#[test]
fn sbrk_returns_the_previous_break() {
    let mut k = boot();
    assert_eq!(sys_sbrk(&mut k, 0), 0x10000);
    assert_eq!(sys_sbrk(&mut k, 4096), 0x10000);
    assert_eq!(sys_sbrk(&mut k, -96), 0x11000);
    assert_eq!(sys_sbrk(&mut k, 0), 0x11000 - 96);
    assert_eq!(sys_sbrk(&mut k, -(0x1000 - 96 + 1)), -1);
    assert_eq!(sys_sbrk(&mut k, -(0x1000 - 96)), 0x11000 - 96);
    assert_eq!(sys_sbrk(&mut k, 0), 0x10000);
    assert_eq!(sys_sbrk(&mut k, -1), -1);
    assert_eq!(sys_sbrk(&mut k, i32::MIN), -1);
}

#[test]
fn sbrk_cannot_grow_into_a_mapping() {
    let mut k = boot();
    assert_eq!(sys_mmap(&mut k, 0x12000, 4096, 3), 0);
    assert_eq!(sys_sbrk(&mut k, 0x2000), 0x10000);
    assert_eq!(sys_sbrk(&mut k, 1), -1);
    assert_eq!(sys_sbrk(&mut k, 0), 0x12000);
}

#[test]
fn fork_copies_the_caller_into_a_new_process() {
    let mut k = boot();
    sys_mmap(&mut k, 0x20000, 4096, 3);
    sys_sbrk(&mut k, 100);
    sys_set_priority(&mut k, 4);
    sys_mutex_create(&mut k, true);
    let mut me = k.current.unwrap();
    me.trap_cx.a0 = 0xABC;
    k.current = Some(me);
    assert_eq!(sys_fork(&mut k), 1);
    assert_eq!(pid(&k), 0);
    assert_eq!(k.current.unwrap().trap_cx.a0, 0xABC);
    assert_eq!(k.procs.len(), 2);
    let parent = k.procs.slots[0].as_ref().unwrap();
    assert_eq!(parent.children, vec![1]);
    let child = k.procs.slots[1].as_ref().unwrap();
    assert_eq!(child.pid, 1);
    assert_eq!(child.parent, Some(0));
    assert!(child.children.is_empty());
    assert_eq!(child.status, ProcessStatus::Running);
    assert_eq!(child.thread_count, 1);
    assert_eq!(child.memory_set.areas.len(), 1);
    assert_eq!(child.memory_set.areas[0].start_vpn, 0x20);
    assert_eq!(child.memory_set.program_brk, 0x10000 + 100);
    assert_eq!(child.mutexes.slots.len(), 1);
    assert!(!child.mutexes.slots.slots[0].as_ref().unwrap().busy_wait);
    assert_eq!(child.mutexes.ledger.work, vec![1]);
    assert_eq!(child.mutexes.owner, 1);
    assert_eq!(k.manager.len(), 1);
    let t = k.manager.ready_queue[0];
    assert_eq!((t.pid, t.tid), (1, 0));
    assert_eq!(t.trap_cx.a0, 0);
    assert_eq!(t.trap_cx.sepc, me.trap_cx.sepc);
    assert_eq!(t.status, TaskStatus::Ready);
    assert_eq!(t.priority, 4);
    assert_eq!(t.pass, me.pass);
    assert_eq!(t.stride, me.stride);
}

#[test]
fn fork_gives_the_lowest_free_process_id() {
    let mut k = boot();
    assert_eq!(sys_fork(&mut k), 1);
    assert_eq!(sys_fork(&mut k), 2);
    assert_eq!(sys_fork(&mut k), 3);
    switch_to(&mut k, 2);
    sys_exit(&mut k, 5);
    switch_to(&mut k, 0);
    let mut code = 0;
    assert_eq!(sys_waitpid(&mut k, 2, &mut code), 2);
    assert_eq!(code, 5);
    assert_eq!(sys_fork(&mut k), 2);
    assert_eq!(sys_fork(&mut k), 4);
    assert_eq!(k.procs.slots[0].as_ref().unwrap().children, vec![1, 3, 2, 4]);
}

#[test]
fn child_memory_is_its_own() {
    let mut k = boot();
    sys_mmap(&mut k, 0x20000, 4096, 3);
    assert_eq!(sys_fork(&mut k), 1);
    assert_eq!(sys_munmap(&mut k, 0x20000, 4096), 0);
    assert_eq!(k.procs.slots[1].as_ref().unwrap().memory_set.areas.len(), 1);
    switch_to(&mut k, 1);
    assert_eq!(sys_mmap(&mut k, 0x20000, 4096, 3), -1);
    assert_eq!(sys_munmap(&mut k, 0x20000, 4096), 0);
}

#[test]
fn exec_without_an_image_fails_and_changes_nothing() {
    let mut k = boot();
    sys_mmap(&mut k, 0x20000, 4096, 3);
    let before = k.current.unwrap();
    assert_eq!(sys_exec(&mut k, None), -1);
    let t = k.current.unwrap();
    assert_eq!(t.trap_cx.sepc, before.trap_cx.sepc);
    assert_eq!(k.procs.slots[0].as_ref().unwrap().memory_set.areas.len(), 1);
}

#[test]
fn exec_replaces_memory_and_entry_and_keeps_the_relatives() {
    let mut k = boot();
    assert_eq!(sys_fork(&mut k), 1);
    switch_to(&mut k, 1);
    assert_eq!(sys_fork(&mut k), 2);
    sys_mmap(&mut k, 0x20000, 4096, 3);
    let mut ms = MemorySet::new(0x90000);
    ms.insert_framed_area(0x50, 0x60, MapPermission { readable: true, writable: false, executable: true, user: true });
    let img = AppImage { memory_set: ms, entry: 0x50000, user_sp: 0x7000 };
    assert_eq!(sys_exec(&mut k, Some(img)), 0);
    let t = k.current.unwrap();
    assert_eq!((t.pid, t.tid), (1, 0));
    assert_eq!((t.trap_cx.sepc, t.trap_cx.sp, t.trap_cx.a0), (0x50000, 0x7000, 0));
    let p = k.procs.slots[1].as_ref().unwrap();
    assert_eq!(p.pid, 1);
    assert_eq!(p.parent, Some(0));
    assert_eq!(p.children, vec![2]);
    assert_eq!(p.memory_set.areas.len(), 1);
    assert_eq!(p.memory_set.areas[0].start_vpn, 0x50);
    assert_eq!(p.memory_set.heap_bottom, 0x90000);
}

#[test]
fn spawn_without_an_image_fails() {
    let mut k = boot();
    assert_eq!(sys_spawn(&mut k, None), -1);
    assert_eq!(k.procs.len(), 1);
    assert_eq!(k.manager.len(), 0);
    assert!(k.procs.slots[0].as_ref().unwrap().children.is_empty());
}

#[test]
fn spawn_makes_a_child_from_the_image() {
    let mut k = boot();
    k.set_clock(9_000);
    sys_set_priority(&mut k, 3);
    let img = AppImage { memory_set: MemorySet::new(0x70000), entry: 0x4000, user_sp: 0x6000 };
    assert_eq!(sys_spawn(&mut k, Some(img)), 1);
    let child = k.procs.slots[1].as_ref().unwrap();
    assert_eq!(child.parent, Some(0));
    assert_eq!(child.memory_set.heap_bottom, 0x70000);
    assert_eq!(k.procs.slots[0].as_ref().unwrap().children, vec![1]);
    let t = k.manager.ready_queue[0];
    assert_eq!((t.pid, t.tid), (1, 0));
    assert_eq!((t.trap_cx.sepc, t.trap_cx.sp, t.trap_cx.a0), (0x4000, 0x6000, 0));
    assert_eq!(t.priority, 16);
    assert_eq!(t.stride, 0);
    assert_eq!(t.start_time, 9);
    assert_eq!(t.status, TaskStatus::Ready);
}

#[test]
fn waitpid_without_children_gives_minus_one() {
    let mut k = boot();
    let mut code = 77;
    assert_eq!(sys_waitpid(&mut k, -1, &mut code), -1);
    assert_eq!(sys_waitpid(&mut k, 5, &mut code), -1);
    assert_eq!(code, 77);
}

#[test]
fn waitpid_for_a_running_child_gives_minus_two() {
    let mut k = boot();
    assert_eq!(sys_fork(&mut k), 1);
    let mut code = 77;
    assert_eq!(sys_waitpid(&mut k, -1, &mut code), -2);
    assert_eq!(sys_waitpid(&mut k, 1, &mut code), -2);
    assert_eq!(sys_waitpid(&mut k, 2, &mut code), -1);
    assert_eq!(sys_waitpid(&mut k, -2, &mut code), -1);
    assert_eq!(code, 77);
    assert_eq!(k.procs.slots[0].as_ref().unwrap().children, vec![1]);
}

#[test]
fn waitpid_collects_a_zombie_once() {
    let mut k = boot();
    assert_eq!(sys_fork(&mut k), 1);
    assert_eq!(sys_fork(&mut k), 2);
    switch_to(&mut k, 1);
    sys_exit(&mut k, -3);
    switch_to(&mut k, 0);
    let mut code = 0;
    assert_eq!(sys_waitpid(&mut k, -1, &mut code), 1);
    assert_eq!(code, -3);
    assert!(k.procs.slots[1].is_none());
    assert_eq!(k.procs.slots[0].as_ref().unwrap().children, vec![2]);
    code = 99;
    assert_eq!(sys_waitpid(&mut k, -1, &mut code), -2);
    assert_eq!(sys_waitpid(&mut k, 1, &mut code), -1);
    assert_eq!(code, 99);
    switch_to(&mut k, 2);
    sys_exit(&mut k, 4);
    assert_eq!(pid(&k), 0);
    assert_eq!(sys_waitpid(&mut k, -1, &mut code), 2);
    assert_eq!(code, 4);
    assert_eq!(sys_waitpid(&mut k, -1, &mut code), -1);
}

#[test]
fn waitpid_for_a_given_child_leaves_other_zombies() {
    let mut k = boot();
    sys_fork(&mut k);
    sys_fork(&mut k);
    switch_to(&mut k, 1);
    sys_exit(&mut k, 11);
    switch_to(&mut k, 2);
    sys_exit(&mut k, 22);
    assert_eq!(pid(&k), 0);
    let mut code = 0;
    assert_eq!(sys_waitpid(&mut k, 2, &mut code), 2);
    assert_eq!(code, 22);
    assert_eq!(k.procs.slots[0].as_ref().unwrap().children, vec![1]);
    assert_eq!(sys_waitpid(&mut k, 2, &mut code), -1);
    assert_eq!(sys_waitpid(&mut k, -1, &mut code), 1);
    assert_eq!(code, 11);
}

#[test]
fn exit_makes_a_zombie_and_runs_the_next_task() {
    let mut k = boot();
    sys_fork(&mut k);
    switch_to(&mut k, 1);
    sys_mmap(&mut k, 0x20000, 4096, 3);
    sys_sbrk(&mut k, 10);
    sys_exit(&mut k, 42);
    assert_eq!(pid(&k), 0);
    assert_eq!(k.manager.len(), 0);
    let z = k.procs.slots[1].as_ref().unwrap();
    assert_eq!(z.status, ProcessStatus::Zombie);
    assert_eq!(z.exit_code, 42);
    assert!(z.memory_set.areas.is_empty());
    assert_eq!(z.memory_set.program_brk, z.memory_set.heap_bottom);
    assert_eq!(z.parent, Some(0));
}

#[test]
fn exit_hands_the_children_to_the_root() {
    let mut k = boot();
    assert_eq!(sys_fork(&mut k), 1);
    assert_eq!(sys_fork(&mut k), 2);
    switch_to(&mut k, 1);
    assert_eq!(sys_fork(&mut k), 3);
    assert_eq!(sys_fork(&mut k), 4);
    sys_exit(&mut k, 0);
    assert_eq!(k.procs.slots[0].as_ref().unwrap().children, vec![1, 2, 3, 4]);
    assert!(k.procs.slots[1].as_ref().unwrap().children.is_empty());
    assert_eq!(k.procs.slots[3].as_ref().unwrap().parent, Some(0));
    assert_eq!(k.procs.slots[4].as_ref().unwrap().parent, Some(0));
    assert_eq!(k.procs.slots[2].as_ref().unwrap().parent, Some(0));
    assert_eq!(k.procs.slots[3].as_ref().unwrap().status, ProcessStatus::Running);
    switch_to(&mut k, 3);
    sys_exit(&mut k, 8);
    switch_to(&mut k, 0);
    let mut code = 0;
    assert_eq!(sys_waitpid(&mut k, 3, &mut code), 3);
    assert_eq!(code, 8);
}

#[test]
fn exit_takes_all_threads_of_the_process_away() {
    let mut k = boot();
    sys_fork(&mut k);
    switch_to(&mut k, 1);
    sys_thread_create(&mut k, 0x2000, 0, 0x9000);
    sys_thread_create(&mut k, 0x3000, 0, 0x9000);
    sys_yield(&mut k);
    while !(pid(&k) == 1 && k.current.unwrap().tid == 1) {
        sys_yield(&mut k);
    }
    k.set_clock(0);
    sys_sleep(&mut k, 1000);
    while !(pid(&k) == 1) {
        sys_yield(&mut k);
    }
    sys_exit(&mut k, 1);
    assert_eq!(pid(&k), 0);
    assert_eq!(k.manager.len(), 0);
    assert!(k.sleepers.is_empty());
    k.set_clock(10_000_000);
    k.check_timer();
    assert_eq!(k.manager.len(), 0);
}

#[test]
fn exit_of_the_last_task_leaves_the_processor_free() {
    let mut k = boot();
    sys_fork(&mut k);
    sys_exit(&mut k, 3);
    assert_eq!(pid(&k), 1);
    let root = k.procs.slots[0].as_ref().unwrap();
    assert_eq!(root.status, ProcessStatus::Zombie);
    assert_eq!(root.children, vec![1]);
    assert_eq!(k.procs.slots[1].as_ref().unwrap().parent, Some(0));
    sys_exit(&mut k, 4);
    assert!(k.current.is_none());
    assert_eq!(k.manager.len(), 0);
    k.run_next();
    assert!(k.current.is_none());
}

#[test]
fn fork_takes_along_what_the_caller_holds() {
    let mut k = boot();
    assert_eq!(sys_mutex_create(&mut k, true), 0);
    assert_eq!(sys_mutex_create(&mut k, false), 1);
    assert_eq!(sys_semaphore_create(&mut k, 3), 0);
    assert_eq!(sys_condvar_create(&mut k), 0);
    assert_eq!(sys_enable_deadlock_detect(&mut k, 1), 0);
    assert_eq!(sys_thread_create(&mut k, 0x2000, 0, 0x9000), 1);
    assert_eq!(sys_mutex_lock(&mut k, 0), 0);
    assert_eq!(sys_semaphore_down(&mut k, 0), 0);
    while k.current.unwrap().tid != 1 {
        sys_yield(&mut k);
    }
    assert_eq!(sys_mutex_lock(&mut k, 1), 0);
    assert_eq!(sys_semaphore_down(&mut k, 0), 0);
    assert_eq!(sys_mutex_lock(&mut k, 0), 0);
    assert_eq!(k.current.unwrap().tid, 0);
    assert_eq!(sys_fork(&mut k), 1);
    let child = k.procs.slots[1].as_ref().unwrap();
    assert!(child.deadlock_detect_enable);
    assert_eq!(child.thread_count, 1);
    assert_eq!(child.mutexes.slots.len(), 2);
    assert!(child.mutexes.slots.slots[1].as_ref().unwrap().busy_wait);
    assert_eq!(child.mutexes.slots.slots[0].as_ref().unwrap().tasks.len(), 0);
    assert_eq!(child.mutexes.ledger.work, vec![0, 1]);
    assert_eq!(child.mutexes.ledger.alloc, vec![vec![1, 0]]);
    assert_eq!(child.mutexes.ledger.need, vec![vec![0, 0]]);
    assert_eq!(child.semaphores.ledger.work, vec![2]);
    assert_eq!(child.semaphores.ledger.alloc, vec![vec![1]]);
    assert_eq!(child.condvars.len(), 1);
    assert!(child.condvars.is_live(0));
    let parent = k.procs.slots[0].as_ref().unwrap();
    assert_eq!(parent.mutexes.ledger.alloc, vec![vec![1, 0], vec![0, 1]]);
    assert_eq!(parent.mutexes.slots.slots[0].as_ref().unwrap().tasks.len(), 1);
    assert_eq!(child.mutexes.slots.slots[0].as_ref().unwrap().count, 0);
    assert_eq!(child.mutexes.slots.slots[1].as_ref().unwrap().count, 0);
    assert_eq!(child.semaphores.slots.slots[0].as_ref().unwrap().count, 1);
    switch_to(&mut k, 1);
    assert_eq!(sys_mutex_unlock(&mut k, 0), 0);
    let child = k.procs.slots[1].as_ref().unwrap();
    assert_eq!(child.mutexes.ledger.work, vec![1, 1]);
    assert_eq!(child.mutexes.ledger.alloc, vec![vec![0, 0]]);
    assert_eq!(child.mutexes.slots.slots[0].as_ref().unwrap().count, 1);
    assert_eq!(sys_mutex_lock(&mut k, 0), 0);
    assert_eq!(pid(&k), 1);
    let child = k.procs.slots[1].as_ref().unwrap();
    assert_eq!(child.mutexes.ledger.work, vec![0, 1]);
}

#[test]
fn fork_keeps_empty_slots_empty() {
    let mut k = boot();
    sys_mutex_create(&mut k, true);
    sys_mutex_create(&mut k, true);
    assert!(k.procs.slots[0].as_mut().unwrap().mutexes.destroy(0));
    assert_eq!(sys_fork(&mut k), 1);
    switch_to(&mut k, 1);
    assert_eq!(sys_mutex_lock(&mut k, 0), -1);
    assert_eq!(sys_mutex_lock(&mut k, 1), 0);
    assert_eq!(sys_mutex_create(&mut k, true), 0);
}

#[test]
fn images_with_a_bad_mapping_table_are_not_loaded() {
    let rw = MapPermission { readable: true, writable: true, executable: false, user: true };
    let mut k = boot();
    let mut overlapping = MemorySet::new(0x90000);
    overlapping.areas.push(MapArea { start_vpn: 1, end_vpn: 5, perm: rw });
    overlapping.areas.push(MapArea { start_vpn: 4, end_vpn: 6, perm: rw });
    assert!(!overlapping.check());
    let img = AppImage { memory_set: overlapping, entry: 0x5000, user_sp: 0x7000 };
    assert_eq!(sys_exec(&mut k, Some(img)), -1);
    assert_eq!(k.current.unwrap().trap_cx.sepc, 0x1000);
    let mut empty_area = MemorySet::new(0x90000);
    empty_area.areas.push(MapArea { start_vpn: 3, end_vpn: 3, perm: rw });
    assert!(!empty_area.check());
    let img = AppImage { memory_set: empty_area, entry: 0x5000, user_sp: 0x7000 };
    assert_eq!(sys_spawn(&mut k, Some(img)), -1);
    assert_eq!(k.procs.len(), 1);
    let mut bad_heap = MemorySet::new(0x90000);
    bad_heap.program_brk = 0x8ffff;
    assert!(!bad_heap.check());
    let mut good = MemorySet::new(0x90000);
    good.insert_framed_area(1, 5, rw);
    good.insert_framed_area(5, 6, rw);
    assert!(good.check());
}
