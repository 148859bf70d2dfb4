use kernel_core::config::{BIG_STRIDE, DEFAULT_PRIORITY};
use kernel_core::task::manager::{add_task, fetch_task, TaskManager};
use kernel_core::task::{TaskControlBlock, TaskStatus};

fn task(pid: usize, tid: usize, stride: usize, pass: usize) -> TaskControlBlock {
    let mut t = TaskControlBlock::new(pid, tid, 0x1000, 0x8000, 0);
    t.stride = stride;
    t.pass = pass;
    t
}

#[test]
fn new_task_has_default_priority_and_pass() {
    let t = TaskControlBlock::new(3, 1, 0x1000, 0x8000, 42);
    assert_eq!(t.pid, 3);
    assert_eq!(t.tid, 1);
    assert_eq!(t.status, TaskStatus::Ready);
    assert_eq!(t.priority, DEFAULT_PRIORITY);
    assert_eq!(t.priority, 16);
    assert_eq!(t.stride, 0);
    assert_eq!(t.pass, BIG_STRIDE / 16);
    assert_eq!(t.pass, 65536);
    assert_eq!(t.start_time, 42);
    assert_eq!(t.trap_cx.a0, 0);
    assert_eq!(t.trap_cx.sepc, 0x1000);
    assert_eq!(t.trap_cx.sp, 0x8000);
    assert!(t.spinning.is_none());
    assert!(t.syscall_times.iter().all(|c| *c == 0));
}

#[test]
fn empty_queue_yields_no_task() {
    let mut m = TaskManager::new();
    assert_eq!(m.len(), 0);
    assert!(m.fetch().is_none());
    assert_eq!(m.len(), 0);
}

#[test]
fn fetch_takes_the_least_stride() {
    let mut m = TaskManager::new();
    m.add(task(0, 0, 30, 5));
    m.add(task(0, 1, 10, 7));
    m.add(task(0, 2, 20, 9));
    let t = m.fetch().unwrap();
    assert_eq!(t.tid, 1);
    assert_eq!(t.stride, 17);
    assert_eq!(m.len(), 2);
    let t = m.fetch().unwrap();
    assert_eq!(t.tid, 2);
    assert_eq!(t.stride, 29);
    let t = m.fetch().unwrap();
    assert_eq!(t.tid, 0);
    assert_eq!(t.stride, 35);
    assert!(m.fetch().is_none());
}

#[test]
fn fetched_stride_is_no_more_than_any_other() {
    let strides = [9usize, 4, 7, 4, 12, 5, 4, 100, 0, 3];
    let mut m = TaskManager::new();
    for (i, s) in strides.iter().enumerate() {
        m.add(task(0, i, *s, 1));
    }
    let mut left: Vec<(usize, usize)> = strides.iter().cloned().enumerate().collect();
    for _ in 0..strides.len() {
        let least = left.iter().map(|(_, s)| *s).min().unwrap();
        let first = left.iter().position(|(_, s)| *s == least).unwrap();
        let t = m.fetch().unwrap();
        assert_eq!(t.stride, least + 1);
        assert_eq!(t.tid, left[first].0);
        left.remove(first);
        assert!(m.ready_queue.iter().all(|other| other.stride >= least));
    }
    assert!(m.fetch().is_none());
}

#[test]
fn ties_go_to_the_task_added_first() {
    let mut m = TaskManager::new();
    m.add(task(0, 5, 8, 1));
    m.add(task(0, 6, 8, 1));
    m.add(task(0, 7, 8, 1));
    assert_eq!(m.fetch().unwrap().tid, 5);
    assert_eq!(m.fetch().unwrap().tid, 6);
    assert_eq!(m.fetch().unwrap().tid, 7);
}

#[test]
fn add_puts_the_task_at_the_back() {
    let mut m = TaskManager::new();
    m.add(task(0, 1, 5, 1));
    m.add(task(0, 2, 5, 1));
    assert_eq!(m.ready_queue.len(), 2);
    assert_eq!(m.ready_queue[0].tid, 1);
    assert_eq!(m.ready_queue[1].tid, 2);
}

#[test]
fn single_task_stride_grows_by_pass_each_round() {
    let mut m = TaskManager::new();
    let initial = 1000usize;
    let pass = 37usize;
    m.add(task(0, 0, initial, pass));
    for n in 1..=50usize {
        let t = m.fetch().unwrap();
        assert_eq!(t.stride, initial + n * pass);
        m.add(t);
    }
    assert_eq!(m.ready_queue[0].stride, 1000 + 50 * 37);
    assert_eq!(m.ready_queue[0].stride, 2850);
}

#[test]
fn stride_stays_at_the_largest_word() {
    let mut m = TaskManager::new();
    m.add(task(0, 0, usize::MAX - 3, 10));
    let t = m.fetch().unwrap();
    assert_eq!(t.stride, usize::MAX);
    m.add(t);
    let t = m.fetch().unwrap();
    assert_eq!(t.stride, usize::MAX);
}

#[test]
fn stride_reaches_the_largest_word_exactly() {
    let mut m = TaskManager::new();
    m.add(task(0, 0, usize::MAX - 10, 10));
    assert_eq!(m.fetch().unwrap().stride, usize::MAX);
}

#[test]
fn fetch_leaves_the_other_fields_alone() {
    let mut m = TaskManager::new();
    let mut t = task(4, 2, 6, 3);
    t.priority = 9;
    t.start_time = 77;
    t.trap_cx.a0 = 5;
    m.add(t);
    let out = m.fetch().unwrap();
    assert_eq!(out.pid, 4);
    assert_eq!(out.tid, 2);
    assert_eq!(out.pass, 3);
    assert_eq!(out.priority, 9);
    assert_eq!(out.start_time, 77);
    assert_eq!(out.trap_cx.a0, 5);
    assert_eq!(out.status, TaskStatus::Ready);
}

#[test]
fn free_functions_work_on_the_given_manager() {
    let mut m = TaskManager::new();
    add_task(&mut m, task(0, 1, 4, 2));
    add_task(&mut m, task(0, 2, 3, 2));
    let t = fetch_task(&mut m).unwrap();
    assert_eq!(t.tid, 2);
    assert_eq!(t.stride, 5);
    let t = fetch_task(&mut m).unwrap();
    assert_eq!(t.tid, 1);
    assert!(fetch_task(&mut m).is_none());
}

#[test]
fn higher_priority_runs_more_often() {
    let mut m = TaskManager::new();
    m.add(task(0, 0, 0, BIG_STRIDE / 2));
    m.add(task(0, 1, 0, BIG_STRIDE / 8));
    let mut runs = [0usize; 2];
    for _ in 0..100 {
        let t = m.fetch().unwrap();
        runs[t.tid] += 1;
        m.add(t);
    }
    assert_eq!(runs[0] + runs[1], 100);
    assert_eq!(runs[0], 20);
    assert_eq!(runs[1], 80);
}

#[test]
fn remove_process_keeps_the_others_in_order() {
    let mut m = TaskManager::new();
    m.add(task(1, 0, 0, 1));
    m.add(task(2, 0, 0, 1));
    m.add(task(1, 1, 0, 1));
    m.add(task(3, 0, 0, 1));
    m.remove_process(1);
    assert_eq!(m.len(), 2);
    assert_eq!(m.ready_queue[0].pid, 2);
    assert_eq!(m.ready_queue[1].pid, 3);
    m.remove_process(9);
    assert_eq!(m.len(), 2);
}
