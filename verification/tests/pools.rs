use kernel_core::deadlock::Ledger;
use kernel_core::sync::{Acquire, Pool, Release};
use kernel_core::task::{Pending, TaskControlBlock, TaskStatus};

fn thread(tid: usize) -> TaskControlBlock {
    TaskControlBlock::new(4, tid, 0, 0, 0)
}

fn count(p: &Pool, id: usize) -> usize {
    p.slots.slots[id].as_ref().unwrap().count
}

#[test]
fn new_pool_is_empty() {
    let p = Pool::new(4, 2);
    assert_eq!(p.owner, 4);
    assert_eq!(p.slots.len(), 0);
    assert_eq!(p.ledger.threads(), 2);
    assert_eq!(p.ledger.resources(), 0);
}

#[test]
fn create_gives_first_fit_ids_and_sets_the_units() {
    let mut p = Pool::new(4, 1);
    assert_eq!(p.create(false, 1), 0);
    assert_eq!(p.create(true, 9), 1);
    assert_eq!(p.ledger.work, vec![1, 9]);
    assert_eq!(count(&p, 1), 9);
    assert_eq!(p.slots.slots[1].as_ref().unwrap().units, 9);
    assert!(p.destroy(0));
    assert_eq!(p.create(true, 3), 0);
    assert_eq!(p.ledger.work, vec![3, 9]);
    assert!(p.slots.slots[0].as_ref().unwrap().busy_wait);
    assert_eq!(p.create(false, 0), 2);
    assert_eq!(p.ledger.work, vec![3, 9, 0]);
    assert_eq!(count(&p, 2), 0);
}

#[test]
fn acquire_has_five_outcomes() {
    let other = Ledger::new(2);
    let mut p = Pool::new(4, 2);
    p.create(false, 1);
    p.create(true, 1);
    assert_eq!(p.acquire(thread(0), 7, true, &other), Acquire::NoSuchResource);
    assert_eq!(p.acquire(thread(0), 0, true, &other), Acquire::Granted);
    assert_eq!(p.acquire(thread(0), 1, true, &other), Acquire::Granted);
    assert_eq!(p.acquire(thread(0), 0, true, &other), Acquire::Refused);
    assert_eq!(p.ledger.need, vec![vec![0, 0], vec![0, 0]]);
    assert_eq!(p.acquire(thread(1), 0, true, &other), Acquire::Parked);
    assert_eq!(p.ledger.need, vec![vec![0, 0], vec![1, 0]]);
    let mut q = Pool::new(4, 2);
    q.create(true, 1);
    assert_eq!(q.acquire(thread(0), 0, true, &other), Acquire::Granted);
    assert_eq!(q.acquire(thread(1), 0, true, &other), Acquire::Spinning);
    assert_eq!(q.ledger.need, vec![vec![0], vec![1]]);
    let mut again = thread(1);
    again.spinning = Some(0);
    assert_eq!(q.acquire(again, 0, true, &other), Acquire::Spinning);
    assert_eq!(q.ledger.need, vec![vec![0], vec![1]]);
}

#[test]
fn acquire_without_detection_leaves_the_ledger_alone() {
    let other = Ledger::new(2);
    let mut p = Pool::new(4, 2);
    p.create(false, 1);
    p.create(true, 1);
    assert_eq!(p.acquire(thread(0), 0, false, &other), Acquire::Granted);
    assert_eq!(p.acquire(thread(0), 0, false, &other), Acquire::Parked);
    assert_eq!(p.acquire(thread(0), 1, false, &other), Acquire::Granted);
    assert_eq!(p.acquire(thread(1), 1, false, &other), Acquire::Spinning);
    assert_eq!(p.ledger.work, vec![1, 1]);
    assert_eq!(p.ledger.alloc, vec![vec![0, 0], vec![0, 0]]);
    assert_eq!(p.ledger.need, vec![vec![0, 0], vec![0, 0]]);
    assert_eq!(count(&p, 0), 0);
    assert_eq!(count(&p, 1), 0);
    let (outcome, next) = p.release(1, 0, false, false);
    assert_eq!(outcome, Release::Released);
    assert_eq!(next.unwrap().pending, Some(Pending::TookMutex(0)));
    p.complete(0, 0, false);
    assert_eq!(p.ledger.work, vec![1, 1]);
    assert_eq!(p.ledger.alloc, vec![vec![0, 0], vec![0, 0]]);
}

#[test]
fn release_has_four_outcomes() {
    let other = Ledger::new(2);
    let mut p = Pool::new(4, 2);
    p.create(false, usize::MAX);
    p.create(false, 1);
    let (outcome, next) = p.release(0, 5, true, true);
    assert_eq!(outcome, Release::NoSuchResource);
    assert!(next.is_none());
    assert_eq!(p.release(0, 1, false, true).0, Release::NotHeld);
    assert_eq!(p.release(0, 0, true, true).0, Release::Full);
    assert_eq!(p.ledger.work, vec![usize::MAX, 1]);
    assert_eq!(count(&p, 0), usize::MAX);
    assert_eq!(p.acquire(thread(0), 1, true, &other), Acquire::Granted);
    let (outcome, next) = p.release(0, 1, false, true);
    assert_eq!(outcome, Release::Released);
    assert!(next.is_none());
    assert_eq!(p.ledger.work, vec![usize::MAX, 1]);
    assert_eq!(count(&p, 1), 1);
    let (outcome, _) = p.release(1, 1, true, true);
    assert_eq!(outcome, Release::Released);
    assert_eq!(count(&p, 1), 2);
    assert_eq!(p.ledger.work, vec![usize::MAX, 1]);
    assert_eq!(p.ledger.capacity(1), 1);
}

#[test]
fn release_keeps_the_unit_for_the_first_waiter() {
    let other = Ledger::new(3);
    let mut p = Pool::new(4, 3);
    p.create(false, 1);
    assert_eq!(p.acquire(thread(0), 0, true, &other), Acquire::Granted);
    assert_eq!(p.acquire(thread(2), 0, true, &other), Acquire::Parked);
    assert_eq!(p.acquire(thread(1), 0, true, &other), Acquire::Parked);
    let (outcome, next) = p.release(0, 0, false, true);
    assert_eq!(outcome, Release::Released);
    let next = next.unwrap();
    assert_eq!(next.tid, 2);
    assert_eq!(next.status, TaskStatus::Ready);
    assert_eq!(next.pending, Some(Pending::TookMutex(0)));
    assert_eq!(count(&p, 0), 0);
    assert_eq!(p.ledger.work, vec![1]);
    assert_eq!(p.ledger.alloc, vec![vec![0], vec![0], vec![0]]);
    assert_eq!(p.ledger.need, vec![vec![0], vec![1], vec![1]]);
    assert_eq!(p.slots.slots[0].as_ref().unwrap().tasks.len(), 1);
    p.complete(2, 0, true);
    assert_eq!(p.ledger.work, vec![0]);
    assert_eq!(p.ledger.alloc, vec![vec![0], vec![0], vec![1]]);
    assert_eq!(p.ledger.need, vec![vec![0], vec![1], vec![0]]);
    p.complete(1, 0, true);
    assert_eq!(p.ledger.work, vec![0]);
    assert_eq!(p.ledger.alloc, vec![vec![0], vec![0], vec![1]]);
    assert_eq!(p.ledger.need, vec![vec![0], vec![0], vec![0]]);
    p.complete(1, 9, true);
    assert_eq!(p.ledger.work, vec![0]);
}

#[test]
fn reacquire_takes_parks_or_spins_without_the_ledger() {
    let mut p = Pool::new(4, 2);
    p.create(false, 1);
    p.create(true, 1);
    assert_eq!(p.reacquire(thread(0), 5), Acquire::NoSuchResource);
    assert_eq!(p.reacquire(thread(0), 0), Acquire::Granted);
    assert_eq!(p.reacquire(thread(1), 0), Acquire::Parked);
    assert_eq!(p.reacquire(thread(0), 1), Acquire::Granted);
    assert_eq!(p.reacquire(thread(1), 1), Acquire::Spinning);
    assert_eq!(p.ledger.work, vec![1, 1]);
    assert_eq!(p.ledger.need, vec![vec![0, 0], vec![0, 0]]);
    let parked = p.slots.slots[0].as_ref().unwrap().tasks[0];
    assert_eq!(parked.pending, Some(Pending::Relock(0)));
    assert_eq!(parked.status, TaskStatus::Blocked);
    let (outcome, next) = p.release(0, 0, false, true);
    assert_eq!(outcome, Release::Released);
    assert_eq!(next.unwrap().pending, None);
    assert_eq!(count(&p, 0), 0);
}

#[test]
fn destroy_needs_an_idle_resource() {
    let other = Ledger::new(2);
    let mut p = Pool::new(4, 2);
    p.create(false, 2);
    assert!(!p.destroy(3));
    assert_eq!(p.acquire(thread(0), 0, false, &other), Acquire::Granted);
    assert!(!p.destroy(0));
    p.release(0, 0, true, false);
    assert!(p.destroy(0));
    assert!(!p.slots.is_live(0));
    assert!(!p.destroy(0));
}

#[test]
fn kept_by_copies_the_slots_without_waiters() {
    let other = Ledger::new(2);
    let mut p = Pool::new(4, 2);
    p.create(false, 1);
    p.create(true, 1);
    p.create(false, 1);
    assert!(p.destroy(2));
    assert_eq!(p.acquire(thread(0), 0, true, &other), Acquire::Granted);
    assert_eq!(p.acquire(thread(1), 0, true, &other), Acquire::Parked);
    let c = p.kept_by(9, 0);
    assert_eq!(c.owner, 9);
    assert_eq!(c.slots.len(), 3);
    assert!(c.slots.is_live(0) && c.slots.is_live(1) && !c.slots.is_live(2));
    assert!(c.slots.slots[1].as_ref().unwrap().busy_wait);
    assert_eq!(c.slots.slots[0].as_ref().unwrap().tasks.len(), 0);
    assert_eq!(count(&c, 0), 0);
    assert_eq!(count(&c, 1), 1);
    assert_eq!(c.ledger.work, vec![0, 1, 1]);
    assert_eq!(c.ledger.alloc, vec![vec![1, 0, 0]]);
    let d = p.kept_by(9, 1);
    assert_eq!(d.ledger.work, vec![1, 1, 1]);
    assert_eq!(d.ledger.alloc, vec![vec![0, 0, 0]]);
}

#[test]
fn capacity_in_the_ledger_stays_what_the_resource_was_made_with() {
    let other = Ledger::new(2);
    let mut p = Pool::new(4, 2);
    p.create(false, 3);
    assert_eq!(p.acquire(thread(0), 0, true, &other), Acquire::Granted);
    assert_eq!(p.acquire(thread(1), 0, true, &other), Acquire::Granted);
    assert_eq!(p.ledger.capacity(0), 3);
    p.release(0, 0, true, true);
    p.release(0, 0, true, true);
    assert_eq!(p.slots.slots[0].as_ref().unwrap().units, 3);
    assert_eq!(p.ledger.capacity(0), 3);
    assert_eq!(p.ledger.work, vec![2]);
    assert_eq!(count(&p, 0), 3);
}
