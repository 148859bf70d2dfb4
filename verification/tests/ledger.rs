use kernel_core::deadlock::Ledger;

fn ledger(threads: usize, units: &[usize]) -> Ledger {
    let mut l = Ledger::new(threads);
    for u in units {
        l.add_resource(*u);
    }
    l
}

#[test]
fn new_ledger_has_rows_and_no_columns() {
    let l = Ledger::new(3);
    assert_eq!(l.threads(), 3);
    assert_eq!(l.resources(), 0);
    assert!(l.work.is_empty());
    assert_eq!(l.alloc, vec![Vec::<usize>::new(); 3]);
    assert_eq!(l.need, vec![Vec::<usize>::new(); 3]);
}

#[test]
fn add_resource_grows_every_row() {
    let l = ledger(2, &[1, 5]);
    assert_eq!(l.work, vec![1, 5]);
    assert_eq!(l.alloc, vec![vec![0, 0], vec![0, 0]]);
    assert_eq!(l.need, vec![vec![0, 0], vec![0, 0]]);
    assert_eq!(l.capacity(0), 1);
    assert_eq!(l.capacity(1), 5);
    assert_eq!(l.available(1), 5);
}

#[test]
fn add_thread_adds_a_row_of_zeros() {
    let mut l = ledger(1, &[2, 3]);
    l.grant(0, 1);
    l.add_thread();
    assert_eq!(l.threads(), 2);
    assert_eq!(l.alloc, vec![vec![0, 1], vec![0, 0]]);
    assert_eq!(l.need, vec![vec![0, 0], vec![0, 0]]);
    assert_eq!(l.work, vec![2, 2]);
}

#[test]
fn grant_and_release_keep_the_capacity() {
    let mut l = ledger(2, &[3]);
    l.grant(0, 0);
    l.grant(1, 0);
    assert_eq!(l.available(0), 1);
    assert_eq!(l.holding(0, 0), 1);
    assert_eq!(l.holding(1, 0), 1);
    assert_eq!(l.capacity(0), 3);
    l.release(0, 0);
    assert_eq!(l.available(0), 2);
    assert_eq!(l.holding(0, 0), 0);
    assert_eq!(l.capacity(0), 3);
}

#[test]
fn request_and_settle_count_what_is_awaited() {
    let mut l = ledger(2, &[1]);
    l.request(1, 0);
    assert_eq!(l.awaiting(1, 0), 1);
    assert_eq!(l.awaiting(0, 0), 0);
    l.settle(1, 0);
    assert_eq!(l.awaiting(1, 0), 0);
    l.settle(1, 0);
    assert_eq!(l.awaiting(1, 0), 0);
    assert_eq!(l.capacity(0), 1);
}

#[test]
fn request_stops_at_the_largest_word() {
    let mut l = ledger(1, &[1]);
    l.need[0][0] = usize::MAX;
    l.request(0, 0);
    assert_eq!(l.awaiting(0, 0), usize::MAX);
}

#[test]
fn take_and_give_do_nothing_where_there_is_nothing_to_move() {
    let mut l = ledger(2, &[1]);
    l.give(0, 0);
    assert_eq!(l.work, vec![1]);
    assert_eq!(l.alloc, vec![vec![0], vec![0]]);
    l.take(0, 0);
    assert_eq!(l.work, vec![0]);
    assert_eq!(l.alloc, vec![vec![1], vec![0]]);
    l.take(1, 0);
    assert_eq!(l.work, vec![0]);
    assert_eq!(l.alloc, vec![vec![1], vec![0]]);
    l.give(1, 0);
    assert_eq!(l.work, vec![0]);
    l.give(0, 0);
    assert_eq!(l.work, vec![1]);
    assert_eq!(l.alloc, vec![vec![0], vec![0]]);
    assert_eq!(l.capacity(0), 1);
}

#[test]
fn reset_resource_clears_the_column() {
    let mut l = ledger(2, &[2, 2]);
    l.grant(0, 0);
    l.request(1, 0);
    l.grant(1, 1);
    l.reset_resource(0, 7);
    assert_eq!(l.work, vec![7, 1]);
    assert_eq!(l.alloc, vec![vec![0, 0], vec![0, 1]]);
    assert_eq!(l.need, vec![vec![0, 0], vec![0, 0]]);
    assert_eq!(l.capacity(0), 7);
    assert_eq!(l.capacity(1), 2);
}

#[test]
fn a_request_for_a_free_unit_is_safe() {
    let l = ledger(2, &[1, 1]);
    assert!(l.is_safe_after_request(0, 0));
    assert!(l.is_safe_after_request(1, 1));
}

#[test]
fn the_check_does_not_change_the_ledger() {
    let mut l = ledger(2, &[1, 1]);
    l.grant(0, 0);
    let work = l.work.clone();
    let alloc = l.alloc.clone();
    let need = l.need.clone();
    assert!(l.is_safe_after_request(1, 0));
    assert_eq!(l.work, work);
    assert_eq!(l.alloc, alloc);
    assert_eq!(l.need, need);
}

#[test]
fn waiting_for_a_holder_that_can_finish_is_safe() {
    let mut l = ledger(2, &[1]);
    l.grant(0, 0);
    assert!(l.is_safe_after_request(1, 0));
}

#[test]
fn asking_again_for_what_one_holds_is_not_safe() {
    let mut l = ledger(1, &[1]);
    l.grant(0, 0);
    assert!(!l.is_safe_after_request(0, 0));
}

#[test]
fn crossed_requests_are_not_safe() {
    let mut l = ledger(2, &[1, 1]);
    l.grant(0, 0);
    l.grant(1, 1);
    l.request(1, 0);
    assert!(!l.is_safe_after_request(0, 1));
}

#[test]
fn crossed_requests_the_other_way_are_not_safe() {
    let mut l = ledger(2, &[1, 1]);
    l.grant(0, 0);
    l.grant(1, 1);
    l.request(0, 1);
    assert!(!l.is_safe_after_request(1, 0));
}

#[test]
fn a_cycle_of_three_is_not_safe() {
    let mut l = ledger(3, &[1, 1, 1]);
    l.grant(0, 0);
    l.grant(1, 1);
    l.grant(2, 2);
    l.request(0, 1);
    l.request(1, 2);
    assert!(!l.is_safe_after_request(2, 0));
    assert!(!l.is_safe_after_request(2, 2));
}

#[test]
fn a_chain_without_a_cycle_is_safe() {
    let mut l = ledger(3, &[1, 1, 1]);
    l.grant(0, 0);
    l.grant(1, 1);
    l.request(0, 1);
    assert!(l.is_safe_after_request(1, 2));
    l.grant(2, 2);
    assert!(l.is_safe_after_request(1, 2));
}

#[test]
fn semaphore_with_enough_units_is_safe() {
    let mut l = ledger(3, &[2]);
    l.grant(0, 0);
    l.grant(1, 0);
    assert!(l.is_safe_after_request(2, 0));
    l.request(2, 0);
    assert!(l.is_safe_after_request(1, 0));
    l.request(1, 0);
    assert!(!l.is_safe_after_request(0, 0));
}

#[test]
fn a_thread_that_holds_all_units_and_asks_for_more_is_stuck() {
    let mut l = ledger(2, &[2]);
    l.grant(0, 0);
    l.grant(0, 0);
    assert!(!l.is_safe_after_request(0, 0));
    assert!(l.is_safe_after_request(1, 0));
}

#[test]
fn order_of_threads_does_not_matter() {
    let mut l = ledger(3, &[1, 1]);
    l.grant(2, 0);
    l.grant(1, 1);
    l.request(1, 0);
    assert!(l.is_safe_after_request(0, 1));
    l.request(2, 1);
    assert!(!l.is_safe_after_request(0, 1));
}

#[test]
fn a_ledger_without_resources_is_safe_to_scan() {
    let l = ledger(2, &[1]);
    assert!(l.is_safe_after_request(0, 0));
    assert_eq!(l.capacity(0), 1);
}

#[test]
fn beside_puts_the_columns_of_the_other_ledger_last() {
    let mut a = ledger(2, &[1, 4]);
    a.grant(0, 1);
    a.request(1, 0);
    let mut b = ledger(2, &[7]);
    b.grant(1, 0);
    let j = a.beside(&b);
    assert_eq!(j.work, vec![1, 3, 6]);
    assert_eq!(j.alloc, vec![vec![0, 1, 0], vec![0, 0, 1]]);
    assert_eq!(j.need, vec![vec![0, 0, 0], vec![1, 0, 0]]);
    assert_eq!(j.capacity(1), 4);
    assert_eq!(j.capacity(2), 7);
    assert_eq!(a.work, vec![1, 3]);
    assert_eq!(b.work, vec![6]);
}

#[test]
fn crossed_requests_over_two_ledgers_are_not_safe() {
    let mut a = ledger(2, &[1]);
    let mut b = ledger(2, &[1]);
    a.grant(0, 0);
    b.grant(1, 0);
    a.request(1, 0);
    assert!(b.is_safe_after_request(0, 0));
    assert!(!b.beside(&a).is_safe_after_request(0, 0));
    assert!(!a.beside(&b).is_safe_after_request(0, 1));
}

#[test]
fn kept_by_keeps_what_the_thread_holds_and_frees_the_rest() {
    let mut l = ledger(3, &[1, 5, 2]);
    l.grant(0, 0);
    l.grant(1, 1);
    l.grant(1, 1);
    l.grant(2, 1);
    l.grant(2, 2);
    l.request(1, 0);
    let c = l.kept_by(1);
    assert_eq!(c.threads(), 1);
    assert_eq!(c.work, vec![1, 3, 2]);
    assert_eq!(c.alloc, vec![vec![0, 2, 0]]);
    assert_eq!(c.need, vec![vec![0, 0, 0]]);
    for r in 0..3 {
        assert_eq!(c.capacity(r), l.capacity(r));
    }
    let d = l.kept_by(0);
    assert_eq!(d.work, vec![0, 5, 2]);
    assert_eq!(d.alloc, vec![vec![1, 0, 0]]);
}
