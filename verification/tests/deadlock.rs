use tg_rcore_tutorial::deadlock::{is_safe, DeadlockDetect};
use std::collections::BTreeMap;

fn row(m: &BTreeMap<usize, Vec<isize>>, t: usize) -> Vec<isize> {
    m.get(&t).cloned().unwrap_or_default()
}

#[test]
fn default_state_is_empty_and_disabled() {
    let d = DeadlockDetect::default();
    assert!(!d.enabled);
    assert!(d.mutex_available.is_empty());
    assert!(d.mutex_allocation.is_empty());
    assert!(d.mutex_need.is_empty());
    assert!(d.sem_available.is_empty());
    assert!(d.sem_allocation.is_empty());
    assert!(d.sem_need.is_empty());
}

#[test]
fn mutex_set_declares_a_free_mutex_and_pads_rows() {
    let mut d = DeadlockDetect::default();
    d.mutex_set(0);
    assert_eq!(d.mutex_available, vec![1]);
    assert!(d.mutex_request(7, 0));
    d.mutex_grant(7, 0);
    d.mutex_set(2);
    assert_eq!(d.mutex_available, vec![0, 0, 1]);
    assert_eq!(row(&d.mutex_allocation, 7), vec![1, 0, 0]);
    assert_eq!(row(&d.mutex_need, 7), vec![0, 0, 0]);
    // Declaring an existing column again clears it.
    d.mutex_set(0);
    assert_eq!(d.mutex_available, vec![1, 0, 1]);
    assert_eq!(row(&d.mutex_allocation, 7), vec![0, 0, 0]);
}

#[test]
fn sem_set_uses_the_count_as_capacity() {
    let mut d = DeadlockDetect::default();
    d.sem_set(1, 3);
    assert_eq!(d.sem_available, vec![0, 3]);
    assert!(d.mutex_available.is_empty());
}

#[test]
fn relocking_an_own_mutex_is_refused_and_withdrawn() {
    // One thread locks a mutex twice: nobody can go on, so the second request is unsafe.
    let mut d = DeadlockDetect::default();
    d.enabled = true;
    d.mutex_set(0);
    assert!(d.mutex_request(1, 0));
    d.mutex_grant(1, 0);
    assert_eq!(d.mutex_available, vec![0]);
    assert!(!d.mutex_request(1, 0));
    assert_eq!(row(&d.mutex_need, 1), vec![0]);
    assert_eq!(row(&d.mutex_allocation, 1), vec![1]);
    assert_eq!(d.mutex_available, vec![0]);
}

#[test]
fn semaphore_wait_that_can_finish_is_safe() {
    // A thread blocks on a semaphore that another thread holds and will give back.
    let mut d = DeadlockDetect::default();
    d.sem_set(0, 1);
    assert!(d.sem_request(1, 0));
    d.sem_grant(1, 0);
    assert!(d.sem_request(2, 0));
    assert_eq!(row(&d.sem_need, 2), vec![1]);
    d.sem_release(1, 0);
    assert_eq!(d.sem_available, vec![1]);
    d.sem_grant(2, 0);
    assert_eq!(d.sem_available, vec![0]);
    assert_eq!(row(&d.sem_allocation, 2), vec![1]);
    assert_eq!(row(&d.sem_need, 2), vec![0]);
}

#[test]
fn crossed_mutexes_are_refused() {
    let mut d = DeadlockDetect::default();
    d.mutex_set(0);
    d.mutex_set(1);
    assert!(d.mutex_request(1, 0));
    d.mutex_grant(1, 0);
    assert!(d.mutex_request(2, 1));
    d.mutex_grant(2, 1);
    // Thread 1 waits for mutex 1: thread 2 can still finish first.
    assert!(d.mutex_request(1, 1));
    // Thread 2 now waiting for mutex 0 closes the cycle.
    assert!(!d.mutex_request(2, 0));
    assert_eq!(row(&d.mutex_need, 2), vec![0, 0]);
    assert_eq!(row(&d.mutex_need, 1), vec![0, 1]);
}

#[test]
fn request_gives_the_thread_rows_even_when_refused() {
    let mut d = DeadlockDetect::default();
    d.mutex_set(0);
    d.mutex_set(1);
    assert!(d.mutex_request(1, 0));
    d.mutex_grant(1, 0);
    assert!(!d.mutex_request(1, 0));
    assert!(d.mutex_allocation.contains_key(&1));
    assert_eq!(row(&d.mutex_allocation, 1), vec![1, 0]);
}

#[test]
fn grant_and_release_keep_the_total_of_units() {
    let mut d = DeadlockDetect::default();
    d.sem_set(0, 4);
    let total = |d: &DeadlockDetect| -> isize {
        d.sem_available[0] + d.sem_allocation.values().map(|r| r.first().copied().unwrap_or(0)).sum::<isize>()
    };
    assert_eq!(total(&d), 4);
    for t in 1..=3 {
        assert!(d.sem_request(t, 0));
        assert_eq!(total(&d), 4);
        d.sem_grant(t, 0);
        assert_eq!(total(&d), 4);
    }
    d.sem_release(2, 0);
    assert_eq!(total(&d), 4);
    assert_eq!(d.sem_available, vec![2]);
}

#[test]
fn release_undoes_grant() {
    let mut d = DeadlockDetect::default();
    d.mutex_set(0);
    let before_avail = d.mutex_available.clone();
    d.mutex_grant(5, 0);
    d.mutex_release(5, 0);
    assert_eq!(d.mutex_available, before_avail);
    assert_eq!(row(&d.mutex_allocation, 5), vec![0]);
    assert_eq!(row(&d.mutex_need, 5), vec![-1]);
}

#[test]
fn is_safe_on_empty_state() {
    assert!(is_safe(&[], &BTreeMap::new(), &BTreeMap::new()));
    assert!(is_safe(&[3], &BTreeMap::new(), &BTreeMap::new()));
}

#[test]
fn is_safe_finds_an_order_out_of_key_order() {
    // Thread 1 waits for two units that only thread 2 can give back.
    let mut alloc = BTreeMap::new();
    alloc.insert(1usize, vec![0isize]);
    alloc.insert(2usize, vec![2isize]);
    let mut need = BTreeMap::new();
    need.insert(1usize, vec![2isize]);
    assert!(is_safe(&[0], &alloc, &need));
    need.insert(2usize, vec![1isize]);
    assert!(!is_safe(&[0], &alloc, &need));
}

#[test]
fn is_safe_treats_missing_rows_and_columns_as_zero() {
    let mut alloc = BTreeMap::new();
    alloc.insert(4usize, vec![]);
    let need = BTreeMap::new();
    assert!(is_safe(&[0, 0], &alloc, &need));
    let mut need2 = BTreeMap::new();
    need2.insert(4usize, vec![0isize, 1]);
    assert!(!is_safe(&[0, 0], &alloc, &need2));
    // A need only threads without an allocation row have is not looked at.
    let mut need3 = BTreeMap::new();
    need3.insert(9usize, vec![5isize, 5]);
    assert!(is_safe(&[0, 0], &alloc, &need3));
}

#[test]
fn is_safe_scans_threads_in_increasing_id_order() {
    // A thread that holds a negative count (a release it never obtained) lowers the
    // free units when it finishes: thread 1 goes first, and thread 2 is then stuck,
    // although the other order would let both finish.
    let mut alloc = BTreeMap::new();
    alloc.insert(1usize, vec![-1isize]);
    alloc.insert(2usize, vec![0isize]);
    let need = BTreeMap::new();
    assert!(!is_safe(&[0], &alloc, &need));
    let mut alloc2 = BTreeMap::new();
    alloc2.insert(1usize, vec![0isize]);
    alloc2.insert(2usize, vec![-1isize]);
    assert!(is_safe(&[0], &alloc2, &need));
}

#[test]
fn granted_request_leaves_no_pending_need() {
    let mut d = DeadlockDetect::default();
    d.mutex_set(0);
    d.mutex_set(1);
    assert!(d.mutex_request(3, 1));
    assert_eq!(row(&d.mutex_need, 3), vec![0, 1]);
    d.mutex_grant(3, 1);
    assert_eq!(row(&d.mutex_need, 3), vec![0, 0]);
    assert_eq!(row(&d.mutex_allocation, 3), vec![0, 1]);
    assert_eq!(d.mutex_available, vec![1, 0]);
}

#[test]
fn more_units_or_smaller_needs_keep_a_safe_state_safe() {
    let alloc: BTreeMap<usize, Vec<isize>> = [(1, vec![1, 0]), (2, vec![0, 1])].into_iter().collect();
    let need: BTreeMap<usize, Vec<isize>> = [(1, vec![0, 1]), (2, vec![1, 1])].into_iter().collect();
    assert!(is_safe(&[0, 1], &alloc, &need));
    assert!(is_safe(&[1, 1], &alloc, &need));
    assert!(is_safe(&[0, 5], &alloc, &need));
    let smaller: BTreeMap<usize, Vec<isize>> = [(1, vec![0, 0]), (2, vec![1])].into_iter().collect();
    assert!(is_safe(&[0, 1], &alloc, &smaller));
    // With fewer units than that the state is unsafe.
    assert!(!is_safe(&[0, 0], &alloc, &need));
}
