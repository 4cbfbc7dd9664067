use rcore_os::deadlock::have_deadlock;

#[test]
fn no_tasks_is_no_deadlock() {
    assert!(!have_deadlock(&vec![1, 0], &vec![], &vec![]));
}

#[test]
fn every_task_can_finish() {
    // textbook safe state: five tasks, three resources
    let available = vec![3, 3, 2];
    let allocation = vec![vec![0, 1, 0], vec![2, 0, 0], vec![3, 0, 2], vec![2, 1, 1], vec![0, 0, 2]];
    let need = vec![vec![7, 4, 3], vec![1, 2, 2], vec![6, 0, 0], vec![0, 1, 1], vec![4, 3, 1]];
    assert!(!have_deadlock(&available, &allocation, &need));
}

#[test]
fn circular_wait_is_deadlock() {
    // each task holds one mutex and waits for the other
    let available = vec![0, 0];
    let allocation = vec![vec![1, 0], vec![0, 1]];
    let need = vec![vec![0, 1], vec![1, 0]];
    assert!(have_deadlock(&available, &allocation, &need));
}

#[test]
fn order_found_after_release() {
    // task 0 can only run after task 1 releases what it holds
    let available = vec![1];
    let allocation = vec![vec![0], vec![2]];
    let need = vec![vec![3], vec![1]];
    assert!(!have_deadlock(&available, &allocation, &need));
}

#[test]
fn one_stuck_task_is_deadlock() {
    let available = vec![1];
    let allocation = vec![vec![0], vec![0]];
    let need = vec![vec![1], vec![5]];
    assert!(have_deadlock(&available, &allocation, &need));
}

#[test]
fn no_resources_never_deadlock() {
    let available: Vec<isize> = vec![];
    let allocation = vec![vec![], vec![]];
    let need = vec![vec![], vec![]];
    assert!(!have_deadlock(&available, &allocation, &need));
}

#[test]
fn longer_rows_are_read_only_up_to_resources() {
    let available = vec![1];
    let allocation = vec![vec![0, 100]];
    let need = vec![vec![1, 100]];
    assert!(!have_deadlock(&available, &allocation, &need));
}

#[test]
fn more_units_remove_deadlock() {
    let allocation = vec![vec![0], vec![0]];
    let need = vec![vec![1], vec![5]];
    assert!(have_deadlock(&vec![1], &allocation, &need));
    assert!(!have_deadlock(&vec![5], &allocation, &need));
    assert!(!have_deadlock(&vec![6], &allocation, &need));
}
