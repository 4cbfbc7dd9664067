use rcore_os::mutex::{have_deadlock_mutex, AnyMutex, Mutex, MutexBlocking, MutexSpin};
use rcore_os::semaphore::{have_deadlock_semaphore, Semaphore};
use rcore_os::sync::SyncResource;

#[test]
fn blocking_mutex_lock_and_handoff() {
    let mut m = MutexBlocking::new();
    assert_eq!(m.get_available(), 1);
    assert!(m.lock(1));
    assert_eq!(m.get_available(), 0);
    assert_eq!(m.get_allocation(1), 1);
    assert!(!m.lock(2));
    assert_eq!(m.get_need(2), 1);
    // the holder stays recorded while task 2 waits
    assert_eq!(m.get_allocation(2), 0);
    assert_eq!(m.get_allocation(1), 1);
    assert_eq!(m.unlock(1), Some(2));
    // handed over: still locked, task 2 holds it
    assert_eq!(m.get_available(), 0);
    assert_eq!(m.get_allocation(2), 1);
    assert_eq!(m.get_allocation(1), 0);
    assert_eq!(m.get_need(2), 0);
    assert_eq!(m.unlock(2), None);
    assert_eq!(m.get_available(), 1);
    assert_eq!(m.get_allocation(2), 0);
}

#[test]
fn spin_mutex_lock_spin_unlock() {
    let mut m = MutexSpin::new();
    assert!(m.lock(3));
    assert_eq!(m.get_allocation(3), 1);
    assert!(!m.lock(4));
    assert_eq!(m.get_need(4), 1);
    assert_eq!(m.get_need(3), 0);
    assert!(!m.try_acquire(4));
    assert_eq!(m.unlock(3), None);
    assert!(m.try_acquire(4));
    assert_eq!(m.get_need(4), 0);
    assert_eq!(m.get_allocation(4), 1);
}

#[test]
fn mark_and_unmark_need() {
    let mut m = MutexBlocking::new();
    m.mark_need(7);
    assert_eq!(m.get_need(7), 1);
    m.unmark_need();
    assert_eq!(m.get_need(7), 0);
}

#[test]
fn semaphore_up_down() {
    let mut s = Semaphore::new(1);
    assert_eq!(s.get_available(), 1);
    assert!(!s.down(1));
    assert_eq!(s.get_allocation(1), 1);
    assert_eq!(s.get_available(), 0);
    assert!(s.down(2));
    assert_eq!(s.inner.count, -1);
    assert_eq!(s.get_need(2), 1);
    // the unit passes from task 1 to the woken task 2
    assert_eq!(s.up(1), Some(2));
    assert_eq!(s.inner.count, 0);
    assert_eq!(s.get_allocation(1), 0);
    assert_eq!(s.get_allocation(2), 1);
    assert_eq!(s.get_need(2), 0);
    assert_eq!(s.up(2), None);
    assert_eq!(s.get_allocation(2), 0);
    assert_eq!(s.inner.using.len(), 0);
    assert_eq!(s.inner.total, 1);
    assert_eq!(s.get_available(), 1);
}

#[test]
fn semaphore_down_up_restores() {
    let mut s = Semaphore::new(3);
    assert!(!s.down(5));
    assert_eq!(s.up(5), None);
    assert_eq!(s.inner.count, 3);
    assert!(s.inner.using.is_empty());
    assert!(s.inner.wait_queue.is_empty());
}

#[test]
fn mutex_deadlock_detected() {
    // task 1 holds mutex 0, task 2 holds mutex 1 and waits for mutex 0;
    // task 1 asking for mutex 1 closes the cycle
    let mut m0 = MutexBlocking::new();
    let mut m1 = MutexBlocking::new();
    assert!(m0.lock(1));
    assert!(m1.lock(2));
    assert!(!m0.lock(2));
    let mut list = vec![Some(m0), Some(m1)];
    let tasks = vec![Some(1), Some(2), None];
    assert!(have_deadlock_mutex(&mut list, &tasks, 1, 1));
    // the list is left as it was
    if let Some(m) = &list[1] {
        assert_eq!(m.get_need(1), 0);
        assert_eq!(m.get_allocation(2), 1);
    }
}

#[test]
fn holder_can_finish_no_deadlock() {
    // task 0 holds the only mutex and waits for nothing; task 1 asks for it
    let mut m = MutexBlocking::new();
    assert!(m.lock(0));
    let mut list = vec![Some(m)];
    let tasks = vec![Some(0), Some(1)];
    assert!(!have_deadlock_mutex(&mut list, &tasks, 0, 1));
}

#[test]
fn free_mutex_no_deadlock() {
    let mut list = vec![Some(MutexBlocking::new()), Some(MutexBlocking::new())];
    let tasks = vec![Some(1), Some(2), None];
    assert!(!have_deadlock_mutex(&mut list, &tasks, 0, 1));
}

#[test]
fn mixed_mutex_list() {
    let mut list = vec![Some(AnyMutex::Spin(MutexSpin::new())), Some(AnyMutex::Blocking(MutexBlocking::new())), None];
    let tasks = vec![Some(0), Some(1)];
    assert!(!have_deadlock_mutex(&mut list, &tasks, 0, 0));
    if let Some(m) = &mut list[0] {
        assert!(m.lock(0));
    }
    if let Some(m) = &mut list[1] {
        assert!(m.lock(1));
    }
    // task 1 asks for the spin mutex task 0 holds; task 0 needs nothing
    assert!(!have_deadlock_mutex(&mut list, &tasks, 0, 1));
    // task 0 waiting for the blocking mutex closes a cycle
    if let Some(m) = &mut list[1] {
        assert!(!m.lock(0));
    }
    assert!(have_deadlock_mutex(&mut list, &tasks, 0, 1));
    if let Some(AnyMutex::Spin(m)) = &mut list[0] {
        assert_eq!(m.get_need(1), 0);
        assert_eq!(m.unlock(0), None);
    }
}

#[test]
fn semaphore_deadlock_detected() {
    let mut a = Semaphore::new(1);
    let mut b = Semaphore::new(1);
    assert!(!a.down(1));
    assert!(!b.down(2));
    assert!(a.down(2));
    let mut list = vec![Some(a), Some(b)];
    let tasks = vec![Some(1), Some(2)];
    assert!(have_deadlock_semaphore(&mut list, &tasks, 1, 1));
    if let Some(s) = &list[1] {
        assert!(s.inner.wait_queue.is_empty());
    }
}

#[test]
fn semaphore_no_deadlock_with_spare_units() {
    let mut a = Semaphore::new(2);
    assert!(!a.down(1));
    let mut list = vec![Some(a)];
    let tasks = vec![Some(1), Some(2)];
    assert!(!have_deadlock_semaphore(&mut list, &tasks, 0, 2));
}

#[test]
fn blocking_lock_unlock_roundtrip() {
    let mut m = MutexBlocking::new();
    assert!(m.lock(3));
    assert_eq!(m.unlock(3), None);
    assert_eq!(m.get_available(), 1);
    assert_eq!(m.get_allocation(3), 0);
    assert_eq!(m.get_need(3), 0);
}

#[test]
fn spin_lock_unlock_roundtrip() {
    let mut m = MutexSpin::new();
    assert!(m.lock(3));
    assert_eq!(m.unlock(3), None);
    assert_eq!(m.get_available(), 1);
    assert_eq!(m.get_allocation(3), 0);
    assert_eq!(m.get_need(3), 0);
}

#[test]
fn semaphore_up_wakes_oldest_waiter() {
    let mut s = Semaphore::new(0);
    assert!(s.down(1));
    assert!(s.down(2));
    assert_eq!(s.inner.count, -2);
    assert_eq!(s.inner.wait_queue.len(), 2);
    assert_eq!(s.up(9), Some(1));
    assert_eq!(s.get_allocation(1), 1);
    assert_eq!(s.up(9), Some(2));
    assert_eq!(s.get_allocation(2), 1);
    assert_eq!(s.up(9), None);
    assert_eq!(s.inner.count, 1);
}
