use rcore_os::manager::{ReadyTask, TaskManager, BIG_STRIDE};
use rcore_os::stat::TaskStatistics;
use rcore_os::syscall::{
    is_supported_syscall, syscall, SyscallRequest, SYSCALL_EXIT, SYSCALL_GET_TIME, SYSCALL_TRACE,
    SYSCALL_WRITE, SYSCALL_YIELD,
};

#[test]
fn stats_count_and_get() {
    let mut s = TaskStatistics::zero_init();
    assert_eq!(s.get_count(SYSCALL_WRITE), 0);
    s.count(SYSCALL_WRITE);
    s.count(SYSCALL_WRITE);
    s.count(SYSCALL_EXIT);
    s.count(SYSCALL_TRACE);
    s.count(SYSCALL_YIELD);
    s.count(SYSCALL_GET_TIME);
    assert_eq!(s.get_count(SYSCALL_WRITE), 2);
    assert_eq!(s.get_count(SYSCALL_EXIT), 1);
    assert_eq!(s.get_count(SYSCALL_TRACE), 1);
    assert_eq!(s.get_count(SYSCALL_YIELD), 1);
    assert_eq!(s.get_count(SYSCALL_GET_TIME), 1);
    assert_eq!(s.get_count(1), 0);
}

#[test]
fn fetch_takes_least_stride() {
    let mut m = TaskManager::new();
    m.add(ReadyTask { id: 1, stride: 50, prio: 16 });
    m.add(ReadyTask { id: 2, stride: 10, prio: 2 });
    m.add(ReadyTask { id: 3, stride: 30, prio: 4 });
    m.add(ReadyTask { id: 4, stride: 10, prio: 8 });
    let t = m.fetch().unwrap();
    assert_eq!(t.id, 2);
    assert_eq!(t.stride, 10 + BIG_STRIDE / 2 + 1);
    // the last task takes the freed place
    let t = m.fetch().unwrap();
    assert_eq!(t.id, 4);
    assert_eq!(t.stride, 10 + BIG_STRIDE / 8 + 1);
    let t = m.fetch().unwrap();
    assert_eq!(t.id, 3);
    let t = m.fetch().unwrap();
    assert_eq!(t.id, 1);
    assert_eq!(t.stride, 50 + BIG_STRIDE / 16 + 1);
}

#[test]
fn stride_step_negative_priority() {
    let mut m = TaskManager::new();
    m.add(ReadyTask { id: 9, stride: 0, prio: -3 });
    let t = m.fetch().unwrap();
    assert_eq!(t.stride, BIG_STRIDE / -3 + 1);
}

#[test]
fn syscall_decoding() {
    assert_eq!(syscall(64, [1, 2000, 12, 0]), SyscallRequest::Write { fd: 1, buf: 2000, len: 12 });
    assert_eq!(syscall(56, [0, 300, 0x201, 0]), SyscallRequest::Open { path: 300, flags: 0x201 });
    assert_eq!(syscall(37, [0, 10, 0, 20]), SyscallRequest::Linkat { old_path: 10, new_path: 20 });
    assert_eq!(syscall(93, [usize::MAX, 0, 0, 0]), SyscallRequest::Exit { exit_code: -1 });
    assert_eq!(syscall(260, [usize::MAX, 8, 0, 0]), SyscallRequest::Waitpid { pid: -1, exit_code_ptr: 8 });
    assert_eq!(syscall(140, [16, 0, 0, 0]), SyscallRequest::SetPriority { prio: 16 });
    assert_eq!(syscall(124, [0, 0, 0, 0]), SyscallRequest::Yield);
    assert!(is_supported_syscall(400));
    assert!(!is_supported_syscall(410));
    assert!(!is_supported_syscall(0));
}

#[test]
fn fetchable_only_when_a_task_can_run() {
    let mut m = TaskManager::new();
    assert!(m.is_fetchable());
    m.add(ReadyTask { id: 1, stride: isize::MAX, prio: 2 });
    assert!(!m.is_fetchable());
    m.add(ReadyTask { id: 2, stride: 5, prio: 0 });
    assert!(!m.is_fetchable());
    m.add(ReadyTask { id: 3, stride: 4, prio: 2 });
    assert!(m.is_fetchable());
    m.add(ReadyTask { id: 4, stride: isize::MAX - 10, prio: 3 });
    assert!(m.is_fetchable());
    let mut n = TaskManager::new();
    n.add(ReadyTask { id: 5, stride: isize::MAX - 10, prio: 3 });
    assert!(!n.is_fetchable());
}

#[test]
fn equal_strides_leave_in_arrival_order() {
    let mut m = TaskManager::new();
    m.add(ReadyTask { id: 1, stride: 7, prio: 2 });
    m.add(ReadyTask { id: 2, stride: 7, prio: 2 });
    m.add(ReadyTask { id: 3, stride: 7, prio: 2 });
    assert_eq!(m.fetch().unwrap().id, 1);
    assert_eq!(m.fetch().unwrap().id, 2);
    assert_eq!(m.fetch().unwrap().id, 3);
    assert_eq!(m.fetch(), None);
}
