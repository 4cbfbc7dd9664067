//! System-call numbers and the decoding of a raw system call into a request.

use vstd::prelude::*;

verus! {

/// unlinkat syscall
pub const SYSCALL_UNLINKAT: usize = 35;
/// linkat syscall
pub const SYSCALL_LINKAT: usize = 37;
/// open syscall
pub const SYSCALL_OPEN: usize = 56;
/// close syscall
pub const SYSCALL_CLOSE: usize = 57;
/// read syscall
pub const SYSCALL_READ: usize = 63;
/// write syscall
pub const SYSCALL_WRITE: usize = 64;
/// fstat syscall
pub const SYSCALL_FSTAT: usize = 80;
/// exit syscall
pub const SYSCALL_EXIT: usize = 93;
/// yield syscall
pub const SYSCALL_YIELD: usize = 124;
/// setpriority syscall
pub const SYSCALL_SET_PRIORITY: usize = 140;
/// gettime syscall
pub const SYSCALL_GET_TIME: usize = 169;
/// getpid syscall
pub const SYSCALL_GETPID: usize = 172;
/// sbrk syscall
pub const SYSCALL_SBRK: usize = 214;
/// munmap syscall
pub const SYSCALL_MUNMAP: usize = 215;
/// fork syscall
pub const SYSCALL_FORK: usize = 220;
/// exec syscall
pub const SYSCALL_EXEC: usize = 221;
/// mmap syscall
pub const SYSCALL_MMAP: usize = 222;
/// waitpid syscall
pub const SYSCALL_WAITPID: usize = 260;
/// spawn syscall
pub const SYSCALL_SPAWN: usize = 400;
/// trace syscall (counted by the task statistics, not dispatched)
pub const SYSCALL_TRACE: usize = 410;

/// A system call decoded from its number and raw arguments; addresses in
/// user space stay plain numbers.
#[derive(Clone, Copy, Debug, PartialEq, Eq, Structural)]
pub enum SyscallRequest {
    Open { path: usize, flags: u32 },
    Close { fd: usize },
    Linkat { old_path: usize, new_path: usize },
    Unlinkat { path: usize },
    Read { fd: usize, buf: usize, len: usize },
    Write { fd: usize, buf: usize, len: usize },
    Fstat { fd: usize, st: usize },
    Exit { exit_code: i32 },
    Yield,
    Getpid,
    Fork,
    Exec { path: usize },
    Waitpid { pid: isize, exit_code_ptr: usize },
    GetTime { ts: usize, tz: usize },
    Mmap { start: usize, len: usize, port: usize },
    Munmap { start: usize, len: usize },
    Sbrk { size: i32 },
    Spawn { path: usize },
    SetPriority { prio: isize },
}

/// The system calls that `syscall` dispatches.
pub open spec fn supported(syscall_id: usize) -> bool {
    syscall_id == SYSCALL_OPEN || syscall_id == SYSCALL_CLOSE || syscall_id == SYSCALL_LINKAT
        || syscall_id == SYSCALL_UNLINKAT || syscall_id == SYSCALL_READ || syscall_id
        == SYSCALL_WRITE || syscall_id == SYSCALL_FSTAT || syscall_id == SYSCALL_EXIT || syscall_id
        == SYSCALL_YIELD || syscall_id == SYSCALL_GETPID || syscall_id == SYSCALL_FORK || syscall_id
        == SYSCALL_EXEC || syscall_id == SYSCALL_WAITPID || syscall_id == SYSCALL_GET_TIME
        || syscall_id == SYSCALL_MMAP || syscall_id == SYSCALL_MUNMAP || syscall_id == SYSCALL_SBRK
        || syscall_id == SYSCALL_SPAWN || syscall_id == SYSCALL_SET_PRIORITY
}

/// The request that system call `syscall_id` with arguments `args` makes.
pub open spec fn decode(syscall_id: usize, args: Seq<usize>) -> SyscallRequest
    recommends
        supported(syscall_id),
        args.len() == 4,
{
    if syscall_id == SYSCALL_OPEN {
        SyscallRequest::Open { path: args[1], flags: args[2] as u32 }
    } else if syscall_id == SYSCALL_CLOSE {
        SyscallRequest::Close { fd: args[0] }
    } else if syscall_id == SYSCALL_LINKAT {
        SyscallRequest::Linkat { old_path: args[1], new_path: args[3] }
    } else if syscall_id == SYSCALL_UNLINKAT {
        SyscallRequest::Unlinkat { path: args[1] }
    } else if syscall_id == SYSCALL_READ {
        SyscallRequest::Read { fd: args[0], buf: args[1], len: args[2] }
    } else if syscall_id == SYSCALL_WRITE {
        SyscallRequest::Write { fd: args[0], buf: args[1], len: args[2] }
    } else if syscall_id == SYSCALL_FSTAT {
        SyscallRequest::Fstat { fd: args[0], st: args[1] }
    } else if syscall_id == SYSCALL_EXIT {
        SyscallRequest::Exit { exit_code: args[0] as i32 }
    } else if syscall_id == SYSCALL_YIELD {
        SyscallRequest::Yield
    } else if syscall_id == SYSCALL_GETPID {
        SyscallRequest::Getpid
    } else if syscall_id == SYSCALL_FORK {
        SyscallRequest::Fork
    } else if syscall_id == SYSCALL_EXEC {
        SyscallRequest::Exec { path: args[0] }
    } else if syscall_id == SYSCALL_WAITPID {
        SyscallRequest::Waitpid { pid: args[0] as isize, exit_code_ptr: args[1] }
    } else if syscall_id == SYSCALL_GET_TIME {
        SyscallRequest::GetTime { ts: args[0], tz: args[1] }
    } else if syscall_id == SYSCALL_MMAP {
        SyscallRequest::Mmap { start: args[0], len: args[1], port: args[2] }
    } else if syscall_id == SYSCALL_MUNMAP {
        SyscallRequest::Munmap { start: args[0], len: args[1] }
    } else if syscall_id == SYSCALL_SBRK {
        SyscallRequest::Sbrk { size: args[0] as i32 }
    } else if syscall_id == SYSCALL_SPAWN {
        SyscallRequest::Spawn { path: args[0] }
    } else {
        SyscallRequest::SetPriority { prio: args[0] as isize }
    }
}

/// Whether `syscall` dispatches system call `syscall_id`.
pub fn is_supported_syscall(syscall_id: usize) -> (r: bool)
    ensures
        r == supported(syscall_id),
{
    syscall_id == SYSCALL_OPEN || syscall_id == SYSCALL_CLOSE || syscall_id == SYSCALL_LINKAT
        || syscall_id == SYSCALL_UNLINKAT || syscall_id == SYSCALL_READ || syscall_id
        == SYSCALL_WRITE || syscall_id == SYSCALL_FSTAT || syscall_id == SYSCALL_EXIT || syscall_id
        == SYSCALL_YIELD || syscall_id == SYSCALL_GETPID || syscall_id == SYSCALL_FORK || syscall_id
        == SYSCALL_EXEC || syscall_id == SYSCALL_WAITPID || syscall_id == SYSCALL_GET_TIME
        || syscall_id == SYSCALL_MMAP || syscall_id == SYSCALL_MUNMAP || syscall_id == SYSCALL_SBRK
        || syscall_id == SYSCALL_SPAWN || syscall_id == SYSCALL_SET_PRIORITY
}

/// handle syscall exception with `syscall_id` and other arguments: the
/// request the system call makes, for the kernel to carry out
pub fn syscall(syscall_id: usize, args: [usize; 4]) -> (r: SyscallRequest)
    requires
        supported(syscall_id),
    ensures
        r == decode(syscall_id, args@),
{
    if syscall_id == SYSCALL_OPEN {
        SyscallRequest::Open { path: args[1], flags: args[2] as u32 }
    } else if syscall_id == SYSCALL_CLOSE {
        SyscallRequest::Close { fd: args[0] }
    } else if syscall_id == SYSCALL_LINKAT {
        SyscallRequest::Linkat { old_path: args[1], new_path: args[3] }
    } else if syscall_id == SYSCALL_UNLINKAT {
        SyscallRequest::Unlinkat { path: args[1] }
    } else if syscall_id == SYSCALL_READ {
        SyscallRequest::Read { fd: args[0], buf: args[1], len: args[2] }
    } else if syscall_id == SYSCALL_WRITE {
        SyscallRequest::Write { fd: args[0], buf: args[1], len: args[2] }
    } else if syscall_id == SYSCALL_FSTAT {
        SyscallRequest::Fstat { fd: args[0], st: args[1] }
    } else if syscall_id == SYSCALL_EXIT {
        SyscallRequest::Exit { exit_code: args[0] as i32 }
    } else if syscall_id == SYSCALL_YIELD {
        SyscallRequest::Yield
    } else if syscall_id == SYSCALL_GETPID {
        SyscallRequest::Getpid
    } else if syscall_id == SYSCALL_FORK {
        SyscallRequest::Fork
    } else if syscall_id == SYSCALL_EXEC {
        SyscallRequest::Exec { path: args[0] }
    } else if syscall_id == SYSCALL_WAITPID {
        SyscallRequest::Waitpid { pid: args[0] as isize, exit_code_ptr: args[1] }
    } else if syscall_id == SYSCALL_GET_TIME {
        SyscallRequest::GetTime { ts: args[0], tz: args[1] }
    } else if syscall_id == SYSCALL_MMAP {
        SyscallRequest::Mmap { start: args[0], len: args[1], port: args[2] }
    } else if syscall_id == SYSCALL_MUNMAP {
        SyscallRequest::Munmap { start: args[0], len: args[1] }
    } else if syscall_id == SYSCALL_SBRK {
        SyscallRequest::Sbrk { size: args[0] as i32 }
    } else if syscall_id == SYSCALL_SPAWN {
        SyscallRequest::Spawn { path: args[0] }
    } else {
        SyscallRequest::SetPriority { prio: args[0] as isize }
    }
}

/// Each dispatched system call takes its arguments from the registers its
/// calling convention assigns: a file descriptor, pid, start address, exit
/// code, size or priority from the first; a path from the second for `open`,
/// `linkat` and `unlinkat` (with the new path of `linkat` from the fourth)
/// and from the first for `exec` and `spawn`; buffers, lengths and
/// pointers after the first.
pub proof fn lemma_syscall_arguments(args: Seq<usize>)
    requires
        args.len() == 4,
    ensures
        decode(SYSCALL_OPEN, args) == (SyscallRequest::Open { path: args[1], flags: args[2] as u32 }),
        decode(SYSCALL_CLOSE, args) == (SyscallRequest::Close { fd: args[0] }),
        decode(SYSCALL_LINKAT, args) == (SyscallRequest::Linkat { old_path: args[1], new_path: args[3] }),
        decode(SYSCALL_UNLINKAT, args) == (SyscallRequest::Unlinkat { path: args[1] }),
        decode(SYSCALL_READ, args) == (SyscallRequest::Read { fd: args[0], buf: args[1], len: args[2] }),
        decode(SYSCALL_WRITE, args) == (SyscallRequest::Write { fd: args[0], buf: args[1], len: args[2] }),
        decode(SYSCALL_FSTAT, args) == (SyscallRequest::Fstat { fd: args[0], st: args[1] }),
        decode(SYSCALL_EXIT, args) == (SyscallRequest::Exit { exit_code: args[0] as i32 }),
        decode(SYSCALL_YIELD, args) == SyscallRequest::Yield,
        decode(SYSCALL_GETPID, args) == SyscallRequest::Getpid,
        decode(SYSCALL_FORK, args) == SyscallRequest::Fork,
        decode(SYSCALL_EXEC, args) == (SyscallRequest::Exec { path: args[0] }),
        decode(SYSCALL_WAITPID, args) == (SyscallRequest::Waitpid {
            pid: args[0] as isize,
            exit_code_ptr: args[1],
        }),
        decode(SYSCALL_GET_TIME, args) == (SyscallRequest::GetTime { ts: args[0], tz: args[1] }),
        decode(SYSCALL_MMAP, args) == (SyscallRequest::Mmap {
            start: args[0],
            len: args[1],
            port: args[2],
        }),
        decode(SYSCALL_MUNMAP, args) == (SyscallRequest::Munmap { start: args[0], len: args[1] }),
        decode(SYSCALL_SBRK, args) == (SyscallRequest::Sbrk { size: args[0] as i32 }),
        decode(SYSCALL_SPAWN, args) == (SyscallRequest::Spawn { path: args[0] }),
        decode(SYSCALL_SET_PRIORITY, args) == (SyscallRequest::SetPriority { prio: args[0] as isize }),
        !supported(SYSCALL_TRACE),
        supported(SYSCALL_SPAWN),
{
}

} // verus!
