use vstd::prelude::*;

verus! {

/// Write bytes to a file.
pub const SYSCALL_WIRTE: usize = 64;

/// End the calling process.
pub const SYSCALL_EXIT: usize = 93;

/// Give up the processor.
pub const SYSCALL_YIELD: usize = 124;

/// Copy the calling process.
pub const SYSCALL_FORK: usize = 220;

/// Wait for a child process to end.
pub const SYSCALL_WAIT_PID: usize = 260;

/// Replace the calling process's program.
pub const SYSCALL_EXEC: usize = 221;

/// Read the calling process's id and name.
pub const GET_TASK_INFO: usize = 38;

/// Read bytes from a file.
pub const SYSCALL_READ: usize = 63;

/// Open a file.
pub const SYSCALL_OPEN: usize = 56;

/// Close a file.
pub const SYSCALL_CLOSE: usize = 57;

/// A system call as the `ecall` instruction carries it: its id in `a7`
/// and its arguments in `a0`, `a1`, `a2`.
#[derive(Clone, Copy, Debug)]
pub struct SyscallRequest {
    pub id: usize,
    pub args: [usize; 3],
}

/// What the kernel does for a system call.
#[derive(Clone, Copy, PartialEq, Eq, Structural, Debug)]
pub enum Syscall {
    /// Write `len` bytes at user address `buf` to file `fd`.
    Write { fd: usize, buf: usize, len: usize },
    /// End the calling process with `code`.
    Exit { code: usize },
    /// Give up the processor.
    Yield,
    /// Copy the calling process.
    Fork,
    /// Wait for child `pid` (-1: any child), storing its exit code at user
    /// address `exit_code` (0: nowhere).
    WaitPid { pid: isize, exit_code: usize },
    /// Run the program named by the `len` bytes at user address `buf`.
    Exec { buf: usize, len: usize },
    /// Read up to `len` bytes from file `fd` to user address `buf`.
    Read { fd: usize, buf: usize, len: usize },
    /// Store the calling process's id at user address `id` and up to `len`
    /// bytes of its name at user address `name`.
    TaskInfo { id: usize, name: usize, len: usize },
    /// An id the kernel does not serve: the caller is ended with code 1.
    Unsupported { id: usize },
}

/// How the kernel goes back after a system call: to the caller with a
/// result in `a0`, or through the scheduler.
#[derive(Clone, Copy, PartialEq, Eq, Structural, Debug)]
pub enum RestoreBehavior {
    DirectReturn(usize),
    Reschedule,
}

/// The call that id `id` and arguments `args` name.
pub open spec fn decode(id: usize, args: [usize; 3]) -> Syscall {
    if id == SYSCALL_WIRTE {
        Syscall::Write { fd: args[0], buf: args[1], len: args[2] }
    } else if id == SYSCALL_EXIT {
        Syscall::Exit { code: args[0] }
    } else if id == SYSCALL_YIELD {
        Syscall::Yield
    } else if id == SYSCALL_FORK {
        Syscall::Fork
    } else if id == SYSCALL_WAIT_PID {
        Syscall::WaitPid { pid: args[0] as isize, exit_code: args[1] }
    } else if id == SYSCALL_EXEC {
        Syscall::Exec { buf: args[0], len: args[1] }
    } else if id == SYSCALL_READ {
        Syscall::Read { fd: args[0], buf: args[1], len: args[2] }
    } else if id == GET_TASK_INFO {
        Syscall::TaskInfo { id: args[0], name: args[1], len: args[2] }
    } else {
        Syscall::Unsupported { id }
    }
}

/// The kernel's dispatch of a system call: which handler runs, with which
/// arguments.
pub fn syscall(id: usize, args: [usize; 3]) -> (r: Syscall)
    ensures
        r == decode(id, args),
{
    if id == SYSCALL_WIRTE {
        Syscall::Write { fd: args[0], buf: args[1], len: args[2] }
    } else if id == SYSCALL_EXIT {
        Syscall::Exit { code: args[0] }
    } else if id == SYSCALL_YIELD {
        Syscall::Yield
    } else if id == SYSCALL_FORK {
        Syscall::Fork
    } else if id == SYSCALL_WAIT_PID {
        Syscall::WaitPid { pid: args[0] as isize, exit_code: args[1] }
    } else if id == SYSCALL_EXEC {
        Syscall::Exec { buf: args[0], len: args[1] }
    } else if id == SYSCALL_READ {
        Syscall::Read { fd: args[0], buf: args[1], len: args[2] }
    } else if id == GET_TASK_INFO {
        Syscall::TaskInfo { id: args[0], name: args[1], len: args[2] }
    } else {
        Syscall::Unsupported { id }
    }
}

/// Giving up the processor goes through the scheduler.
pub fn sys_yield() -> (r: RestoreBehavior)
    ensures
        r == RestoreBehavior::Reschedule,
{
    RestoreBehavior::Reschedule
}

} // verus!
