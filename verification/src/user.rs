use vstd::prelude::*;
use crate::syscall::{
    decode, Syscall, SyscallRequest, GET_TASK_INFO, SYSCALL_CLOSE, SYSCALL_EXEC, SYSCALL_EXIT, SYSCALL_FORK,
    SYSCALL_OPEN, SYSCALL_READ, SYSCALL_WAIT_PID, SYSCALL_WIRTE, SYSCALL_YIELD,
};

verus! {

/// The request that writes `len` bytes at address `buf` to file `fd`.
pub fn sys_write(fd: usize, buf: usize, len: usize) -> (r: SyscallRequest)
    ensures
        r == (SyscallRequest { id: SYSCALL_WIRTE, args: [fd, buf, len] }),
{
    SyscallRequest { id: SYSCALL_WIRTE, args: [fd, buf, len] }
}

/// The request that ends the process with `exit_code`.
pub fn sys_exit(exit_code: usize) -> (r: SyscallRequest)
    ensures
        r == (SyscallRequest { id: SYSCALL_EXIT, args: [exit_code, 0, 0] }),
{
    SyscallRequest { id: SYSCALL_EXIT, args: [exit_code, 0, 0] }
}

/// The request that gives up the processor.
pub fn sys_yield() -> (r: SyscallRequest)
    ensures
        r == (SyscallRequest { id: SYSCALL_YIELD, args: [0, 0, 0] }),
{
    SyscallRequest { id: SYSCALL_YIELD, args: [0, 0, 0] }
}

/// The request that stores the process's id at address `id` and at most
/// `len` bytes of its name at address `name`.
pub fn sys_task_info(id: usize, name: usize, len: usize) -> (r: SyscallRequest)
    ensures
        r == (SyscallRequest { id: GET_TASK_INFO, args: [id, name, len] }),
{
    SyscallRequest { id: GET_TASK_INFO, args: [id, name, len] }
}

/// The request that waits for child `pid` (-1: any child) and stores its
/// exit code at address `exit_code` (0: nowhere); `pid` goes in its two's
/// complement form.
pub fn sys_waitpid(pid: isize, exit_code: usize) -> (r: SyscallRequest)
    ensures
        r == (SyscallRequest { id: SYSCALL_WAIT_PID, args: [pid as usize, exit_code, 0] }),
{
    SyscallRequest { id: SYSCALL_WAIT_PID, args: [pid as usize, exit_code, 0] }
}

/// The request that copies the process.
pub fn sys_fork() -> (r: SyscallRequest)
    ensures
        r == (SyscallRequest { id: SYSCALL_FORK, args: [0, 0, 0] }),
{
    SyscallRequest { id: SYSCALL_FORK, args: [0, 0, 0] }
}

/// The request that runs the program whose name is the `len` bytes at
/// address `path`.
pub fn sys_exec(path: usize, len: usize) -> (r: SyscallRequest)
    ensures
        r == (SyscallRequest { id: SYSCALL_EXEC, args: [path, len, 0] }),
{
    SyscallRequest { id: SYSCALL_EXEC, args: [path, len, 0] }
}

/// The request that reads at most `len` bytes of file `fd` to address
/// `buf`.
pub fn sys_read(fd: usize, buf: usize, len: usize) -> (r: SyscallRequest)
    ensures
        r == (SyscallRequest { id: SYSCALL_READ, args: [fd, buf, len] }),
{
    SyscallRequest { id: SYSCALL_READ, args: [fd, buf, len] }
}

/// The request that opens the file whose name starts at address `path`
/// with flag bits `flags`.
pub fn sys_open(path: usize, flags: u32) -> (r: SyscallRequest)
    ensures
        r == (SyscallRequest { id: SYSCALL_OPEN, args: [path, flags as usize, 0] }),
{
    SyscallRequest { id: SYSCALL_OPEN, args: [path, flags as usize, 0] }
}

/// The request that closes file `fd`.
pub fn sys_close(fd: usize) -> (r: SyscallRequest)
    ensures
        r == (SyscallRequest { id: SYSCALL_CLOSE, args: [fd, 0, 0] }),
{
    SyscallRequest { id: SYSCALL_CLOSE, args: [fd, 0, 0] }
}

/// The file a process reads its input from.
pub const STDIN: usize = 0;

/// The file a process writes its output to.
pub const STDOUT: usize = 1;

/// The request that reads one byte of input to address `buf`: the byte
/// `get_char` gives is what this request leaves there.
pub fn get_char(buf: usize) -> (r: SyscallRequest)
    ensures
        r == (SyscallRequest { id: SYSCALL_READ, args: [STDIN, buf, 1] }),
{
    sys_read(STDIN, buf, 1)
}

/// The request that writes the `len` bytes at address `buf` to file `fd`
/// (`sys_write`).
pub fn write(fd: usize, buf: usize, len: usize) -> (r: SyscallRequest)
    ensures
        r == (SyscallRequest { id: SYSCALL_WIRTE, args: [fd, buf, len] }),
{
    sys_write(fd, buf, len)
}

/// The request that opens the file whose name starts at address `path`
/// with flag bits `flags` (`sys_open`).
pub fn open(path: usize, flags: u32) -> (r: SyscallRequest)
    ensures
        r == (SyscallRequest { id: SYSCALL_OPEN, args: [path, flags as usize, 0] }),
{
    sys_open(path, flags)
}

/// The request that closes file `fd` (`sys_close`).
pub fn close(fd: usize) -> (r: SyscallRequest)
    ensures
        r == (SyscallRequest { id: SYSCALL_CLOSE, args: [fd, 0, 0] }),
{
    sys_close(fd)
}

/// The request that reads at most `len` bytes of file `fd` to address
/// `buf` (`sys_read`).
pub fn read(fd: usize, buf: usize, len: usize) -> (r: SyscallRequest)
    ensures
        r == (SyscallRequest { id: SYSCALL_READ, args: [fd, buf, len] }),
{
    sys_read(fd, buf, len)
}

/// The request that stores the process's id at address `id` and at most
/// `len` bytes of its name at address `name` (`sys_task_info`).
pub fn get_task_info(id: usize, name: usize, len: usize) -> (r: SyscallRequest)
    ensures
        r == (SyscallRequest { id: GET_TASK_INFO, args: [id, name, len] }),
{
    sys_task_info(id, name, len)
}

/// Every request of the user library that the kernel serves reaches the
/// handler it names with the arguments it was given: writes, exits,
/// yields, forks, waits, execs, reads and task-info requests. Opening and
/// closing have no handler in the kernel's dispatch, which ends the caller.
pub proof fn lemma_requests_reach_handlers(fd: usize, buf: usize, len: usize, code: usize, pid: isize, flags: u32)
    ensures
        decode(SYSCALL_WIRTE, [fd, buf, len]) == (Syscall::Write { fd, buf, len }),
        decode(SYSCALL_EXIT, [code, 0, 0]) == (Syscall::Exit { code }),
        decode(SYSCALL_YIELD, [0, 0, 0]) == Syscall::Yield,
        decode(SYSCALL_FORK, [0, 0, 0]) == Syscall::Fork,
        decode(SYSCALL_EXEC, [buf, len, 0]) == (Syscall::Exec { buf, len }),
        decode(SYSCALL_READ, [fd, buf, len]) == (Syscall::Read { fd, buf, len }),
        decode(GET_TASK_INFO, [fd, buf, len]) == (Syscall::TaskInfo { id: fd, name: buf, len }),
        decode(SYSCALL_WAIT_PID, [pid as usize, buf, 0]) == (Syscall::WaitPid { pid, exit_code: buf }),
        decode(SYSCALL_OPEN, [buf, flags as usize, 0]) == (Syscall::Unsupported { id: SYSCALL_OPEN }),
        decode(SYSCALL_CLOSE, [fd, 0, 0]) == (Syscall::Unsupported { id: SYSCALL_CLOSE }),
{
    assert((pid as usize) as isize == pid) by (bit_vector);
}

} // verus!
