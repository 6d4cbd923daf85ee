use los::syscall::{
    syscall, RestoreBehavior, Syscall, GET_TASK_INFO, SYSCALL_EXEC, SYSCALL_EXIT, SYSCALL_FORK, SYSCALL_READ,
    SYSCALL_WAIT_PID, SYSCALL_WIRTE, SYSCALL_YIELD,
};
use los::trap::{trap_action, RegInfo, TrapAction, TrapCause, TrapContext};
use los::user;

#[test]
fn user_requests_carry_ids_and_arguments() {
    let w = user::sys_write(1, 0x1000, 5);
    assert_eq!(w.id, 64);
    assert_eq!(w.args, [1, 0x1000, 5]);
    assert_eq!(user::sys_exit(3).args, [3, 0, 0]);
    assert_eq!(user::sys_exit(3).id, 93);
    assert_eq!(user::sys_yield().id, 124);
    assert_eq!(user::sys_fork().id, 220);
    assert_eq!(user::sys_task_info(1, 2, 3).id, 38);
    let wp = user::sys_waitpid(-1, 0x2000);
    assert_eq!(wp.id, 260);
    assert_eq!(wp.args, [usize::MAX, 0x2000, 0]);
    assert_eq!(user::sys_exec(0x3000, 7).args, [0x3000, 7, 0]);
    assert_eq!(user::sys_read(0, 0x4000, 1).id, SYSCALL_READ);
    assert_eq!(user::write(1, 2, 3).args, [1, 2, 3]);
    assert_eq!(user::open(0x10, 0x200).args, [0x10, 0x200, 0]);
    assert_eq!(user::close(4).args, [4, 0, 0]);
    assert_eq!(user::read(0, 0x10, 1).args, [0, 0x10, 1]);
    assert_eq!(user::get_task_info(1, 2, 3).args, [1, 2, 3]);
}

#[test]
fn kernel_dispatch_reaches_handlers() {
    let w = user::sys_write(1, 0x1000, 5);
    assert_eq!(syscall(w.id, w.args), Syscall::Write { fd: 1, buf: 0x1000, len: 5 });
    assert_eq!(syscall(SYSCALL_EXIT, [9, 0, 0]), Syscall::Exit { code: 9 });
    assert_eq!(syscall(SYSCALL_YIELD, [0, 0, 0]), Syscall::Yield);
    assert_eq!(syscall(SYSCALL_FORK, [0, 0, 0]), Syscall::Fork);
    assert_eq!(syscall(SYSCALL_EXEC, [7, 8, 0]), Syscall::Exec { buf: 7, len: 8 });
    assert_eq!(syscall(GET_TASK_INFO, [1, 2, 3]), Syscall::TaskInfo { id: 1, name: 2, len: 3 });
    assert_eq!(syscall(SYSCALL_WIRTE, [0, 0, 0]), Syscall::Write { fd: 0, buf: 0, len: 0 });
    assert_eq!(syscall(SYSCALL_WAIT_PID, [usize::MAX, 0x40, 0]), Syscall::WaitPid { pid: -1, exit_code: 0x40 });
    let wq = user::sys_waitpid(3, 0x80);
    assert_eq!(syscall(wq.id, wq.args), Syscall::WaitPid { pid: 3, exit_code: 0x80 });
    assert_eq!(syscall(12345, [0, 0, 0]), Syscall::Unsupported { id: 12345 });
    assert_eq!(los::syscall::sys_yield(), RestoreBehavior::Reschedule);
}

#[test]
fn trap_decisions() {
    assert_eq!(trap_action(TrapCause::UserEnvCall, false), TrapAction::Syscall);
    assert_eq!(trap_action(TrapCause::Exception(13), false), TrapAction::KillProcess);
    assert_eq!(trap_action(TrapCause::Exception(13), true), TrapAction::KernelPanic);
    assert_eq!(trap_action(TrapCause::SupervisorTimer, false), TrapAction::Reschedule);
    assert_eq!(trap_action(TrapCause::SupervisorTimer, true), TrapAction::KernelInterrupt);
    assert_eq!(trap_action(TrapCause::Interrupt(9), false), TrapAction::KillProcess);
    assert_eq!(trap_action(TrapCause::Interrupt(9), true), TrapAction::KernelInterrupt);
}

#[test]
fn trap_context_starts_zeroed() {
    let r = RegInfo::new();
    assert_eq!(r.a0, 0);
    assert_eq!(r.sp, 0);
    assert_eq!(r.t6, 0);
    let c = TrapContext::new(0x120);
    assert_eq!(c.sstatus, 0x120);
    assert_eq!(c.spec, 0);
    assert_eq!(c.info.a7, 0);
}

#[test]
fn get_char_reads_one_byte_of_input() {
    let r = los::user::get_char(0x1000);
    assert_eq!(r.id, 63);
    assert_eq!(r.args, [0, 0x1000, 1]);
}

#[test]
fn finishing_a_syscall_steps_past_ecall_and_sets_a0() {
    let mut ctx = TrapContext::new(0x22);
    ctx.spec = 0x1000;
    ctx.info.a7 = 64;
    ctx.info.a0 = 1;
    ctx.info.a1 = 0x2000;
    ctx.info.a2 = 5;
    let req = ctx.syscall_request();
    assert_eq!(syscall(req.id, req.args), Syscall::Write { fd: 1, buf: 0x2000, len: 5 });
    los::trap::finish_syscall(&mut ctx, RestoreBehavior::DirectReturn(5));
    assert_eq!(ctx.spec, 0x1004);
    assert_eq!(ctx.info.a0, 5);
    assert_eq!(ctx.info.a1, 0x2000);
    assert_eq!(ctx.sstatus, 0x22);
    los::trap::finish_syscall(&mut ctx, RestoreBehavior::Reschedule);
    assert_eq!(ctx.spec, 0x1008);
    assert_eq!(ctx.info.a0, 5);
}

#[test]
fn forked_trap_context_answers_zero() {
    let mut parent = TrapContext::new(0x22);
    parent.spec = 0x1004;
    parent.info.a0 = 99;
    parent.info.sp = 0x8000;
    let child = los::trap::fork_trap_context(&parent);
    assert_eq!(child.info.a0, 0);
    assert_eq!(child.info.sp, 0x8000);
    assert_eq!(child.spec, 0x1004);
    assert_eq!(child.sstatus, 0x22);
    assert_eq!(parent.info.a0, 99);
}
