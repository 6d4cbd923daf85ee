use vstd::prelude::*;
use crate::syscall::{RestoreBehavior, SyscallRequest};

verus! {

/// The 32 general registers of a hart, as a trap saves them.
#[derive(Clone, Copy, Debug)]
pub struct RegInfo {
    pub x0: usize,
    pub ra: usize,
    pub sp: usize,
    pub gp: usize,
    pub tp: usize,
    pub t0: usize,
    pub t1: usize,
    pub t2: usize,
    pub fp: usize,
    pub s1: usize,
    pub a0: usize,
    pub a1: usize,
    pub a2: usize,
    pub a3: usize,
    pub a4: usize,
    pub a5: usize,
    pub a6: usize,
    pub a7: usize,
    pub s2: usize,
    pub s3: usize,
    pub s4: usize,
    pub s5: usize,
    pub s6: usize,
    pub s7: usize,
    pub s8: usize,
    pub s9: usize,
    pub s10: usize,
    pub s11: usize,
    pub t3: usize,
    pub t4: usize,
    pub t5: usize,
    pub t6: usize,
}

/// The registers, every one zero.
pub open spec fn zero_regs() -> RegInfo {
    RegInfo {
        x0: 0,
        ra: 0,
        sp: 0,
        gp: 0,
        tp: 0,
        t0: 0,
        t1: 0,
        t2: 0,
        fp: 0,
        s1: 0,
        a0: 0,
        a1: 0,
        a2: 0,
        a3: 0,
        a4: 0,
        a5: 0,
        a6: 0,
        a7: 0,
        s2: 0,
        s3: 0,
        s4: 0,
        s5: 0,
        s6: 0,
        s7: 0,
        s8: 0,
        s9: 0,
        s10: 0,
        s11: 0,
        t3: 0,
        t4: 0,
        t5: 0,
        t6: 0,
    }
}

impl RegInfo {
    /// Every register zero.
    pub fn new() -> (r: Self)
        ensures
            r == zero_regs(),
    {
        Self {
            x0: 0,
            ra: 0,
            sp: 0,
            gp: 0,
            tp: 0,
            t0: 0,
            t1: 0,
            t2: 0,
            fp: 0,
            s1: 0,
            a0: 0,
            a1: 0,
            a2: 0,
            a3: 0,
            a4: 0,
            a5: 0,
            a6: 0,
            a7: 0,
            s2: 0,
            s3: 0,
            s4: 0,
            s5: 0,
            s6: 0,
            s7: 0,
            s8: 0,
            s9: 0,
            s10: 0,
            s11: 0,
            t3: 0,
            t4: 0,
            t5: 0,
            t6: 0,
        }
    }
}

/// What a trap saves: the registers, `sstatus`, and the address it was
/// taken at.
#[derive(Clone, Copy, Debug)]
pub struct TrapContext {
    pub info: RegInfo,
    pub sstatus: usize,
    pub spec: usize,
}

impl TrapContext {
    /// Registers zero, `sstatus` as read now (`sstatus`), address 0.
    pub fn new(sstatus: usize) -> (r: Self)
        ensures
            r.info == zero_regs(),
            r.sstatus == sstatus,
            r.spec == 0,
    {
        TrapContext { info: RegInfo::new(), sstatus, spec: 0 }
    }
}

/// The registers `r` with `a0` set to `v`.
pub open spec fn with_a0(r: RegInfo, v: usize) -> RegInfo {
    RegInfo { a0: v, ..r }
}

impl TrapContext {
    /// The system call the trapped `ecall` asks for: its id in `a7`, its
    /// arguments in `a0`, `a1`, `a2`.
    pub fn syscall_request(&self) -> (r: SyscallRequest)
        ensures
            r.id == self.info.a7,
            r.args == [self.info.a0, self.info.a1, self.info.a2],
    {
        SyscallRequest { id: self.info.a7, args: [self.info.a0, self.info.a1, self.info.a2] }
    }

    /// Moves the return address past the 4-byte `ecall`.
    pub fn ret_at_nxt(&mut self)
        requires
            old(self).spec + 4 <= usize::MAX,
        ensures
            final(self).spec == old(self).spec + 4,
            final(self).info == old(self).info,
            final(self).sstatus == old(self).sstatus,
    {
        self.spec = self.spec + 4;
    }

    /// Stores the result of a system call in `a0`.
    pub fn set_syscall_res(&mut self, v: usize)
        ensures
            final(self).info == with_a0(old(self).info, v),
            final(self).spec == old(self).spec,
            final(self).sstatus == old(self).sstatus,
    {
        self.info.a0 = v;
    }
}

/// The trap context a forked process starts from: the parent's, with `a0`
/// zero so that the fork answers 0 in the child.
pub fn fork_trap_context(parent: &TrapContext) -> (r: TrapContext)
    ensures
        r.info == with_a0(parent.info, 0),
        r.sstatus == parent.sstatus,
        r.spec == parent.spec,
{
    let mut ctx = *parent;
    ctx.set_syscall_res(0);
    ctx
}

/// What serving a system call leaves in the trap context: the return
/// address moves past the `ecall`, and a result to hand back directly goes
/// to `a0`; for a reschedule the registers stay as they are.
pub fn finish_syscall(ctx: &mut TrapContext, r: RestoreBehavior)
    requires
        old(ctx).spec + 4 <= usize::MAX,
    ensures
        final(ctx).spec == old(ctx).spec + 4,
        final(ctx).sstatus == old(ctx).sstatus,
        final(ctx).info == match r {
            RestoreBehavior::DirectReturn(v) => with_a0(old(ctx).info, v),
            RestoreBehavior::Reschedule => old(ctx).info,
        },
{
    ctx.ret_at_nxt();
    match r {
        RestoreBehavior::DirectReturn(v) => ctx.set_syscall_res(v),
        RestoreBehavior::Reschedule => {},
    }
}

/// Why a trap was taken.
#[derive(Clone, Copy, PartialEq, Eq, Structural, Debug)]
pub enum TrapCause {
    /// An `ecall` from user mode.
    UserEnvCall,
    /// Another exception, by its code.
    Exception(usize),
    /// The supervisor timer.
    SupervisorTimer,
    /// Another interrupt, by its code.
    Interrupt(usize),
}

/// What the trap handler does.
#[derive(Clone, Copy, PartialEq, Eq, Structural, Debug)]
pub enum TrapAction {
    /// Step past the `ecall` and serve the system call.
    Syscall,
    /// An exception in the kernel itself: stop with a panic.
    KernelPanic,
    /// End the process with exit code 255.
    KillProcess,
    /// An interrupt while in the kernel: note it, arm the timer again and go
    /// back to the kernel.
    KernelInterrupt,
    /// The process's time is up: run the next one.
    Reschedule,
}

/// The handler's decision for a trap with cause `cause`, taken from
/// supervisor mode when `from_supervisor`.
pub fn trap_action(cause: TrapCause, from_supervisor: bool) -> (r: TrapAction)
    ensures
        r == match cause {
            TrapCause::UserEnvCall => TrapAction::Syscall,
            TrapCause::Exception(_) => if from_supervisor {
                TrapAction::KernelPanic
            } else {
                TrapAction::KillProcess
            },
            TrapCause::SupervisorTimer => if from_supervisor {
                TrapAction::KernelInterrupt
            } else {
                TrapAction::Reschedule
            },
            TrapCause::Interrupt(_) => if from_supervisor {
                TrapAction::KernelInterrupt
            } else {
                TrapAction::KillProcess
            },
        },
{
    match cause {
        TrapCause::UserEnvCall => TrapAction::Syscall,
        TrapCause::Exception(_) => {
            if from_supervisor {
                TrapAction::KernelPanic
            } else {
                TrapAction::KillProcess
            }
        },
        TrapCause::SupervisorTimer => {
            if from_supervisor {
                TrapAction::KernelInterrupt
            } else {
                TrapAction::Reschedule
            }
        },
        TrapCause::Interrupt(_) => {
            if from_supervisor {
                TrapAction::KernelInterrupt
            } else {
                TrapAction::KillProcess
            }
        },
    }
}

} // verus!
