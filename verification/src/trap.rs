//! Trap causes and the saved user context.
use vstd::prelude::*;
use crate::register::{SAtp, SCause, TrapCauseLoaderImpl, cause_of, satp_of};
use crate::syscall::{SyscallParam, SyscallId, SyscallWork, syscall_id_of};
use crate::ecall::EcallRequest;

verus! {

/// Synchronous trap causes.
#[derive(Debug, PartialEq, Eq, Structural)]
pub enum Exception {
    Syscall,
    Unsupported(usize),
}

/// Asynchronous trap causes.
#[derive(Debug, PartialEq, Eq, Structural)]
pub enum Interrupt {
    Timer,
    Unsupported(usize),
}

/// Why the processor trapped into the kernel.
#[derive(Debug, PartialEq, Eq, Structural)]
pub enum TrapCause {
    Exeption(Exception),
    Interrupt(Interrupt),
}

/// Decodes the cause of a trap.
pub trait TrapCauseLoader {
    /// The cause held in the `scause` value read on trap entry: supervisor
    /// timer interrupts have code 5, environment calls from user mode code
    /// 8; every other code is reported as unsupported.
    fn load(scause: &SCause) -> (r: TrapCause)
        ensures
            r == cause_of(scause.value()),
    ;
}

impl TrapCause {
    /// The cause of the current trap, decoded from the `scause` value read
    /// on trap entry.
    pub fn get_current_cause(scause: &SCause) -> (r: Self)
        ensures
            r == cause_of(scause.value()),
    {
        TrapCauseLoaderImpl::load(scause)
    }
}

/// The registers saved on a trap: `x0` to `x31`, then `sepc` (32), the
/// kernel's `satp` (33) and the user's `satp` (34).
pub struct TrapContextStoreImpl {
    ctx: [u64; 35],
}

impl TrapContextStoreImpl {
    /// The saved words.
    pub closed spec fn view(&self) -> Seq<u64> {
        self.ctx@
    }

    /// The saved registers number 35.
    pub proof fn lemma_len(&self)
        ensures
            self.view().len() == 35,
    {
    }

    /// A context with every word clear.
    pub fn default() -> (r: Self)
        ensures
            r.view() == Seq::new(35, |i: int| 0u64),
    {
        let r = TrapContextStoreImpl { ctx: [0; 35] };
        assert(r.view() =~= Seq::new(35, |i: int| 0u64));
        r
    }

    /// Stores the `satp` of root table `root`, for user mode or for the
    /// kernel.
    pub fn set_page_table_root_ppn(&mut self, root: u64, is_user: bool)
        ensures
            final(self).view() == old(self).view().update(
                if is_user { 34 } else { 33 },
                satp_of(root as usize) as u64,
            ),
    {
        let satp: SAtp = SAtp::from_ppn(root as usize);
        if is_user {
            self.ctx[34] = satp.bits as u64;
        } else {
            self.ctx[33] = satp.bits as u64;
        }
        assert(self.view() =~= old(self).view().update(
            if is_user { 34 } else { 33 },
            satp_of(root as usize) as u64,
        ));
    }

    /// Sets the stack pointer (`x2`).
    pub fn set_sp(&mut self, sp: u64)
        ensures
            final(self).view() == old(self).view().update(2, sp),
    {
        self.ctx[2] = sp;
        assert(self.view() =~= old(self).view().update(2, sp));
    }

    /// Sets the return address of the trap (`sepc`).
    pub fn set_pc(&mut self, pc: u64)
        ensures
            final(self).view() == old(self).view().update(32, pc),
    {
        self.ctx[32] = pc;
        assert(self.view() =~= old(self).view().update(32, pc));
    }

    /// The saved program counter (`sepc`).
    pub fn get_pc(&self) -> (r: u64)
        ensures
            r == self.view()[32],
    {
        self.ctx[32]
    }

    /// Steps past the 4-byte `ecall` instruction that trapped.
    pub fn mv_pc_to_next(&mut self)
        requires
            old(self).view()[32] + 4 <= u64::MAX,
        ensures
            final(self).view() == old(self).view().update(32, (old(self).view()[32] + 4) as u64),
    {
        self.ctx[32] = self.ctx[32] + 4;
        assert(self.view() =~= old(self).view().update(32, (old(self).view()[32] + 4) as u64));
    }

    /// The system call in the saved registers: arguments in `a0` to `a3`
    /// (`x10` to `x13`), number in `a7` (`x17`).
    pub fn get_syscall_param(&self) -> (r: SyscallParam)
        ensures
            r.params@ == seq![
                self.view()[10] as usize,
                self.view()[11] as usize,
                self.view()[12] as usize,
                self.view()[13] as usize,
            ],
            r.syscall_id == syscall_id_of(self.view()[17] as usize),
    {
        let r = SyscallParam {
            params: [
                self.ctx[10] as usize,
                self.ctx[11] as usize,
                self.ctx[12] as usize,
                self.ctx[13] as usize,
            ],
            syscall_id: SyscallId::from(self.ctx[17] as usize),
        };
        assert(r.params@ =~= seq![
            self.view()[10] as usize,
            self.view()[11] as usize,
            self.view()[12] as usize,
            self.view()[13] as usize,
        ]);
        r
    }

    /// Stores a system call's return code in `a0` (`x10`).
    pub fn set_syscall_return_code(&mut self, code: usize)
        ensures
            final(self).view() == old(self).view().update(10, code as u64),
    {
        self.ctx[10] = code as u64;
        assert(self.view() =~= old(self).view().update(10, code as u64));
    }
}

/// The registers a task saved when it trapped.
pub trait TrapContextStore {
    /// The saved words: `x0` to `x31`, then `sepc` (32), the kernel's `satp`
    /// (33) and the user's `satp` (34).
    spec fn registers(&self) -> Seq<u64>;

    /// Stores the user's and the kernel's root tables.
    fn set_page_table_root_ppn(&mut self, root_user: u64, root_kernel: u64)
        ensures
            final(self).registers() == old(self).registers().update(34, satp_of(root_user as usize) as u64).update(
                33,
                satp_of(root_kernel as usize) as u64,
            ),
    ;

    /// Sets the stack pointer.
    fn set_sp(&mut self, sp: u64)
        ensures
            final(self).registers() == old(self).registers().update(2, sp),
    ;

    /// Sets the address the trap returns to.
    fn set_pc(&mut self, pc: u64)
        ensures
            final(self).registers() == old(self).registers().update(32, pc),
    ;

    /// Steps past the `ecall` instruction.
    fn mv_pc_to_next(&mut self)
        requires
            old(self).registers()[32] + 4 <= u64::MAX,
        ensures
            final(self).registers() == old(self).registers().update(32, (old(self).registers()[32] + 4) as u64),
    ;

    /// The system call the task made.
    fn get_syscall_param(&self) -> (r: SyscallParam)
        ensures
            r.params@ == seq![
                self.registers()[10] as usize,
                self.registers()[11] as usize,
                self.registers()[12] as usize,
                self.registers()[13] as usize,
            ],
            r.syscall_id == syscall_id_of(self.registers()[17] as usize),
    ;

    /// Stores a system call's return code.
    fn set_syscall_return_code(&mut self, code: usize)
        ensures
            final(self).registers() == old(self).registers().update(10, code as u64),
    ;
}

/// The context saved when a task traps.
pub struct TrapContext {
    store: TrapContextStoreImpl,
}

impl TrapContext {
    /// The saved words.
    pub closed spec fn view(&self) -> Seq<u64> {
        self.store.view()
    }

    /// The saved registers number 35.
    pub proof fn lemma_len(&self)
        ensures
            self.view().len() == 35,
    {
        self.store.lemma_len();
    }

    /// A context with every word clear.
    pub fn default() -> (r: Self)
        ensures
            r.view() == Seq::new(35, |i: int| 0u64),
    {
        TrapContext { store: TrapContextStoreImpl::default() }
    }

    /// The saved program counter.
    pub fn get_pc(&self) -> (r: u64)
        ensures
            r == self.view()[32],
    {
        self.store.get_pc()
    }

    /// A context holding the same words.
    pub fn duplicate(&self) -> (r: Self)
        ensures
            r.view() == self.view(),
    {
        TrapContext { store: TrapContextStoreImpl { ctx: self.store.ctx } }
    }

    /// Saved word `i`, as the trap entry lays it out in memory.
    pub fn word(&self, i: usize) -> (r: u64)
        requires
            i < 35,
        ensures
            r == self.view()[i as int],
    {
        self.store.ctx[i]
    }

    /// Replaces saved word `i`.
    pub fn set_word(&mut self, i: usize, v: u64)
        requires
            i < 35,
        ensures
            final(self).view() == old(self).view().update(i as int, v),
    {
        self.store.ctx[i] = v;
        assert(self.view() =~= old(self).view().update(i as int, v));
    }
}

impl TrapContextStore for TrapContext {
    open spec fn registers(&self) -> Seq<u64> {
        self.view()
    }

    fn set_page_table_root_ppn(&mut self, root_user: u64, root_kernel: u64)
    {
        self.store.set_page_table_root_ppn(root_user, true);
        self.store.set_page_table_root_ppn(root_kernel, false);
    }

    fn set_sp(&mut self, sp: u64)
    {
        self.store.set_sp(sp)
    }

    fn set_pc(&mut self, pc: u64)
    {
        self.store.set_pc(pc)
    }

    fn mv_pc_to_next(&mut self)
    {
        self.store.mv_pc_to_next()
    }

    fn get_syscall_param(&self) -> (r: SyscallParam)
    {
        self.store.get_syscall_param()
    }

    fn set_syscall_return_code(&mut self, code: usize)
    {
        self.store.set_syscall_return_code(code)
    }
}

/// What the kernel does about a trap.
#[derive(Debug, PartialEq, Eq, Structural)]
pub enum TrapAction {
    /// Carry out the system call's work, store its result as the return
    /// code, step past `ecall` (see `finish_syscall`) and resume the task.
    Syscall(SyscallWork),
    /// The task exited: stop it and run the next task.
    TaskExit,
    /// Unknown system call number: stop the task and run the next one.
    UnsupportedSyscall(usize),
    /// Unknown exception code: stop the task and run the next one.
    UnsupportedException(usize),
    /// Unknown interrupt code: stop the task and run the next one.
    UnsupportedInterrupt(usize),
    /// Timer tick: arm the timer again and run the next task.
    Timer { next_timer_ms: u64 },
}

/// The action for `cause`, given the saved registers `ctx`.
pub open spec fn trap_action_of(cause: TrapCause, ctx: Seq<u64>) -> TrapAction {
    match cause {
        TrapCause::Exeption(Exception::Syscall) => match syscall_id_of(ctx[17] as usize) {
            SyscallId::Exit => TrapAction::TaskExit,
            SyscallId::Unsupported(v) => TrapAction::UnsupportedSyscall(v),
            SyscallId::Putchar => TrapAction::Syscall(
                SyscallWork::Ecall(
                    EcallRequest { op_code: 1, a0: ((ctx[10] as usize) % 256) as usize, a1: 0, a2: 0 },
                ),
            ),
            SyscallId::GetNow => TrapAction::Syscall(SyscallWork::ReadTimeMs),
        },
        TrapCause::Exeption(Exception::Unsupported(v)) => TrapAction::UnsupportedException(v),
        TrapCause::Interrupt(Interrupt::Timer) => TrapAction::Timer { next_timer_ms: 500 },
        TrapCause::Interrupt(Interrupt::Unsupported(v)) => TrapAction::UnsupportedInterrupt(v),
    }
}

/// The system calls by the number in `a7` (word 17): 1 prints the low
/// byte of `a0` (word 10) through the console-putchar environment call
/// (operation 1), 2 ends the task, 3 reads the clock, and any other number
/// is refused as unsupported. Timer interrupts re-arm the timer for
/// 500 ms; other exceptions and interrupts (code `v`) are refused by their
/// code.
pub proof fn lemma_trap_actions(ctx: Seq<u64>, v: usize)
    ensures
        (ctx[17] as usize) == 1 ==> trap_action_of(TrapCause::Exeption(Exception::Syscall), ctx) == TrapAction::Syscall(
            SyscallWork::Ecall((EcallRequest { op_code: 1, a0: ((ctx[10] as usize) % 256) as usize, a1: 0, a2: 0 })),
        ),
        (ctx[17] as usize) == 2 ==> trap_action_of(TrapCause::Exeption(Exception::Syscall), ctx) == TrapAction::TaskExit,
        (ctx[17] as usize) == 3 ==> trap_action_of(TrapCause::Exeption(Exception::Syscall), ctx) == TrapAction::Syscall(
            SyscallWork::ReadTimeMs,
        ),
        !(1 <= (ctx[17] as usize) <= 3) ==> trap_action_of(TrapCause::Exeption(Exception::Syscall), ctx)
            == TrapAction::UnsupportedSyscall(ctx[17] as usize),
        trap_action_of(TrapCause::Interrupt(Interrupt::Timer), ctx) == (TrapAction::Timer { next_timer_ms: 500 }),
        trap_action_of(TrapCause::Exeption(Exception::Unsupported(v)), ctx) == TrapAction::UnsupportedException(v),
        trap_action_of(TrapCause::Interrupt(Interrupt::Unsupported(v)), ctx) == TrapAction::UnsupportedInterrupt(v),
{
}

/// Decides what to do about a trap of cause `cause` taken with context
/// `ctx`.
pub fn dispatch_trap(cause: &TrapCause, ctx: &TrapContext) -> (r: TrapAction)
    ensures
        r == trap_action_of(*cause, ctx.view()),
        *cause == TrapCause::Exeption(Exception::Syscall) && (ctx.view()[17] as usize) == 1 ==> r == TrapAction::Syscall(
            SyscallWork::Ecall((EcallRequest { op_code: 1, a0: ((ctx.view()[10] as usize) % 256) as usize, a1: 0, a2: 0 })),
        ),
        *cause == TrapCause::Exeption(Exception::Syscall) && (ctx.view()[17] as usize) == 2 ==> r == TrapAction::TaskExit,
        *cause == TrapCause::Exeption(Exception::Syscall) && (ctx.view()[17] as usize) == 3 ==> r == TrapAction::Syscall(
            SyscallWork::ReadTimeMs,
        ),
        *cause == TrapCause::Exeption(Exception::Syscall) && !(1 <= (ctx.view()[17] as usize) <= 3) ==> r
            == TrapAction::UnsupportedSyscall(ctx.view()[17] as usize),
{
    match cause {
        TrapCause::Exeption(v) => match v {
            Exception::Syscall => {
                let syscall_param = ctx.get_syscall_param();
                match syscall_param.syscall_id {
                    SyscallId::Exit => TrapAction::TaskExit,
                    SyscallId::Unsupported(v) => TrapAction::UnsupportedSyscall(v),
                    _ => TrapAction::Syscall(syscall_param.dispatch_syscall()),
                }
            },
            Exception::Unsupported(v) => TrapAction::UnsupportedException(*v),
        },
        TrapCause::Interrupt(v) => match v {
            Interrupt::Timer => TrapAction::Timer { next_timer_ms: 500 },
            Interrupt::Unsupported(v) => TrapAction::UnsupportedInterrupt(*v),
        },
    }
}

/// After a system call's work: stores its return code and steps past the
/// `ecall` instruction.
pub fn finish_syscall(ctx: &mut TrapContext, return_code: usize)
    requires
        old(ctx).view()[32] + 4 <= u64::MAX,
    ensures
        final(ctx).view() == old(ctx).view().update(10, return_code as u64).update(
            32,
            (old(ctx).view()[32] + 4) as u64,
        ),
{
    ctx.set_syscall_return_code(return_code);
    ctx.mv_pc_to_next();
}

} // verus!
