use rvos::trap::TrapContextStore;
use rvos::ecall::shutdown;
use rvos::register::SAtp;
use rvos::syscall::SyscallId;
use rvos::trap::{dispatch_trap, finish_syscall, Exception, Interrupt, TrapAction, TrapCause, TrapContext};

#[test]
fn unsupported_causes_stop_the_task() {
    let ctx = TrapContext::default();
    assert_eq!(
        dispatch_trap(&TrapCause::Exeption(Exception::Unsupported(2)), &ctx),
        TrapAction::UnsupportedException(2)
    );
    assert_eq!(
        dispatch_trap(&TrapCause::Interrupt(Interrupt::Unsupported(9)), &ctx),
        TrapAction::UnsupportedInterrupt(9)
    );
}

#[test]
fn timer_rearms_after_half_a_second() {
    let ctx = TrapContext::default();
    assert_eq!(
        dispatch_trap(&TrapCause::Interrupt(Interrupt::Timer), &ctx),
        TrapAction::Timer { next_timer_ms: 500 }
    );
}

#[test]
fn syscall_number_zero_is_unsupported() {
    // a fresh context holds 0 in a7
    let ctx = TrapContext::default();
    assert_eq!(
        dispatch_trap(&TrapCause::Exeption(Exception::Syscall), &ctx),
        TrapAction::UnsupportedSyscall(0)
    );
    assert_eq!(ctx.get_syscall_param().syscall_id, SyscallId::Unsupported(0));
}

#[test]
fn return_code_lands_in_a0() {
    let mut ctx = TrapContext::default();
    ctx.set_pc(0x1000);
    ctx.set_sp(0x2000);
    finish_syscall(&mut ctx, 42);
    assert_eq!(ctx.get_pc(), 0x1004);
    let p = ctx.get_syscall_param();
    assert_eq!(p.params, [42, 0, 0, 0]);
    ctx.set_syscall_return_code(7);
    assert_eq!(ctx.get_syscall_param().params[0], 7);
}

#[test]
fn page_table_roots_do_not_disturb_arguments() {
    let mut ctx = TrapContext::default();
    ctx.set_page_table_root_ppn(0x80400, 0x80200);
    ctx.mv_pc_to_next();
    assert_eq!(ctx.get_syscall_param().params, [0, 0, 0, 0]);
    assert_eq!(SAtp::from_ppn(0x80400).bits, 0x8000_0000_0008_0400);
    assert_eq!(shutdown().op_code, 8);
}

#[test]
fn words_read_back_as_written() {
    let mut ctx = TrapContext::default();
    ctx.set_word(34, 0xabc);
    ctx.set_word(0, 1);
    let copy = ctx.duplicate();
    assert_eq!(copy.word(34), 0xabc);
    assert_eq!(copy.word(0), 1);
    assert_eq!(copy.word(33), 0);
    ctx.set_word(34, 5);
    assert_eq!(copy.word(34), 0xabc);
    assert_eq!(ctx.word(34), 5);
}
