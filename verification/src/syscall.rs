//! System calls that user tasks make.
use vstd::prelude::*;
use crate::ecall::{EcallRequest, putchar_serialio};

verus! {

/// The system calls the kernel knows, by the number in `a7`.
#[derive(Debug, PartialEq, Eq, Structural)]
pub enum SyscallId {
    Putchar,
    Exit,
    GetNow,
    Unsupported(usize),
}

/// The call that number `v` names: 1 putchar, 2 exit, 3 get-now.
pub open spec fn syscall_id_of(v: usize) -> SyscallId {
    if v == 1 {
        SyscallId::Putchar
    } else if v == 2 {
        SyscallId::Exit
    } else if v == 3 {
        SyscallId::GetNow
    } else {
        SyscallId::Unsupported(v)
    }
}

impl SyscallId {
    /// The call that number `v` names.
    pub fn from(v: usize) -> (r: Self)
        ensures
            r == syscall_id_of(v),
    {
        match v {
            1 => SyscallId::Putchar,
            2 => SyscallId::Exit,
            3 => SyscallId::GetNow,
            _ => SyscallId::Unsupported(v),
        }
    }
}

/// A system call with its four arguments.
pub struct SyscallParam {
    pub params: [usize; 4],
    pub syscall_id: SyscallId,
}

/// The outside work a system call needs.
#[derive(Debug, PartialEq, Eq, Structural)]
pub enum SyscallWork {
    /// An environment call, whose result is the return code.
    Ecall(EcallRequest),
    /// Reading the clock; the return code is the time in milliseconds.
    ReadTimeMs,
}

impl SyscallParam {
    /// The work that carries the call out: putchar prints the low byte of
    /// the first argument on the serial console; get-now reads the clock.
    /// Exit and unsupported calls are handled by the trap dispatcher.
    pub fn dispatch_syscall(&self) -> (r: SyscallWork)
        requires
            self.syscall_id is Putchar || self.syscall_id is GetNow,
        ensures
            self.syscall_id is Putchar ==> r == SyscallWork::Ecall(
                EcallRequest { op_code: 1, a0: (self.params@[0] % 256) as usize, a1: 0, a2: 0 },
            ),
            self.syscall_id is GetNow ==> r == SyscallWork::ReadTimeMs,
    {
        match self.syscall_id {
            SyscallId::Putchar => {
                let byte = (self.params[0] % 256) as u8;
                SyscallWork::Ecall(putchar_serialio(byte as char))
            },
            SyscallId::GetNow => SyscallWork::ReadTimeMs,
            _ => {
                assert(false);
                SyscallWork::ReadTimeMs
            },
        }
    }
}

} // verus!
