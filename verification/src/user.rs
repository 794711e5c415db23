//! The user-side library: the system calls a task makes.
use vstd::prelude::*;

verus! {

/// System call numbers, as the kernel reads them from `a7`.
pub enum SyscallId {
    Putchar,
    Exit,
    GetNow,
}

/// The number of each call: putchar 1, exit 2, get-now 3.
pub open spec fn syscall_number(id: SyscallId) -> usize {
    match id {
        SyscallId::Putchar => 1,
        SyscallId::Exit => 2,
        SyscallId::GetNow => 3,
    }
}

/// A system call to make: arguments `a0` to `a3` and the number.
#[derive(Debug, PartialEq, Eq, Structural)]
pub struct SyscallRequest {
    pub a0: usize,
    pub a1: usize,
    pub a2: usize,
    pub a3: usize,
    pub syscall_id: usize,
}

/// The request for call `syscall_id` with its arguments.
pub fn _syscall(a0: usize, a1: usize, a2: usize, a3: usize, syscall_id: SyscallId) -> (r: SyscallRequest)
    ensures
        r == (SyscallRequest { a0, a1, a2, a3, syscall_id: syscall_number(syscall_id) }),
{
    let id: usize = match syscall_id {
        SyscallId::Putchar => 1,
        SyscallId::Exit => 2,
        SyscallId::GetNow => 3,
    };
    SyscallRequest { a0, a1, a2, a3, syscall_id: id }
}

/// Prints `ch` to file `file_id`.
pub fn putchar(ch: char, file_id: usize) -> (r: SyscallRequest)
    ensures
        r == (SyscallRequest { a0: ch as usize, a1: file_id, a2: 0, a3: 0, syscall_id: 1 }),
{
    _syscall(ch as usize, file_id, 0, 0, SyscallId::Putchar)
}

/// Ends the task with `code`.
pub fn exit(code: usize) -> (r: SyscallRequest)
    ensures
        r == (SyscallRequest { a0: code, a1: 0, a2: 0, a3: 0, syscall_id: 2 }),
{
    _syscall(code, 0, 0, 0, SyscallId::Exit)
}

/// Asks for the time in milliseconds.
pub fn get_now() -> (r: SyscallRequest)
    ensures
        r == (SyscallRequest { a0: 0, a1: 0, a2: 0, a3: 0, syscall_id: 3 }),
{
    _syscall(0, 0, 0, 0, SyscallId::GetNow)
}

/// File number of standard output.
pub const STD_OUT_FILE_ID: usize = 1;

/// Standard output.
pub struct StdOut {}

/// The request that prints `c` on standard output.
pub open spec fn stdout_request(c: char) -> SyscallRequest {
    SyscallRequest { a0: c as usize, a1: 1, a2: 0, a3: 0, syscall_id: 1 }
}

impl StdOut {
    /// The requests that print `s`, one per character, in order.
    pub fn write_str(&mut self, s: &str) -> (r: Vec<SyscallRequest>)
        ensures
            r@ == s@.map_values(|c: char| stdout_request(c)),
    {
        let mut out: Vec<SyscallRequest> = Vec::new();
        for ch in it: s.chars()
            invariant
                it.seq() == s@,
                out@.len() == it.index(),
                forall|j: int| 0 <= j < it.index() ==> #[trigger] out@[j] == stdout_request(s@[j]),
        {
            out.push(putchar(ch, STD_OUT_FILE_ID));
        }
        assert(out@ =~= s@.map_values(|c: char| stdout_request(c)));
        out
    }
}

/// The time, in milliseconds, at which a sleep of `duration_ms` begun at
/// `now_ms` ends.
pub fn sleep(now_ms: u64, duration_ms: u64) -> (r: u64)
    requires
        now_ms + duration_ms <= u64::MAX,
    ensures
        r == now_ms + duration_ms,
{
    now_ms + duration_ms
}

/// Whether a sleep that ends at `wakeup_ms` still goes on at `now_ms`.
pub fn still_sleeping(now_ms: u64, wakeup_ms: u64) -> (r: bool)
    ensures
        r == (now_ms < wakeup_ms),
{
    now_ms < wakeup_ms
}

} // verus!
