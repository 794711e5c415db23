//! Values of the supervisor control registers the kernel reads and writes.
use vstd::prelude::*;
use crate::trap::{TrapCause, TrapCauseLoader, Exception, Interrupt};

verus! {

/// The `scause` register: the top bit tells an interrupt from an exception,
/// the other bits hold the cause code.
pub struct SCause {
    bits: u64,
}

impl SCause {
    /// The register's raw value.
    pub closed spec fn value(&self) -> u64 {
        self.bits
    }

    /// Wraps a value read from `scause`.
    pub fn new(bits: u64) -> (r: Self)
        ensures
            r.value() == bits,
    {
        SCause { bits }
    }

    /// Whether the trap was an interrupt (top bit set).
    pub fn is_interrupt(&self) -> (r: bool)
        ensures
            r == (self.value() >= 0x8000_0000_0000_0000),
    {
        let b = self.bits;
        let r = b & (1u64 << 63u64) != 0;
        assert(r == (b >= 0x8000_0000_0000_0000u64)) by (bit_vector)
            requires
                r == (b & (1u64 << 63u64) != 0),
        ;
        r
    }

    /// The cause code: every bit but the top one.
    pub fn get_code(&self) -> (r: usize)
        ensures
            r == (self.value() % 0x8000_0000_0000_0000) as usize,
    {
        let b = self.bits;
        let c = b & !(1u64 << 63u64);
        assert(c == b % 0x8000_0000_0000_0000u64) by (bit_vector)
            requires
                c == b & !(1u64 << 63u64),
        ;
        c as usize
    }
}

/// The trap cause that a value of `scause` encodes.
pub open spec fn cause_of(scause: u64) -> TrapCause {
    let code = (scause % 0x8000_0000_0000_0000) as usize;
    if scause >= 0x8000_0000_0000_0000 {
        if code == 5 {
            TrapCause::Interrupt(Interrupt::Timer)
        } else {
            TrapCause::Interrupt(Interrupt::Unsupported(code))
        }
    } else {
        if code == 8 {
            TrapCause::Exeption(Exception::Syscall)
        } else {
            TrapCause::Exeption(Exception::Unsupported(code))
        }
    }
}

/// Decodes the trap cause held in `scause`.
pub struct TrapCauseLoaderImpl {}

impl TrapCauseLoader for TrapCauseLoaderImpl {
    fn load(v: &SCause) -> (r: TrapCause) {
        if v.is_interrupt() {
            match v.get_code() {
                0x05 => TrapCause::Interrupt(Interrupt::Timer),
                _ => TrapCause::Interrupt(Interrupt::Unsupported(v.get_code())),
            }
        } else {
            match v.get_code() {
                8 => TrapCause::Exeption(Exception::Syscall),
                _ => TrapCause::Exeption(Exception::Unsupported(v.get_code())),
            }
        }
    }
}

/// The `time` counter.
#[derive(Copy, Clone)]
pub struct Time {
    pub bits: usize,
}

impl Time {
    /// Elapsed whole milliseconds, for a clock of `clocks_per_ms` ticks per
    /// millisecond.
    pub fn as_duration(&self, clocks_per_ms: usize) -> (r: u64)
        requires
            clocks_per_ms > 0,
        ensures
            r == self.bits / clocks_per_ms,
    {
        (self.bits / clocks_per_ms) as u64
    }
}

/// The `sie` register (interrupt enable bits).
#[derive(Copy, Clone)]
pub struct SIe {
    pub bits: usize,
}

impl SIe {
    /// The mask that sets bit `pos` of `sie`.
    pub fn set_bit(pos: usize) -> (r: u64)
        requires
            pos < 64,
        ensures
            r == 1u64 << pos,
    {
        1u64 << (pos as u64)
    }

    /// The mask that enables the supervisor timer interrupt (STIE, bit 5).
    pub fn enable_time_interrupt() -> (r: u64)
        ensures
            r == 0x20,
    {
        let r = Self::set_bit(0x05);
        assert(1u64 << 5u64 == 0x20) by (bit_vector);
        r
    }
}

/// The `satp` register: paging mode in bits 60..63, root page number below.
#[derive(Copy, Clone)]
pub struct SAtp {
    pub bits: usize,
}

/// Mode value 8 in bits 60..63 selects Sv39 paging.
pub open spec fn satp_of(ppn: usize) -> usize {
    (0x8000_0000_0000_0000u64 | (ppn as u64)) as usize
}

impl SAtp {
    /// Sv39 mode with root table `ppn`.
    pub fn from_ppn(ppn: usize) -> (r: Self)
        ensures
            r.bits == satp_of(ppn),
    {
        let mode: u64 = 8u64 << 60u64;
        assert(8u64 << 60u64 == 0x8000_0000_0000_0000u64) by (bit_vector);
        Self { bits: (mode | (ppn as u64)) as usize }
    }
}

} // verus!
