//! Requests to the supervisor execution environment (SBI).
use vstd::prelude::*;

verus! {

/// The environment calls the kernel makes.
pub enum EcallType {
    PutcharSerialIO,
    Shutdown,
}

/// An environment call to perform: its function number and arguments.
#[derive(Debug, PartialEq, Eq, Structural)]
pub struct EcallRequest {
    pub op_code: usize,
    pub a0: usize,
    pub a1: usize,
    pub a2: usize,
}

/// The SBI function number of each call (legacy console putchar is 1,
/// legacy shutdown is 8).
pub open spec fn op_code_of(t: EcallType) -> usize {
    match t {
        EcallType::PutcharSerialIO => 0x01,
        EcallType::Shutdown => 0x08,
    }
}

/// The request for call `type_` with arguments `a0`, `a1`, `a2`.
pub fn _ecall(type_: EcallType, a0: usize, a1: usize, a2: usize) -> (r: EcallRequest)
    ensures
        r == (EcallRequest { op_code: op_code_of(type_), a0, a1, a2 }),
{
    let op_code: usize = match type_ {
        EcallType::PutcharSerialIO => 0x01,
        EcallType::Shutdown => 0x08,
    };
    EcallRequest { op_code, a0, a1, a2 }
}

/// Prints character `ch` on the serial console.
pub fn putchar_serialio(ch: char) -> (r: EcallRequest)
    ensures
        r == (EcallRequest { op_code: 1, a0: ch as usize, a1: 0, a2: 0 }),
{
    _ecall(EcallType::PutcharSerialIO, ch as usize, 0, 0)
}

/// Powers the machine off.
pub fn shutdown() -> (r: EcallRequest)
    ensures
        r == (EcallRequest { op_code: 8, a0: 0, a1: 0, a2: 0 }),
{
    _ecall(EcallType::Shutdown, 0, 0, 0)
}

/// The request that arms the timer to fire when the `time` counter reaches
/// `deadline` (legacy SBI `set_timer`, function number 0).
pub fn set_timer(deadline: u64) -> (r: EcallRequest)
    ensures
        r == (EcallRequest { op_code: 0, a0: deadline as usize, a1: 0, a2: 0 }),
{
    EcallRequest { op_code: 0, a0: deadline as usize, a1: 0, a2: 0 }
}

} // verus!
