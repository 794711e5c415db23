//! The serial console.
use vstd::prelude::*;
use crate::ecall::{EcallRequest, putchar_serialio};

verus! {

/// The serial console, written one character at a time through the SBI.
pub struct SerialIO {}

/// The environment call that prints `c`.
pub open spec fn putchar_request(c: char) -> EcallRequest {
    EcallRequest { op_code: 1, a0: c as usize, a1: 0, a2: 0 }
}

impl SerialIO {
    /// The environment calls that print `s`, one per character, in order.
    pub fn write_str(&mut self, s: &str) -> (r: Vec<EcallRequest>)
        ensures
            r@ == s@.map_values(|c: char| putchar_request(c)),
    {
        let mut out: Vec<EcallRequest> = Vec::new();
        for ch in it: s.chars()
            invariant
                it.seq() == s@,
                out@.len() == it.index(),
                forall|j: int| 0 <= j < it.index() ==> #[trigger] out@[j] == putchar_request(s@[j]),
        {
            out.push(putchar_serialio(ch));
        }
        assert(out@ =~= s@.map_values(|c: char| putchar_request(c)));
        out
    }
}

} // verus!
