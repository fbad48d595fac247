//! The trap-context record that each hart owns.

use vstd::prelude::*;

verus! {

/// What a hart needs to find its kernel context again when it takes a trap.
#[derive(Clone, Copy, Debug, PartialEq, Eq, Structural)]
pub struct TrapFrame {
    /// The translation-control value of the kernel's address space.
    pub satp: usize,
    /// The top of the hart's kernel stack.
    pub sp: usize,
    /// The id of the hart.
    pub hartid: usize,
}

impl TrapFrame {
    /// A record before the hart is brought up: every field 0.
    pub fn zero() -> (frame: Self)
        ensures
            frame == (TrapFrame { satp: 0, sp: 0, hartid: 0 }),
    {
        TrapFrame { satp: 0, sp: 0, hartid: 0 }
    }
}

} // verus!
