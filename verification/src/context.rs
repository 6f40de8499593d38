use vstd::prelude::*;

verus! {

/// Registers saved when a trap enters the kernel.
pub struct TrapFrame {
    /// General-purpose registers.
    pub x: [usize; 32],
    /// Bits of the supervisor status register.
    pub sstatus: usize,
    /// Supervisor exception program counter.
    pub sepc: usize,
    /// Supervisor trap value.
    pub stval: usize,
    /// Bits of the supervisor cause register.
    pub scause: usize,
}

} // verus!
