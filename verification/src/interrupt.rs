use vstd::prelude::*;
use crate::context::TrapFrame;
use riscv::interrupt::Trap;
use riscv::interrupt::supervisor::{Exception, Interrupt};
use riscv::register::scause::Scause;

verus! {

/// Causes of a trap that the kernel tells apart.
#[derive(Clone, Copy, Debug, PartialEq, Eq)]
pub enum TrapCause {
    /// Breakpoint exception.
    Breakpoint,
    /// Supervisor timer interrupt.
    SupervisorTimer,
    /// Any other interrupt or exception.
    Other,
}

/// Cause of a trap whose supervisor cause register holds `bits`: the top bit
/// tells interrupts from exceptions, the other bits give the number; exception
/// 3 is a breakpoint and interrupt 5 the supervisor timer.
pub open spec fn trap_cause_of(bits: usize) -> TrapCause {
    if bits == 3 {
        TrapCause::Breakpoint
    } else if bits == usize::MAX / 2 + 6 {
        TrapCause::SupervisorTimer
    } else {
        TrapCause::Other
    }
}

/// Decodes the bits of the supervisor cause register with `Scause::cause`
/// and the supervisor trap numbering of `riscv::interrupt::supervisor`
/// (`Trap::try_into`). Claimed: the result is `trap_cause_of(bits)`, that is,
/// `cause` reads the top bit of the register as the interrupt flag and the
/// other bits as the number, and exception 3 is `Breakpoint` and interrupt 5
/// `SupervisorTimer`, as the crate's source shows for 64-bit and riscv32
/// targets.
#[verifier::external_body]
fn decode_scause(bits: usize) -> (r: TrapCause)
    ensures
        r == trap_cause_of(bits),
{
    match Scause::from_bits(bits).cause().try_into::<Interrupt, Exception>() {
        Ok(Trap::Exception(Exception::Breakpoint)) => TrapCause::Breakpoint,
        Ok(Trap::Interrupt(Interrupt::SupervisorTimer)) => TrapCause::SupervisorTimer,
        _ => TrapCause::Other,
    }
}

/// What the caller of `rust_trap` still has to do.
#[derive(Clone, Copy, Debug, PartialEq, Eq)]
pub enum TrapAction {
    /// Report the breakpoint at `addr`.
    Breakpoint { addr: usize },
    /// Set the next timer event; when `report` is set, report that another
    /// hundred ticks have passed.
    Timer { report: bool },
    /// Report the trap cause `bits` and stop: the trap is not handled.
    Undefined { bits: usize },
}

/// Tick count after one more timer interrupt: it counts up to 100 and starts again at 0.
pub open spec fn next_ticks(ticks: usize) -> usize {
    if ticks + 1 == 100 {
        0
    } else {
        (ticks + 1) as usize
    }
}

/// What `rust_trap` does for a trap frame and a tick count.
pub open spec fn trap_outcome(tf: TrapFrame, ticks: usize) -> (TrapFrame, usize, TrapAction) {
    match trap_cause_of(tf.scause) {
        TrapCause::Breakpoint => (
            TrapFrame { sepc: (tf.sepc + 2) as usize, ..tf },
            ticks,
            TrapAction::Breakpoint { addr: tf.sepc },
        ),
        TrapCause::SupervisorTimer => (
            tf,
            next_ticks(ticks),
            TrapAction::Timer { report: ticks + 1 == 100 },
        ),
        TrapCause::Other => (tf, ticks, TrapAction::Undefined { bits: tf.scause }),
    }
}

/// Handles a trap: dispatches on its cause.
pub fn rust_trap(tf: &mut TrapFrame, ticks: &mut usize) -> (action: TrapAction)
    requires
        trap_cause_of(old(tf).scause) == TrapCause::Breakpoint ==> old(tf).sepc + 2 <= usize::MAX,
        trap_cause_of(old(tf).scause) == TrapCause::SupervisorTimer ==> *old(ticks) < usize::MAX,
    ensures
        (*final(tf), *final(ticks), action) == trap_outcome(*old(tf), *old(ticks)),
        old(tf).scause == 3 ==> {
            &&& final(tf).sepc == old(tf).sepc + 2
            &&& final(tf).x == old(tf).x
            &&& final(tf).sstatus == old(tf).sstatus
            &&& final(tf).stval == old(tf).stval
            &&& final(tf).scause == old(tf).scause
            &&& *final(ticks) == *old(ticks)
            &&& action == TrapAction::Breakpoint { addr: old(tf).sepc }
        },
        old(tf).scause == usize::MAX / 2 + 6 ==> {
            &&& *final(tf) == *old(tf)
            &&& *old(ticks) + 1 < 100 ==> *final(ticks) == *old(ticks) + 1
            &&& *old(ticks) + 1 == 100 ==> *final(ticks) == 0
            &&& *old(ticks) + 1 > 100 ==> *final(ticks) == *old(ticks) + 1
            &&& action == TrapAction::Timer { report: *old(ticks) + 1 == 100 }
        },
        old(tf).scause != 3 && old(tf).scause != usize::MAX / 2 + 6 ==> {
            &&& *final(tf) == *old(tf)
            &&& *final(ticks) == *old(ticks)
            &&& action == TrapAction::Undefined { bits: old(tf).scause }
        },
{
    match decode_scause(tf.scause) {
        TrapCause::Breakpoint => {
            let addr = breakpoint(&mut tf.sepc);
            TrapAction::Breakpoint { addr }
        },
        TrapCause::SupervisorTimer => {
            let report = super_timer(ticks);
            TrapAction::Timer { report }
        },
        TrapCause::Other => TrapAction::Undefined { bits: tf.scause },
    }
}

/// Handles a breakpoint: steps over the compressed `ebreak` and returns where it was.
fn breakpoint(sepc: &mut usize) -> (addr: usize)
    requires
        *old(sepc) + 2 <= usize::MAX,
    ensures
        addr == *old(sepc),
        *final(sepc) == *old(sepc) + 2,
{
    let addr = *sepc;
    *sepc += 2;
    addr
}

/// Handles a timer interrupt: counts it, and returns whether a hundred ticks
/// have passed.
fn super_timer(ticks: &mut usize) -> (report: bool)
    requires
        *old(ticks) < usize::MAX,
    ensures
        *final(ticks) == next_ticks(*old(ticks)),
        report == (*old(ticks) + 1 == 100),
{
    *ticks += 1;
    if *ticks == 100 {
        *ticks = 0;
        true
    } else {
        false
    }
}


/// Tick count after `k` timer interrupts, starting from 0.
pub open spec fn ticks_after(k: nat) -> usize
    decreases k,
{
    if k == 0 {
        0
    } else {
        next_ticks(ticks_after((k - 1) as nat))
    }
}

/// The tick count stays below 100, and after `k` timer interrupts it is
/// `k % 100`; a hundred ticks are reported exactly at every hundredth one.
pub proof fn lemma_ticks_cycle(k: nat)
    ensures
        ticks_after(k) < 100,
        ticks_after(k) == k % 100,
        (ticks_after(k) + 1 == 100) <==> ((k + 1) % 100 == 0),
    decreases k,
{
    if k > 0 {
        lemma_ticks_cycle((k - 1) as nat);
    }
}


/// Handling a breakpoint steps over the two-byte `ebreak` and changes nothing
/// else: the new `sepc` is the old one plus 2, the other registers and the
/// tick count stay, and the breakpoint's address is reported.
pub proof fn lemma_breakpoint_steps_over(tf: TrapFrame, ticks: usize)
    requires
        tf.scause == 3,
        tf.sepc + 2 <= usize::MAX,
    ensures
        trap_outcome(tf, ticks).0.sepc == tf.sepc + 2,
        trap_outcome(tf, ticks).0.x == tf.x,
        trap_outcome(tf, ticks).0.sstatus == tf.sstatus,
        trap_outcome(tf, ticks).0.stval == tf.stval,
        trap_outcome(tf, ticks).0.scause == tf.scause,
        trap_outcome(tf, ticks).1 == ticks,
        trap_outcome(tf, ticks).2 == (TrapAction::Breakpoint { addr: tf.sepc }),
{
}

} // verus!
