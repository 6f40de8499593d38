use vstd::prelude::*;

verus! {

/// Number of clock cycles between two timer interrupts.
pub const TIMEBASE: u64 = 100000;

/// Time of the next timer interrupt when the clock reads `cycle`.
pub fn clock_set_next_event(cycle: u64) -> (deadline: u64)
    requires
        cycle + TIMEBASE <= u64::MAX,
    ensures
        deadline == cycle + TIMEBASE,
{
    cycle + TIMEBASE
}

} // verus!
