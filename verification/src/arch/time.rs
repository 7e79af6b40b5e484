//! Timer arithmetic: the clock frequency and when the next tick is due.

use vstd::prelude::*;

verus! {

/// Timer interrupts per second.
pub const TICKS_PER_SEC: usize = 25;

/// Frequency of the `time` counter on the QEMU `virt` board, in Hz.
pub const CLOCK_FREQ: usize = 12500000;

/// Counter ticks between two timer interrupts.
pub open spec fn spec_tick_interval() -> int {
    CLOCK_FREQ as int / TICKS_PER_SEC as int
}

pub fn get_clock_freq() -> (f: usize)
    ensures
        f == CLOCK_FREQ,
{
    CLOCK_FREQ
}

/// The counter value at which the next timer interrupt is due, when the
/// counter now reads `now`: one tick interval later.
pub fn next_trigger(now: usize) -> (due: usize)
    requires
        now + spec_tick_interval() <= usize::MAX,
    ensures
        due == now + spec_tick_interval(),
{
    now + CLOCK_FREQ / TICKS_PER_SEC
}

} // verus!
