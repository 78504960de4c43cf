//! The generic timer's tick arithmetic.

use vstd::prelude::*;

verus! {

/// The interrupt line the physical timer raises.
pub const TIMER_INTID: u32 = 30;

/// Ticks per second the kernel asks for.
pub const TICK_HZ: u64 = 100;

/// Counter cycles between ticks for a counter running at `hz`: `hz / TICK_HZ`, or `0` when
/// the counter reports no frequency and the timer must not be armed.
pub fn interval(hz: u64) -> (n: u64)
    ensures
        n == (if hz == 0 {
            0
        } else {
            hz / TICK_HZ
        }),
{
    if hz == 0 {
        0
    } else {
        hz / TICK_HZ
    }
}

} // verus!
