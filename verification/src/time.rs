//! The clocks of a platform.
use vstd::prelude::*;

verus! {

/// Nanoseconds.
pub type NanoSec = u64;

/// What a platform tells of time.
pub trait Time {
    /// The interrupt number of the timer.
    fn get_irq() -> u32;
    /// Ticks since boot.
    fn get_ticks() -> NanoSec;
    /// Nanoseconds since boot.
    fn monotonic_clock() -> NanoSec;
    /// Nanoseconds since the epoch.
    fn wall_clock() -> NanoSec;
}

} // verus!
