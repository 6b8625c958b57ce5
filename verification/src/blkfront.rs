//! The block device front end of a paravirtualised machine: its queues and
//! its device description.
use vstd::prelude::*;
use crate::blkdev::RkBlkdev;

verus! {

/// A queue of the front end.
pub struct RkBlkdevQueue {
    /// The queue's identifier.
    pub queue_id: u16,
    /// The queue interrupts its device.
    pub intr_enabled: isize,
}

/// The front-end device.
pub struct BlkfrontDev {
    pub blkdev: RkBlkdev,
    /// The back end takes write barriers.
    pub barrier: isize,
    /// The back end takes cache flushes.
    pub flush: i32,
    /// Number of configured queues.
    pub nb_queues: u16,
    /// The queues.
    pub queues: Vec<RkBlkdevQueue>,
    /// The device's identifier.
    pub uid: u16,
}

} // verus!
