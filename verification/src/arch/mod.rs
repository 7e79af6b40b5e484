//! Machine-dependent constants and the arithmetic of the timer.

pub mod time;

use vstd::prelude::*;

verus! {

/// Size in bytes of a disk block as the block devices see it.
pub const BLOCK_SZ: usize = 512;

/// Early initialisation before memory is cleared: nothing needs doing on
/// this machine.
pub fn bootstrap_init() {
}

} // verus!
