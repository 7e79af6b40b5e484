//! Verified core of a small RISC-V teaching kernel: the supervisor trap-cause
//! register, the timer arithmetic and the ext4 file objects' bookkeeping.

pub mod arch;
pub mod drivers;
pub mod fs;
pub mod register;
