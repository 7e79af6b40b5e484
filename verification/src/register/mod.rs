//! RISC-V supervisor registers.

pub mod scause;
