//! The ext4 file objects of the kernel.

pub mod cache;
pub mod layout;
