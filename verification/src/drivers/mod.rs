//! Device drivers.

pub mod virtio_blk;
