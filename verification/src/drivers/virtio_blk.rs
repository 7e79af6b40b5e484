//! The arithmetic of the VirtIO block device: how a buffer is split into
//! device sectors, and the geometry the ext4 library is given.

use vstd::prelude::*;

verus! {

/// Size in bytes of one sector of the VirtIO block device.
pub const VIRT_IO_BLOCK_SZ: usize = 512;

/// Size in bytes of an ext4 block as the ext4 library addresses the device.
pub const EXT4_BLOCK_SZ: u32 = 1024;

/// One transfer between a buffer and the device: the sector, and the part
/// `start..end` of the buffer that it fills or empties.
#[derive(Clone, Copy, Debug, PartialEq, Eq, Structural)]
pub struct SectorIo {
    pub block_id: usize,
    pub start: usize,
    pub end: usize,
}

/// The number of sectors a buffer of `len` bytes spans.
pub open spec fn spec_sector_count(len: int) -> int {
    (len + VIRT_IO_BLOCK_SZ - 1) / (VIRT_IO_BLOCK_SZ as int)
}

/// The transfers that move a buffer of `len` bytes to or from the device
/// from sector `block_id` on: one per sector-sized piece of the buffer, in
/// order, the last one possibly shorter, to consecutive sectors.
pub fn sector_plan(block_id: usize, len: usize) -> (plan: Vec<SectorIo>)
    requires
        len + VIRT_IO_BLOCK_SZ <= usize::MAX,
        block_id + spec_sector_count(len as int) <= usize::MAX,
    ensures
        plan@.len() == spec_sector_count(len as int),
        forall|k: int|
            0 <= k < plan@.len() ==> {
                &&& (#[trigger] plan@[k]).block_id == block_id + k
                &&& plan@[k].start == k * VIRT_IO_BLOCK_SZ
                &&& plan@[k].end == if (k + 1) * VIRT_IO_BLOCK_SZ <= len {
                    (k + 1) * VIRT_IO_BLOCK_SZ
                } else {
                    len as int
                }
            },
{
    let mut plan: Vec<SectorIo> = Vec::new();
    let mut id = block_id;
    let mut start: usize = 0;
    while start < len
        invariant
            len + VIRT_IO_BLOCK_SZ <= usize::MAX,
            block_id + spec_sector_count(len as int) <= usize::MAX,
            start == plan@.len() * VIRT_IO_BLOCK_SZ,
            start <= len + VIRT_IO_BLOCK_SZ - 1,
            plan@.len() <= spec_sector_count(len as int),
            start < len ==> plan@.len() < spec_sector_count(len as int),
            id == block_id + plan@.len(),
            forall|k: int|
                0 <= k < plan@.len() ==> {
                    &&& (#[trigger] plan@[k]).block_id == block_id + k
                    &&& plan@[k].start == k * VIRT_IO_BLOCK_SZ
                    &&& plan@[k].end == if (k + 1) * VIRT_IO_BLOCK_SZ <= len {
                        (k + 1) * VIRT_IO_BLOCK_SZ
                    } else {
                        len as int
                    }
                },
        decreases len + VIRT_IO_BLOCK_SZ - start,
    {
        let end = if start + VIRT_IO_BLOCK_SZ <= len {
            start + VIRT_IO_BLOCK_SZ
        } else {
            len
        };
        plan.push(SectorIo { block_id: id, start, end });
        id = id + 1;
        start = start + VIRT_IO_BLOCK_SZ;
        proof {
            let n = plan@.len() as int;
            assert(start < len ==> n < spec_sector_count(len as int)) by (nonlinear_arith)
                requires
                    start == n * VIRT_IO_BLOCK_SZ,
                    start < len ==> n * VIRT_IO_BLOCK_SZ < len,
            ;
        }
    }
    proof {
        let n = plan@.len() as int;
        assert(n == spec_sector_count(len as int)) by (nonlinear_arith)
            requires
                n * VIRT_IO_BLOCK_SZ >= len,
                n <= spec_sector_count(len as int),
                n == 0 || (n - 1) * VIRT_IO_BLOCK_SZ < len,
        ;
    }
    plan
}

/// The transfers that move a buffer of `len` bytes to or from the device
/// from ext4 block `block_id` on: ext4 blocks are two sectors each.
pub fn ext4_sector_plan(block_id: u64, len: usize) -> (plan: Vec<SectorIo>)
    requires
        len + VIRT_IO_BLOCK_SZ <= usize::MAX,
        block_id * 2 + spec_sector_count(len as int) <= usize::MAX,
    ensures
        plan@.len() == spec_sector_count(len as int),
        forall|k: int|
            0 <= k < plan@.len() ==> {
                &&& (#[trigger] plan@[k]).block_id == block_id * 2 + k
                &&& plan@[k].start == k * VIRT_IO_BLOCK_SZ
                &&& plan@[k].end == if (k + 1) * VIRT_IO_BLOCK_SZ <= len {
                    (k + 1) * VIRT_IO_BLOCK_SZ
                } else {
                    len as int
                }
            },
{
    let first = block_id * (EXT4_BLOCK_SZ as u64 / VIRT_IO_BLOCK_SZ as u64);
    sector_plan(first as usize, len)
}

/// The geometry of the device that the ext4 library is given.
#[derive(Clone, Copy, Debug, PartialEq, Eq, Structural)]
pub struct BlockDeviceConfig {
    pub block_size: u32,
    pub block_count: u64,
    pub part_size: u64,
    pub part_offset: u64,
}

/// Blocks of 1024 bytes, 999 of them, in a partition of 2048 bytes at
/// offset zero.
pub fn device_config() -> (c: BlockDeviceConfig)
    ensures
        c == (BlockDeviceConfig {
            block_size: 1024,
            block_count: 999,
            part_size: 2048,
            part_offset: 0,
        }),
{
    BlockDeviceConfig { block_size: 1024, block_count: 999, part_size: 1024 * 2, part_offset: 0 }
}

/// The kernel maps physical memory at the same virtual addresses.
pub fn phys_to_virt(paddr: usize) -> (vaddr: usize)
    ensures
        vaddr == paddr,
{
    paddr
}

} // verus!
