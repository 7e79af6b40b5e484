use npucore::drivers::virtio_blk::{
    device_config, ext4_sector_plan, phys_to_virt, sector_plan, BlockDeviceConfig, SectorIo,
};

#[test]
fn plan_splits_into_sectors() {
    let plan = sector_plan(10, 1300);
    assert_eq!(
        plan,
        vec![
            SectorIo { block_id: 10, start: 0, end: 512 },
            SectorIo { block_id: 11, start: 512, end: 1024 },
            SectorIo { block_id: 12, start: 1024, end: 1300 },
        ]
    );
}

#[test]
fn plan_of_whole_sectors_and_empty_buffer() {
    assert_eq!(sector_plan(0, 1024).len(), 2);
    assert_eq!(sector_plan(7, 512), vec![SectorIo { block_id: 7, start: 0, end: 512 }]);
    assert!(sector_plan(7, 0).is_empty());
}

#[test]
fn ext4_blocks_are_two_sectors() {
    let plan = ext4_sector_plan(3, 1024);
    assert_eq!(
        plan,
        vec![
            SectorIo { block_id: 6, start: 0, end: 512 },
            SectorIo { block_id: 7, start: 512, end: 1024 },
        ]
    );
}

#[test]
fn config_of_the_device() {
    assert_eq!(
        device_config(),
        BlockDeviceConfig { block_size: 1024, block_count: 999, part_size: 2048, part_offset: 0 }
    );
}

#[test]
fn physical_is_virtual() {
    assert_eq!(phys_to_virt(0x8020_0000), 0x8020_0000);
}
