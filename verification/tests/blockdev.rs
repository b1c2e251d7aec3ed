use stratis_blockdev::blockdev::BlockDev;
use stratis_blockdev::device::Device;
use stratis_blockdev::errors::{EngineError, ErrorEnum};
use stratis_blockdev::metadata::{StaticHeader, Timestamp, BDA, BDA_STATIC_HDR_SIZE};
use stratis_blockdev::range_alloc::RangeAllocator;

const POOL: u128 = 0xaaaa_bbbb_cccc_4ddd_8eee_ffff_0000_1111;
const DEV_ID: u128 = 0x1111_2222_3333_4444_8555_6666_7777_8888;
const TWO_GIB: u64 = 4194304;

fn device() -> Device {
    Device { major: 8, minor: 32 }
}

fn fresh() -> BlockDev {
    BlockDev::initialize(device(), "/dev/sdc".to_string(), POOL, DEV_ID, 2032, TWO_GIB).unwrap()
}

#[test]
fn initialized_device_has_everything_after_the_metadata_area_free() {
    let bd = fresh();
    assert_eq!(bd.dev(), device());
    assert_eq!(bd.devnode_path(), "/dev/sdc");
    assert_eq!(bd.pool_uuid(), POOL);
    assert_eq!(bd.uuid(), DEV_ID);
    assert_eq!(bd.size(), TWO_GIB);
    assert_eq!(bd.available(), TWO_GIB - 2048);
    assert_eq!(bd.last_update_time(), None);
}

#[test]
fn initialize_rejects_bad_sizes() {
    for (mda, size) in [(2031u64, TWO_GIB), (2028, TWO_GIB), (2032, 2047), (4096, 4100)] {
        let res = BlockDev::initialize(device(), "/dev/sdc".to_string(), POOL, DEV_ID, mda, size);
        assert!(matches!(res, Err(EngineError::Engine(ErrorEnum::Invalid, _))));
    }
}

#[test]
fn device_that_holds_only_its_metadata_area_has_nothing_free() {
    let mut bd =
        BlockDev::initialize(device(), "/dev/sdc".to_string(), POOL, DEV_ID, 2032, 2048).unwrap();
    assert_eq!(bd.available(), 0);
    assert_eq!(bd.request_space(1), (0, vec![]));
}

#[test]
fn new_keeps_its_parts() {
    let bda = BDA::initialize(POOL, DEV_ID, 2032, 5000).unwrap();
    let allocator = RangeAllocator::new_with_used(5000, &vec![(0, 2048)]).unwrap();
    let bd = BlockDev::new(device(), "/dev/vdb".to_string(), bda, allocator);
    assert_eq!(bd.dev(), device());
    assert_eq!(bd.devnode_path(), "/dev/vdb");
    assert_eq!(bd.size(), 5000);
    assert_eq!(bd.available(), 2952);
}

#[test]
fn request_space_starts_after_the_metadata_area() {
    let mut bd = fresh();
    assert_eq!(bd.request_space(100), (100, vec![(2048, 100)]));
    assert_eq!(bd.request_space(50), (50, vec![(2148, 50)]));
    assert_eq!(bd.available(), TWO_GIB - 2048 - 150);
    let rest = bd.available();
    assert_eq!(bd.request_space(u64::MAX), (rest, vec![(2198, rest)]));
    assert_eq!(bd.available(), 0);
}

#[test]
fn header_image_is_read_back_as_this_device() {
    let bd = fresh();
    let image = bd.header_image();
    assert_eq!(image.len(), BDA_STATIC_HDR_SIZE);
    assert_eq!(
        StaticHeader::setup_from_buf(&image),
        Some(StaticHeader { blkdev_size: TWO_GIB, pool_uuid: POOL, dev_uuid: DEV_ID, mda_size: 2032 })
    );
}

#[test]
fn wipe_metadata_names_the_node_and_zeroes_the_header() {
    let (devnode, bytes) = fresh().wipe_metadata();
    assert_eq!(devnode, "/dev/sdc");
    assert_eq!(bytes, vec![0u8; BDA_STATIC_HDR_SIZE]);
}

#[test]
fn save_state_keeps_free_space_and_records_the_time() {
    let mut bd = fresh();
    let time = Timestamp { sec: 100, nsec: 1 };
    assert!(bd.can_save(&time, 4));
    let write = bd.save_state(&time, b"data").unwrap();
    assert_eq!(write.slot, 0);
    assert_eq!(bd.last_update_time(), Some(time));
    assert_eq!(bd.available(), TWO_GIB - 2048);
    assert!(!bd.can_save(&time, 4));
    assert!(matches!(
        bd.save_state(&time, b"data"),
        Err(EngineError::Engine(ErrorEnum::Invalid, _))
    ));
    assert_eq!(bd.last_update_time(), Some(time));
}
