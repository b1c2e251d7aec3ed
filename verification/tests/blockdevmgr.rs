use std::io::{Error, ErrorKind};

use stratis_blockdev::blockdev::BlockDev;
use stratis_blockdev::blockdevmgr::{
    decide_admission, destroy_report, filter_devs, initialize, rejection, Admission, BlockDevMgr,
    Candidate, MIN_DEV_SIZE,
};
use stratis_blockdev::device::{DevInfo, DevOwnership, Device, Segment};
use stratis_blockdev::errors::{EngineError, ErrorEnum};
use stratis_blockdev::metadata::{
    checksum, MDAHeader, StaticHeader, Timestamp, BDA_STATIC_HDR_SIZE, MIN_MDA_SECTORS,
};

const GIB: u64 = 1073741824;
const POOL: u128 = 0x0102_0304_0506_4708_890a_0b0c_0d0e_0f10;
const OTHER_POOL: u128 = 0xa1a2_a3a4_b1b2_41c2_91d2_d3d4_d5d6_d7d8;
const FREE_OF_2_GIB: u64 = 4194304 - 2048;

fn dev(minor: u32) -> Device {
    Device { major: 8, minor }
}

fn candidate(minor: u32, devnode: &str, size: u64, ownership: DevOwnership) -> Candidate {
    (dev(minor), Ok(DevInfo { devnode: devnode.to_string(), size, ownership }))
}

fn unowned(minor: u32, devnode: &str, size: u64) -> Candidate {
    candidate(minor, devnode, size, DevOwnership::Unowned)
}

fn failed(minor: u32, kind: ErrorKind, text: &str) -> Candidate {
    (dev(minor), Err(EngineError::Io(Error::new(kind, text))))
}

fn invalid_message<T: std::fmt::Debug>(res: Result<T, EngineError>) -> String {
    match res {
        Err(EngineError::Engine(ErrorEnum::Invalid, msg)) => msg,
        other => panic!("expected an Invalid error, got {:?}", other),
    }
}

fn two_device_manager() -> BlockDevMgr {
    let candidates = vec![unowned(0, "/dev/sda", 2 * GIB), unowned(16, "/dev/sdb", 2 * GIB)];
    BlockDevMgr::initialize(POOL, candidates, MIN_MDA_SECTORS, false).unwrap()
}

fn time(sec: i64) -> Timestamp {
    Timestamp { sec, nsec: 0 }
}

#[test]
fn minimum_device_size_is_one_gibibyte() {
    assert_eq!(MIN_DEV_SIZE, 1 << 30);
}

#[test]
fn small_device_is_rejected_whatever_it_holds() {
    for ownership in [
        DevOwnership::Unowned,
        DevOwnership::Theirs,
        DevOwnership::Ours(POOL),
        DevOwnership::Ours(OTHER_POOL),
    ] {
        for force in [false, true] {
            assert_eq!(decide_admission(GIB - 1, ownership, POOL, force), Admission::TooSmall);
            assert_eq!(decide_admission(0, ownership, POOL, force), Admission::TooSmall);
        }
    }
}

#[test]
fn admission_by_ownership() {
    for force in [false, true] {
        assert_eq!(decide_admission(GIB, DevOwnership::Unowned, POOL, force), Admission::Admit);
        assert_eq!(
            decide_admission(GIB, DevOwnership::Ours(POOL), POOL, force),
            Admission::AlreadyMember
        );
        assert_eq!(
            decide_admission(GIB, DevOwnership::Ours(OTHER_POOL), POOL, force),
            Admission::OtherPool(OTHER_POOL)
        );
    }
    assert_eq!(decide_admission(GIB, DevOwnership::Theirs, POOL, false), Admission::Foreign);
    assert_eq!(decide_admission(GIB, DevOwnership::Theirs, POOL, true), Admission::Admit);
}

#[test]
fn rejection_messages() {
    assert_eq!(
        invalid_message::<()>(Err(rejection("/dev/sda", Admission::TooSmall))),
        "/dev/sda too small, minimum 1073741824 bytes"
    );
    assert_eq!(
        invalid_message::<()>(Err(rejection("/dev/sda", Admission::Foreign))),
        "Device /dev/sda appears to belong to another application"
    );
    assert_eq!(
        invalid_message::<()>(Err(rejection("/dev/sda", Admission::OtherPool(OTHER_POOL)))),
        "Device /dev/sda already belongs to Stratis pool a1a2a3a4-b1b2-41c2-91d2-d3d4d5d6d7d8"
    );
}

#[test]
fn filter_keeps_admitted_devices_in_order() {
    let candidates = vec![
        unowned(0, "/dev/sda", 2 * GIB),
        candidate(16, "/dev/sdb", 3 * GIB, DevOwnership::Ours(POOL)),
        candidate(32, "/dev/sdc", GIB, DevOwnership::Theirs),
    ];
    let kept = filter_devs(candidates, POOL, true).unwrap();
    assert_eq!(kept.len(), 2);
    assert_eq!(kept[0].0, dev(0));
    assert_eq!(kept[0].1.devnode, "/dev/sda");
    assert_eq!(kept[0].1.size, 2 * GIB);
    assert_eq!(kept[1].0, dev(32));
    assert_eq!(kept[1].1.devnode, "/dev/sdc");
}

#[test]
fn filter_of_nothing_is_nothing() {
    assert_eq!(filter_devs(vec![], POOL, false).unwrap().len(), 0);
}

#[test]
fn foreign_device_is_rejected_unless_forced() {
    let make = || vec![unowned(0, "/dev/sda", 2 * GIB), candidate(16, "/dev/sdb", 2 * GIB, DevOwnership::Theirs)];
    assert_eq!(
        invalid_message(filter_devs(make(), POOL, false)),
        "Device /dev/sdb appears to belong to another application"
    );
    assert_eq!(filter_devs(make(), POOL, true).unwrap().len(), 2);
}

#[test]
fn device_of_another_pool_is_rejected_even_if_forced() {
    for force in [false, true] {
        let candidates = vec![candidate(0, "/dev/sda", 2 * GIB, DevOwnership::Ours(OTHER_POOL))];
        assert_eq!(
            invalid_message(filter_devs(candidates, POOL, force)),
            "Device /dev/sda already belongs to Stratis pool a1a2a3a4-b1b2-41c2-91d2-d3d4d5d6d7d8"
        );
    }
}

#[test]
fn member_of_this_pool_is_passed_over() {
    for force in [false, true] {
        let candidates = vec![candidate(0, "/dev/sda", 2 * GIB, DevOwnership::Ours(POOL))];
        assert_eq!(filter_devs(candidates, POOL, force).unwrap().len(), 0);
    }
}

#[test]
fn first_stop_decides_the_error() {
    let lookup_first = vec![
        unowned(0, "/dev/sda", 2 * GIB),
        failed(16, ErrorKind::PermissionDenied, "no access"),
        unowned(32, "/dev/sdc", 5),
    ];
    match filter_devs(lookup_first, POOL, false) {
        Err(EngineError::Io(e)) => {
            assert_eq!(e.kind(), ErrorKind::PermissionDenied);
            assert_eq!(e.to_string(), "no access");
        }
        other => panic!("{:?}", other),
    }
    let small_first = vec![
        unowned(32, "/dev/sdc", 5),
        failed(16, ErrorKind::PermissionDenied, "no access"),
    ];
    assert_eq!(
        invalid_message(filter_devs(small_first, POOL, false)),
        "/dev/sdc too small, minimum 1073741824 bytes"
    );
}

#[test]
fn initialize_checks_the_metadata_size_first() {
    let candidates = vec![failed(0, ErrorKind::NotFound, "gone")];
    assert_eq!(
        invalid_message(initialize(POOL, candidates, 2030, false)),
        "MDA size is not divisible by the number of copies required"
    );
    assert_eq!(
        invalid_message(initialize(POOL, vec![], 2028, false)),
        "MDA size is less than the minimum"
    );
}

#[test]
fn initialize_builds_one_device_per_admitted_candidate() {
    let candidates = vec![
        unowned(0, "/dev/sda", 2 * GIB),
        candidate(16, "/dev/sdb", 2 * GIB, DevOwnership::Ours(POOL)),
        unowned(32, "/dev/sdc", 3 * GIB + 511),
    ];
    let bds = initialize(POOL, candidates, 4096, false).unwrap();
    assert_eq!(bds.len(), 2);
    assert_eq!(bds[0].dev(), dev(0));
    assert_eq!(bds[0].devnode_path(), "/dev/sda");
    assert_eq!(bds[0].size(), 4194304);
    assert_eq!(bds[0].available(), 4194304 - 16 - 4096);
    assert_eq!(bds[0].pool_uuid(), POOL);
    assert_eq!(bds[1].dev(), dev(32));
    assert_eq!(bds[1].devnode_path(), "/dev/sdc");
    assert_eq!(bds[1].size(), 3 * 2097152);
    assert_eq!(bds[1].available(), 3 * 2097152 - 16 - 4096);
}

#[test]
fn initialize_gives_each_device_a_random_identifier() {
    let candidates = vec![unowned(0, "/dev/sda", 2 * GIB), unowned(16, "/dev/sdb", 2 * GIB)];
    let bds = initialize(POOL, candidates, MIN_MDA_SECTORS, false).unwrap();
    for bd in &bds {
        let id = uuid::Uuid::from_u128(bd.uuid());
        assert_eq!(id.get_version_num(), 4);
        assert_eq!(bd.uuid() & 0xf000_c000_0000_0000_0000, 0x4000_8000_0000_0000_0000);
    }
    assert_ne!(bds[0].uuid(), bds[1].uuid());
}

#[test]
fn initialize_fails_where_the_metadata_area_does_not_fit() {
    let candidates = vec![unowned(0, "/dev/sda", 2 * GIB), unowned(16, "/dev/sdb", GIB)];
    let mda_size = 2097152;
    assert_eq!(
        invalid_message(initialize(POOL, candidates, mda_size, false)),
        "metadata area does not fit on the device"
    );
    let fits = vec![unowned(16, "/dev/sdb", GIB)];
    let bds = initialize(POOL, fits, 2097152 - 16, false).unwrap();
    assert_eq!(bds[0].available(), 0);
}

#[test]
fn one_small_device_fails_the_whole_batch() {
    let candidates = vec![
        unowned(0, "/dev/sda", 2 * GIB),
        unowned(16, "/dev/sdb", GIB / 2),
        unowned(32, "/dev/sdc", 2 * GIB),
    ];
    assert_eq!(
        invalid_message(BlockDevMgr::initialize(POOL, candidates, MIN_MDA_SECTORS, false)),
        "/dev/sdb too small, minimum 1073741824 bytes"
    );
    let valid = vec![unowned(0, "/dev/sda", 2 * GIB), unowned(32, "/dev/sdc", 2 * GIB)];
    let mgr = BlockDevMgr::initialize(POOL, valid, MIN_MDA_SECTORS, false).unwrap();
    assert_eq!(mgr.devnodes(), vec!["/dev/sda".to_string(), "/dev/sdc".to_string()]);
}

#[test]
fn new_manager_keeps_the_later_device_of_one_node() {
    let first = BlockDev::initialize(dev(0), "/dev/sda".to_string(), POOL, 1, 2032, 5000).unwrap();
    let second = BlockDev::initialize(dev(16), "/dev/sdb".to_string(), POOL, 2, 2032, 6000).unwrap();
    let third = BlockDev::initialize(dev(32), "/dev/sda".to_string(), POOL, 3, 2032, 7000).unwrap();
    let mgr = BlockDevMgr::new(vec![first, second, third]);
    assert_eq!(mgr.len(), 2);
    assert_eq!(mgr.devnodes(), vec!["/dev/sda".to_string(), "/dev/sdb".to_string()]);
    assert_eq!(mgr.block_devs()[0].uuid(), 3);
    assert_eq!(mgr.block_devs()[0].dev(), dev(32));
    assert_eq!(mgr.block_devs()[1].uuid(), 2);
    assert_eq!(mgr.avail_space(), (7000 - 2048) + (6000 - 2048));
}

#[test]
fn empty_manager_has_no_space() {
    let mut mgr = BlockDevMgr::new(vec![]);
    assert_eq!(mgr.len(), 0);
    assert_eq!(mgr.avail_space(), 0);
    assert_eq!(mgr.devnodes(), Vec::<String>::new());
    assert_eq!(mgr.alloc_space(0), Some(vec![]));
    assert_eq!(mgr.alloc_space(1), None);
    assert_eq!(mgr.save_state(&time(1), b"x").unwrap().len(), 0);
    assert_eq!(mgr.destroy_all().len(), 0);
}

#[test]
fn avail_space_is_the_sum_over_devices() {
    let mgr = two_device_manager();
    assert_eq!(mgr.avail_space(), 2 * FREE_OF_2_GIB);
}

#[test]
fn avail_space_stops_at_the_largest_number() {
    let huge = 0x7f_ffff_ffff_ffffu64;
    let mut bds = Vec::new();
    for i in 0..600u32 {
        bds.push(BlockDev::initialize(dev(i), format!("/dev/n{}", i), POOL, 1, 2032, huge).unwrap());
    }
    let mut mgr = BlockDevMgr::new(bds);
    assert_eq!(mgr.avail_space(), u64::MAX);
    let segs = mgr.alloc_space(u64::MAX).unwrap();
    assert_eq!(segs.iter().map(|s| s.length as u128).sum::<u128>(), u64::MAX as u128);
    let left = 600 * (huge as u128 - 2048) - u64::MAX as u128;
    assert_eq!(mgr.avail_space() as u128, left);
}

#[test]
fn alloc_more_than_available_changes_nothing() {
    let mut mgr = two_device_manager();
    assert_eq!(mgr.alloc_space(2 * FREE_OF_2_GIB + 1), None);
    assert_eq!(mgr.alloc_space(u64::MAX), None);
    assert_eq!(mgr.avail_space(), 2 * FREE_OF_2_GIB);
    assert_eq!(mgr.block_devs()[0].available(), FREE_OF_2_GIB);
    assert_eq!(mgr.block_devs()[1].available(), FREE_OF_2_GIB);
}

#[test]
fn alloc_takes_devices_in_order() {
    let mut mgr = two_device_manager();
    assert_eq!(
        mgr.alloc_space(1000),
        Some(vec![Segment { start: 2048, length: 1000, device: dev(0) }])
    );
    assert_eq!(
        mgr.alloc_space(FREE_OF_2_GIB),
        Some(vec![
            Segment { start: 3048, length: FREE_OF_2_GIB - 1000, device: dev(0) },
            Segment { start: 2048, length: 1000, device: dev(16) },
        ])
    );
    assert_eq!(mgr.avail_space(), FREE_OF_2_GIB - 1000);
    assert_eq!(mgr.block_devs()[0].available(), 0);
    assert_eq!(
        mgr.alloc_space(5),
        Some(vec![Segment { start: 3048, length: 5, device: dev(16) }])
    );
}

#[test]
fn alloc_of_nothing_gives_no_segments() {
    let mut mgr = two_device_manager();
    assert_eq!(mgr.alloc_space(0), Some(vec![]));
    assert_eq!(mgr.avail_space(), 2 * FREE_OF_2_GIB);
}

#[test]
fn alloc_all_then_one_more_sector() {
    let mut mgr = two_device_manager();
    let all = mgr.avail_space();
    let segs = mgr.alloc_space(all).unwrap();
    assert_eq!(segs.iter().map(|s| s.length).sum::<u64>(), all);
    assert_eq!(
        segs,
        vec![
            Segment { start: 2048, length: FREE_OF_2_GIB, device: dev(0) },
            Segment { start: 2048, length: FREE_OF_2_GIB, device: dev(16) },
        ]
    );
    assert_eq!(mgr.avail_space(), 0);
    assert_eq!(mgr.alloc_space(1), None);
}

#[test]
fn allocated_segments_sum_to_the_request_and_never_overlap() {
    let mut mgr = two_device_manager();
    let mut granted: Vec<Segment> = Vec::new();
    for amount in [1u64, 4096, 123_456, FREE_OF_2_GIB, 77, 3_000_000] {
        let before = mgr.avail_space();
        let segs = mgr.alloc_space(amount).unwrap();
        assert_eq!(segs.iter().map(|s| s.length).sum::<u64>(), amount);
        assert_eq!(mgr.avail_space(), before - amount);
        for seg in segs {
            assert!(seg.length > 0);
            assert!(seg.start >= 2048, "segment reaches into the metadata area");
            assert!(seg.start + seg.length <= 4194304);
            for old in &granted {
                if old.device == seg.device {
                    assert!(
                        seg.start + seg.length <= old.start || old.start + old.length <= seg.start,
                        "{:?} overlaps {:?}",
                        seg,
                        old
                    );
                }
            }
            granted.push(seg);
        }
    }
}

#[test]
fn add_merges_new_devices() {
    let mut mgr = two_device_manager();
    let candidates = vec![
        unowned(32, "/dev/sdc", 3 * GIB),
        candidate(0, "/dev/sda", 2 * GIB, DevOwnership::Ours(POOL)),
    ];
    assert_eq!(mgr.add(POOL, candidates, false).unwrap(), vec!["/dev/sdc".to_string()]);
    assert_eq!(
        mgr.devnodes(),
        vec!["/dev/sda".to_string(), "/dev/sdb".to_string(), "/dev/sdc".to_string()]
    );
    assert_eq!(mgr.avail_space(), 2 * FREE_OF_2_GIB + 3 * 2097152 - 2048);
    assert_eq!(mgr.block_devs()[2].size(), 3 * 2097152);
}

#[test]
fn add_replaces_a_device_with_the_same_node() {
    let mut mgr = two_device_manager();
    mgr.alloc_space(10).unwrap();
    let old_uuid = mgr.block_devs()[0].uuid();
    let candidates = vec![candidate(48, "/dev/sda", 4 * GIB, DevOwnership::Theirs)];
    assert_eq!(mgr.add(POOL, candidates, true).unwrap(), vec!["/dev/sda".to_string()]);
    assert_eq!(mgr.len(), 2);
    assert_eq!(mgr.devnodes(), vec!["/dev/sda".to_string(), "/dev/sdb".to_string()]);
    assert_eq!(mgr.block_devs()[0].dev(), dev(48));
    assert_eq!(mgr.block_devs()[0].size(), 4 * 2097152);
    assert_ne!(mgr.block_devs()[0].uuid(), old_uuid);
}

#[test]
fn failed_add_changes_nothing() {
    let mut mgr = two_device_manager();
    let candidates = vec![
        unowned(32, "/dev/sdc", 3 * GIB),
        candidate(48, "/dev/sdd", 3 * GIB, DevOwnership::Theirs),
    ];
    assert_eq!(
        invalid_message(mgr.add(POOL, candidates, false)),
        "Device /dev/sdd appears to belong to another application"
    );
    assert_eq!(mgr.devnodes(), vec!["/dev/sda".to_string(), "/dev/sdb".to_string()]);
    assert_eq!(mgr.avail_space(), 2 * FREE_OF_2_GIB);
    let lookup = vec![failed(32, ErrorKind::NotFound, "gone")];
    assert!(matches!(mgr.add(POOL, lookup, false), Err(EngineError::Io(_))));
    assert_eq!(mgr.len(), 2);
}

#[test]
fn save_state_writes_the_same_version_to_every_device() {
    let mut mgr = two_device_manager();
    let writes = mgr.save_state(&time(100), b"pool state").unwrap();
    assert_eq!(writes.len(), 2);
    assert_eq!(writes[0].0, "/dev/sda");
    assert_eq!(writes[1].0, "/dev/sdb");
    let expected =
        MDAHeader { last_updated: time(100), used: 10, data_crc: checksum(b"pool state") };
    for (_, write) in &writes {
        assert_eq!(write.slot, 0);
        assert_eq!(write.primary_offset, 8192);
        assert_eq!(write.backup_offset, 8192 + 2 * 508 * 512);
        assert_eq!(MDAHeader::from_buf(&write.header), Some(expected));
    }
    for bd in mgr.block_devs() {
        assert_eq!(bd.last_update_time(), Some(time(100)));
    }
    assert_eq!(mgr.avail_space(), 2 * FREE_OF_2_GIB);
}

#[test]
fn save_state_with_stale_time_is_rejected_and_changes_nothing() {
    let mut mgr = two_device_manager();
    mgr.save_state(&time(100), b"first").unwrap();
    for stale in [time(100), time(99), Timestamp { sec: 99, nsec: 999_999_999 }] {
        assert_eq!(
            invalid_message(mgr.save_state(&stale, b"second")),
            "metadata is too large or not newer than what is stored"
        );
        for bd in mgr.block_devs() {
            assert_eq!(bd.last_update_time(), Some(time(100)));
        }
    }
    let writes = mgr.save_state(&Timestamp { sec: 100, nsec: 1 }, b"second").unwrap();
    assert_eq!(writes[0].1.slot, 1);
    assert_eq!(writes[1].1.slot, 1);
}

#[test]
fn save_state_is_all_or_nothing_across_devices() {
    let mut mgr = two_device_manager();
    mgr.save_state(&time(100), b"first").unwrap();
    let added = vec![unowned(32, "/dev/sdc", 2 * GIB)];
    mgr.add(POOL, added, false).unwrap();
    assert!(mgr.save_state(&time(50), b"old").is_err());
    assert_eq!(mgr.block_devs()[2].last_update_time(), None);
    let writes = mgr.save_state(&time(101), b"new").unwrap();
    assert_eq!(writes[0].1.slot, 1);
    assert_eq!(writes[1].1.slot, 1);
    assert_eq!(writes[2].1.slot, 0);
}

#[test]
fn save_state_rejects_oversized_metadata() {
    let mut mgr = two_device_manager();
    let too_large = vec![0u8; 508 * 512 - 32 + 1];
    assert!(mgr.save_state(&time(1), &too_large).is_err());
    for bd in mgr.block_devs() {
        assert_eq!(bd.last_update_time(), None);
    }
    let fits = vec![0u8; 508 * 512 - 32];
    assert!(mgr.save_state(&time(1), &fits).is_ok());
}

#[test]
fn destroy_all_wipes_every_device() {
    let wipes = two_device_manager().destroy_all();
    assert_eq!(wipes.len(), 2);
    assert_eq!(wipes[0].0, "/dev/sda");
    assert_eq!(wipes[1].0, "/dev/sdb");
    for (_, bytes) in &wipes {
        assert_eq!(bytes, &vec![0u8; BDA_STATIC_HDR_SIZE]);
        assert_eq!(StaticHeader::determine_ownership(bytes).unwrap(), DevOwnership::Unowned);
    }
}

#[test]
fn destroy_report_lists_every_failure() {
    assert!(destroy_report(vec![]).is_ok());
    assert!(destroy_report(vec![("/dev/sda".to_string(), Ok(())), ("/dev/sdb".to_string(), Ok(()))])
        .is_ok());
    let outcomes = vec![
        ("/dev/sda".to_string(), Err(EngineError::Io(Error::new(ErrorKind::Other, "a")))),
        ("/dev/sdb".to_string(), Ok(())),
        ("/dev/sdc".to_string(), Err(EngineError::Io(Error::new(ErrorKind::Other, "c")))),
    ];
    let failures = destroy_report(outcomes).unwrap_err();
    assert_eq!(failures.len(), 2);
    assert_eq!(failures[0].0, "/dev/sda");
    assert_eq!(failures[0].1.message(), "IO error: a");
    assert_eq!(failures[1].0, "/dev/sdc");
    assert_eq!(failures[1].1.message(), "IO error: c");
}

#[test]
fn written_header_makes_the_device_a_member() {
    let mgr = two_device_manager();
    let image = mgr.block_devs()[0].header_image();
    let ownership = StaticHeader::determine_ownership(&image).unwrap();
    assert_eq!(ownership, DevOwnership::Ours(POOL));
    let again = vec![candidate(0, "/dev/sda", 2 * GIB, ownership)];
    assert_eq!(initialize(POOL, again, MIN_MDA_SECTORS, false).unwrap().len(), 0);
    let stolen = vec![candidate(0, "/dev/sda", 2 * GIB, ownership)];
    assert!(initialize(OTHER_POOL, stolen, MIN_MDA_SECTORS, true).is_err());
}
