use stratis_blockdev::device::DevOwnership;
use stratis_blockdev::errors::{EngineError, ErrorEnum};
use stratis_blockdev::metadata::{
    checksum, is_all_zero, validate_mda_size, zero_bytes, MDAHeader, RegionRead, StaticHeader,
    Timestamp, BDA, BDA_STATIC_HDR_SIZE, MIN_MDA_SECTORS,
};

const POOL: u128 = 0x1234_5678_9abc_4def_8123_4567_89ab_cdef;
const DEV: u128 = 0xfedc_ba98_7654_4321_8fed_cba9_8765_4321;
const TWO_GIB: u64 = 4194304;

fn is_invalid<T: std::fmt::Debug>(res: Result<T, EngineError>) -> bool {
    matches!(res, Err(EngineError::Engine(ErrorEnum::Invalid, _)))
}

fn fresh_bda() -> BDA {
    BDA::initialize(POOL, DEV, MIN_MDA_SECTORS, TWO_GIB).unwrap()
}

fn at(sec: i64, nsec: i32) -> Timestamp {
    Timestamp { sec, nsec }
}

#[test]
fn checksum_of_known_text() {
    assert_eq!(checksum(b"Wikipedia"), 0x11e6_0398);
    assert_eq!(checksum(b""), 1);
    assert_eq!(checksum(&[0u8]), 0x0001_0001);
}

#[test]
fn checksum_wraps_at_the_modulus() {
    let bytes = vec![0xffu8; 1000];
    let mut a: u64 = 1;
    let mut b: u64 = 0;
    for byte in &bytes {
        a = (a + *byte as u64) % 65521;
        b = (b + a) % 65521;
    }
    assert_eq!(checksum(&bytes) as u64, b * 65536 + a);
}

#[test]
fn zero_bytes_are_all_zero() {
    assert_eq!(zero_bytes(0), Vec::<u8>::new());
    assert_eq!(zero_bytes(3), vec![0u8, 0, 0]);
    assert!(is_all_zero(&zero_bytes(100)));
    assert!(is_all_zero(&[]));
    assert!(!is_all_zero(&[0, 0, 1]));
}

#[test]
fn mda_size_must_be_a_multiple_of_four_and_large_enough() {
    assert!(validate_mda_size(2032).is_ok());
    assert!(validate_mda_size(2036).is_ok());
    assert!(validate_mda_size(4096).is_ok());
    assert!(is_invalid(validate_mda_size(2033)));
    assert!(is_invalid(validate_mda_size(2028)));
    assert!(is_invalid(validate_mda_size(0)));
    assert!(is_invalid(validate_mda_size(u64::MAX)));
}

#[test]
fn sigblock_layout() {
    let header = StaticHeader::new(POOL, DEV, 2032, TWO_GIB);
    let block = header.sigblock_to_buf();
    assert_eq!(block.len(), 512);
    assert_eq!(&block[4..20], b"!Stra0tis\x86\xff\x02^\x41rh");
    assert_eq!(&block[20..28], &TWO_GIB.to_le_bytes());
    assert_eq!(&block[28..44], &POOL.to_le_bytes());
    assert_eq!(&block[44..60], &DEV.to_le_bytes());
    assert_eq!(&block[60..68], &2032u64.to_le_bytes());
    assert!(block[68..].iter().all(|b| *b == 0));
    assert_eq!(&block[0..4], &checksum(&block[4..]).to_le_bytes());
}

#[test]
fn static_header_round_trip() {
    let header = StaticHeader::new(POOL, DEV, 2032, TWO_GIB);
    let image = header.image();
    assert_eq!(image.len(), BDA_STATIC_HDR_SIZE);
    assert_eq!(&image[512..1024], &header.sigblock_to_buf()[..]);
    assert_eq!(&image[4608..5120], &header.sigblock_to_buf()[..]);
    assert!(image[..512].iter().all(|b| *b == 0));
    assert!(image[1024..4608].iter().all(|b| *b == 0));
    assert!(image[5120..].iter().all(|b| *b == 0));
    assert_eq!(StaticHeader::setup_from_buf(&image), Some(header));
    assert_eq!(StaticHeader::sigblock_from_buf(&image[512..1024]), Some(header));
}

#[test]
fn static_header_with_extreme_values_round_trips() {
    for (pool, dev, mda, size) in
        [(0u128, 0u128, 0u64, 0u64), (u128::MAX, u128::MAX, u64::MAX, u64::MAX), (1, 2, 3, 4)]
    {
        let header = StaticHeader::new(pool, dev, mda, size);
        assert_eq!(StaticHeader::setup_from_buf(&header.image()), Some(header));
    }
}

#[test]
fn zeroed_device_is_unowned() {
    let buf = vec![0u8; BDA_STATIC_HDR_SIZE];
    assert_eq!(StaticHeader::determine_ownership(&buf).unwrap(), DevOwnership::Unowned);
    assert_eq!(StaticHeader::setup_from_buf(&buf), None);
}

#[test]
fn foreign_signature_is_theirs() {
    let mut buf = vec![0u8; BDA_STATIC_HDR_SIZE];
    buf[1080] = 0x53;
    buf[1081] = 0xef;
    assert_eq!(StaticHeader::determine_ownership(&buf).unwrap(), DevOwnership::Theirs);
    let mut last = vec![0u8; BDA_STATIC_HDR_SIZE];
    last[BDA_STATIC_HDR_SIZE - 1] = 1;
    assert_eq!(StaticHeader::determine_ownership(&last).unwrap(), DevOwnership::Theirs);
}

#[test]
fn device_with_header_is_ours() {
    let header = StaticHeader::new(POOL, DEV, 2032, TWO_GIB);
    let mut buf = header.image();
    buf.extend_from_slice(&[0xaau8; 100]);
    assert_eq!(StaticHeader::determine_ownership(&buf).unwrap(), DevOwnership::Ours(POOL));
}

#[test]
fn damaged_first_copy_falls_back_to_second() {
    let header = StaticHeader::new(POOL, DEV, 2032, TWO_GIB);
    let mut buf = header.image();
    buf[530] ^= 0xff;
    assert_eq!(StaticHeader::sigblock_from_buf(&buf[512..1024]), None);
    assert_eq!(StaticHeader::setup_from_buf(&buf), Some(header));
    assert_eq!(StaticHeader::determine_ownership(&buf).unwrap(), DevOwnership::Ours(POOL));
}

#[test]
fn damaged_copies_are_theirs() {
    let header = StaticHeader::new(POOL, DEV, 2032, TWO_GIB);
    let mut buf = header.image();
    buf[530] ^= 0xff;
    buf[4700] ^= 0x01;
    assert_eq!(StaticHeader::setup_from_buf(&buf), None);
    assert_eq!(StaticHeader::determine_ownership(&buf).unwrap(), DevOwnership::Theirs);
}

#[test]
fn short_read_is_invalid() {
    assert!(is_invalid(StaticHeader::determine_ownership(&vec![0u8; BDA_STATIC_HDR_SIZE - 1])));
    assert!(is_invalid(StaticHeader::determine_ownership(&[])));
    assert_eq!(StaticHeader::setup_from_buf(&vec![0u8; 100]), None);
    assert_eq!(StaticHeader::sigblock_from_buf(&vec![0u8; 511]), None);
}

#[test]
fn wipe_image_erases_ownership() {
    let wipe = StaticHeader::wipe_image();
    assert_eq!(wipe, vec![0u8; BDA_STATIC_HDR_SIZE]);
    assert_eq!(StaticHeader::determine_ownership(&wipe).unwrap(), DevOwnership::Unowned);
}

#[test]
fn timestamps_order_by_seconds_then_nanoseconds() {
    assert!(at(2, 0).later_than(&at(1, 999)));
    assert!(at(1, 1).later_than(&at(1, 0)));
    assert!(!at(1, 0).later_than(&at(1, 0)));
    assert!(!at(1, 0).later_than(&at(1, 1)));
    assert!(!at(0, 999).later_than(&at(1, 0)));
    assert!(at(0, 0).later_than(&at(-1, 5)));
    assert!(at(i64::MAX, i32::MAX).later_than(&at(i64::MIN, i32::MIN)));
}

#[test]
fn mda_header_round_trip() {
    for (sec, nsec, used, crc) in [
        (0i64, 0i32, 0u64, 0u32),
        (1_500_000_000, 999_999_999, 77, 0xdead_beef),
        (-5, -1, u64::MAX, u32::MAX),
        (i64::MAX, i32::MAX, 1, 2),
        (i64::MIN, i32::MIN, 3, 4),
    ] {
        let header = MDAHeader { last_updated: at(sec, nsec), used, data_crc: crc };
        let bytes = header.to_buf();
        assert_eq!(bytes.len(), 32);
        assert_eq!(MDAHeader::from_buf(&bytes), Some(header));
    }
}

#[test]
fn mda_header_layout() {
    let header = MDAHeader { last_updated: at(1, 2), used: 3, data_crc: 4 };
    let bytes = header.to_buf();
    assert_eq!(&bytes[4..8], &4u32.to_le_bytes());
    assert_eq!(&bytes[8..16], &3u64.to_le_bytes());
    assert_eq!(&bytes[16..24], &0x8000_0000_0000_0001u64.to_le_bytes());
    assert_eq!(&bytes[24..28], &0x8000_0002u32.to_le_bytes());
    assert_eq!(&bytes[28..32], &[0u8; 4]);
    assert_eq!(&bytes[0..4], &checksum(&bytes[4..]).to_le_bytes());
}

#[test]
fn damaged_mda_header_is_not_read() {
    let header = MDAHeader { last_updated: at(1, 2), used: 3, data_crc: 4 };
    let mut bytes = header.to_buf();
    bytes[9] ^= 1;
    assert_eq!(MDAHeader::from_buf(&bytes), None);
    assert_eq!(MDAHeader::from_buf(&[0u8; 32]), None);
    assert_eq!(MDAHeader::from_buf(&[0u8; 31]), None);
}

#[test]
fn bda_initialize_checks_sizes() {
    let bda = fresh_bda();
    assert_eq!(bda.size(), 2048);
    assert_eq!(bda.dev_size(), TWO_GIB);
    assert_eq!(bda.pool_uuid(), POOL);
    assert_eq!(bda.dev_uuid(), DEV);
    assert_eq!(bda.last_update_time(), None);
    assert_eq!(bda.read_plan(), None);
    assert_eq!(bda.max_data_size(), 508 * 512 - 32);
    assert!(is_invalid(BDA::initialize(POOL, DEV, 2030, TWO_GIB)));
    assert!(is_invalid(BDA::initialize(POOL, DEV, 2028, TWO_GIB)));
    assert!(is_invalid(BDA::initialize(POOL, DEV, 2032, 2047)));
    assert!(BDA::initialize(POOL, DEV, 2032, 2048).is_ok());
    assert!(is_invalid(BDA::initialize(POOL, DEV, 2032, u64::MAX)));
    assert!(BDA::initialize(POOL, DEV, 2032, 0x7f_ffff_ffff_ffff).is_ok());
    assert!(is_invalid(BDA::initialize(POOL, DEV, 2032, 0x80_0000_0000_0000)));
}

#[test]
fn bda_header_image_names_the_pool() {
    let bda = fresh_bda();
    let image = bda.header_image();
    assert_eq!(
        StaticHeader::setup_from_buf(&image),
        Some(StaticHeader::new(POOL, DEV, MIN_MDA_SECTORS, TWO_GIB))
    );
}

#[test]
fn save_state_alternates_slots() {
    let mut bda = fresh_bda();
    let region = 508 * 512;
    let first = bda.save_state(&at(10, 0), b"one").unwrap();
    assert_eq!(first.slot, 0);
    assert_eq!(first.primary_offset, 8192);
    assert_eq!(first.backup_offset, 8192 + 2 * region);
    let second = bda.save_state(&at(11, 0), b"two").unwrap();
    assert_eq!(second.slot, 1);
    assert_eq!(second.primary_offset, 8192 + region);
    assert_eq!(second.backup_offset, 8192 + 3 * region);
    let third = bda.save_state(&at(12, 0), b"three").unwrap();
    assert_eq!(third.slot, 0);
    assert_eq!(bda.last_update_time(), Some(at(12, 0)));
    assert_eq!(
        bda.read_plan(),
        Some(RegionRead { primary_offset: 8192, backup_offset: 8192 + 2 * region, length: 37 })
    );
}

#[test]
fn save_state_header_describes_the_metadata() {
    let mut bda = fresh_bda();
    let write = bda.save_state(&at(10, 5), b"pool metadata").unwrap();
    assert_eq!(
        MDAHeader::from_buf(&write.header),
        Some(MDAHeader { last_updated: at(10, 5), used: 13, data_crc: checksum(b"pool metadata") })
    );
}

#[test]
fn what_was_saved_is_loaded() {
    let mut bda = fresh_bda();
    let write = bda.save_state(&at(10, 5), b"pool metadata").unwrap();
    let mut region = write.header.clone();
    region.extend_from_slice(b"pool metadata");
    region.extend_from_slice(&[0u8; 50]);
    assert_eq!(bda.load_state(&region).unwrap(), (at(10, 5), b"pool metadata".to_vec()));
}

#[test]
fn empty_metadata_is_saved_and_loaded() {
    let mut bda = fresh_bda();
    let write = bda.save_state(&at(0, 0), b"").unwrap();
    assert_eq!(bda.load_state(&write.header).unwrap(), (at(0, 0), vec![]));
}

#[test]
fn load_state_without_a_version_is_not_found() {
    let bda = fresh_bda();
    assert!(matches!(
        bda.load_state(&[0u8; 64]),
        Err(EngineError::Engine(ErrorEnum::NotFound, _))
    ));
}

#[test]
fn load_state_rejects_damaged_bytes() {
    let mut bda = fresh_bda();
    let write = bda.save_state(&at(10, 5), b"pool metadata").unwrap();
    let mut region = write.header.clone();
    region.extend_from_slice(b"pool metadata");
    let mut bad_data = region.clone();
    bad_data[40] ^= 1;
    assert!(is_invalid(bda.load_state(&bad_data)));
    let mut bad_header = region.clone();
    bad_header[10] ^= 1;
    assert!(is_invalid(bda.load_state(&bad_header)));
    assert!(is_invalid(bda.load_state(&region[..region.len() - 1])));
    assert!(is_invalid(bda.load_state(&[])));
    let other = MDAHeader { last_updated: at(9, 0), used: 13, data_crc: checksum(b"pool metadata") };
    let mut stale = other.to_buf();
    stale.extend_from_slice(b"pool metadata");
    assert!(is_invalid(bda.load_state(&stale)));
}

#[test]
fn stale_timestamp_is_rejected_and_nothing_changes() {
    let mut bda = fresh_bda();
    let write = bda.save_state(&at(10, 5), b"first").unwrap();
    let mut region = write.header.clone();
    region.extend_from_slice(b"first");
    let plan = bda.read_plan();
    for time in [at(10, 5), at(10, 4), at(9, 999), at(-1, 0)] {
        assert!(!bda.can_save(&time, 6));
        assert!(is_invalid(bda.save_state(&time, b"second")));
        assert_eq!(bda.last_update_time(), Some(at(10, 5)));
        assert_eq!(bda.read_plan(), plan);
        assert_eq!(bda.load_state(&region).unwrap(), (at(10, 5), b"first".to_vec()));
    }
    assert!(bda.can_save(&at(10, 6), 6));
    assert_eq!(bda.save_state(&at(10, 6), b"second").unwrap().slot, 1);
}

#[test]
fn oversized_metadata_is_rejected_and_nothing_changes() {
    let mut bda = fresh_bda();
    let capacity = bda.max_data_size() as usize;
    let too_large = vec![7u8; capacity + 1];
    assert!(!bda.can_save(&at(1, 0), capacity + 1));
    assert!(is_invalid(bda.save_state(&at(1, 0), &too_large)));
    assert_eq!(bda.last_update_time(), None);
    let fits = vec![7u8; capacity];
    assert!(bda.can_save(&at(1, 0), capacity));
    let write = bda.save_state(&at(1, 0), &fits).unwrap();
    assert_eq!(write.slot, 0);
    assert_eq!(bda.read_plan().unwrap().length, 508 * 512);
}
