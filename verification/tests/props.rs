use stratis_blockdev::errors::{EngineError, ErrorEnum};
use stratis_blockdev::filesystem::{Filesystem, Name, SimFilesystem, MAX_CREATED_SECS};
use stratis_blockdev::props::{
    decimal_text, fs_created_prop, fs_devnode_prop, fs_name_prop, fs_size_prop, fs_size_to_prop,
    fs_used_prop, fs_used_to_prop,
};
use stratis_blockdev::units::{bytes_to_sectors, SECTOR_SIZE};

fn name(text: &str) -> Name {
    Name::new(text.to_string())
}

#[test]
fn sector_size_is_512_bytes() {
    assert_eq!(SECTOR_SIZE, 512);
    assert_eq!(bytes_to_sectors(0), 0);
    assert_eq!(bytes_to_sectors(511), 0);
    assert_eq!(bytes_to_sectors(512), 1);
    assert_eq!(bytes_to_sectors(1073741824), 2097152);
    assert_eq!(bytes_to_sectors(u64::MAX), 0x7f_ffff_ffff_ffff);
}

#[test]
fn decimal_text_of_numbers() {
    assert_eq!(decimal_text(0), "0");
    assert_eq!(decimal_text(9), "9");
    assert_eq!(decimal_text(10), "10");
    assert_eq!(decimal_text(1234567890), "1234567890");
    assert_eq!(decimal_text(u64::MAX), "18446744073709551615");
    for n in [1u64, 99, 100, 101, 512, 1 << 40, 999_999_999_999] {
        assert_eq!(decimal_text(n), n.to_string());
    }
}

#[test]
fn name_keeps_its_text() {
    let n = name("fs-1");
    assert_eq!(n.to_owned(), "fs-1");
    assert_eq!(n.as_str(), "fs-1");
    assert_eq!(fs_name_prop(&n), "fs-1");
    assert_eq!(fs_name_prop(&name("")), "");
}

#[test]
fn sim_filesystem_checks_its_arguments() {
    assert!(SimFilesystem::new(10, 0).is_some());
    assert!(SimFilesystem::new(10, MAX_CREATED_SECS).is_some());
    assert!(SimFilesystem::new(10, MAX_CREATED_SECS + 1).is_none());
    assert!(SimFilesystem::new(10, -1).is_none());
    assert!(SimFilesystem::new(u64::MAX / 512, 0).is_some());
    assert!(SimFilesystem::new(u64::MAX / 512 + 1, 0).is_none());
}

#[test]
fn sim_filesystem_reports_what_it_was_given() {
    let mut fs = SimFilesystem::new(2048, 1431648000).unwrap();
    assert_eq!(fs.size(), 1048576);
    assert_eq!(fs.created(), 1431648000);
    assert!(matches!(fs.used(), Err(EngineError::Engine(ErrorEnum::Error, _))));
    fs.set_used(Some(4096));
    assert_eq!(fs.used().unwrap(), 4096);
    assert_eq!(fs.size(), 1048576);
    assert_eq!(
        fs.path_to_mount_filesystem(&name("pool"), &name("fs")),
        "/dev/stratis/pool/fs"
    );
}

#[test]
fn devnode_prop_is_the_mount_path() {
    let fs = SimFilesystem::new(2048, 0).unwrap();
    assert_eq!(fs_devnode_prop(&fs, &name("p1"), &name("data")), "/dev/stratis/p1/data");
}

#[test]
fn created_prop_is_rfc3339_with_whole_seconds() {
    let fs = SimFilesystem::new(2048, 1431648000).unwrap();
    assert_eq!(fs_created_prop(&fs), "2015-05-15T00:00:00Z");
    let epoch = SimFilesystem::new(2048, 0).unwrap();
    assert_eq!(fs_created_prop(&epoch), "1970-01-01T00:00:00Z");
    let last = SimFilesystem::new(2048, MAX_CREATED_SECS).unwrap();
    assert_eq!(fs_created_prop(&last), "9999-12-31T23:59:59Z");
    let later = SimFilesystem::new(2048, 1517020209).unwrap();
    assert_eq!(fs_created_prop(&later), "2018-01-27T02:30:09Z");
}

#[test]
fn size_prop_is_the_size_in_bytes() {
    let fs = SimFilesystem::new(2048, 0).unwrap();
    assert_eq!(fs_size_prop(&fs), "1048576");
    assert_eq!(fs_size_to_prop(0), "0");
    assert_eq!(fs_size_to_prop(1 << 40), "1099511627776");
}

#[test]
fn used_prop_says_whether_the_use_is_known() {
    let mut fs = SimFilesystem::new(2048, 0).unwrap();
    assert_eq!(fs_used_prop(&fs), (false, String::new()));
    fs.set_used(Some(12345));
    assert_eq!(fs_used_prop(&fs), (true, "12345".to_string()));
    fs.set_used(Some(0));
    assert_eq!(fs_used_prop(&fs), (true, "0".to_string()));
    assert_eq!(fs_used_to_prop(None), (false, String::new()));
    assert_eq!(fs_used_to_prop(Some(7)), (true, "7".to_string()));
}
